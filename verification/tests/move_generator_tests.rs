//! Move-generator tests: pinned pieces, gates, doors and typical boards.

use hive_engine::hex_grid::HexGrid;
use hive_engine::hex_grid::HexLocation;
use hive_engine::hex_grid::Piece;
use hive_engine::hex_grid::PieceColor;
use hive_engine::hex_grid::PieceType;
use hive_engine::move_generator::MoveGeneratorDebugger;

fn compare_moves(
    start_location: HexLocation,
    expected: &str,
    original_position: &HexGrid,
    test_positions: &Vec<HexGrid>,
) {
    let expected_locations = HexGrid::selector(expected);
    let mut original_position = original_position.clone();
    let piece = original_position
        .remove(start_location)
        .expect("Expected piece at start location");
    let mut expected_positions = Vec::new();

    for location in expected_locations {
        let mut new_position = original_position.clone();
        new_position.add(piece, location);
        expected_positions.push(new_position);
    }

    for position in test_positions {
        println!("test_position:\n{}\n", position.to_dsl());
    }
    for position in expected_positions.iter() {
        println!("expected_position:\n{}\n", position.to_dsl());
    }

    assert_eq!(expected_positions.len(), test_positions.len());
    for position in expected_positions {
        assert!(test_positions.contains(&position));
    }
}

#[test]
fn test_spider_gate() {
    let grid = HexGrid::from_dsl(" . . . . . . .\n. . . a . . .\n . a S a . . .\n. . a a . . .\n . . . . . . .\n. . . . . . .\n\nstart - [0 0]\n\n");
    let legal_moves = vec![];

    let generator = MoveGeneratorDebugger::from_grid(&grid);
    let (spider, _) = grid.find(Piece::new(PieceType::Spider, PieceColor::White)).unwrap();
    let spider_moves = generator.spider_moves(spider);

    assert!(spider_moves.is_empty());
    assert_eq!(spider_moves, legal_moves);

    let grid = HexGrid::from_dsl(" . . . . . . .\n. . . a a . .\n . a . . a . .\n. . a S a . .\n . . a a . . .\n. . . . . . .\n\nstart - [0 0]\n\n");
    let legal_moves = vec![];

    let generator = MoveGeneratorDebugger::from_grid(&grid);
    let (spider, _) = grid.find(Piece::new(PieceType::Spider, PieceColor::White)).unwrap();
    let spider_moves = generator.spider_moves(spider);

    assert!(spider_moves.is_empty());
    assert_eq!(spider_moves, legal_moves);
}

#[test]
fn test_spider_pinned() {
    let grid = HexGrid::from_dsl(" . . . . . . .\n. . . a . . .\n . a S a . . .\n. . . . . . .\n . . . . . . .\n. . . . . . .\n\nstart - [0 0]\n\n");

    let generator = MoveGeneratorDebugger::from_grid(&grid);
    let (spider, _) = grid.find(Piece::new(PieceType::Spider, PieceColor::White)).unwrap();
    let spider_moves = generator.spider_moves(spider);
    assert!(spider_moves.is_empty());

    let grid = HexGrid::from_dsl(" . . . . . . .\n. . a . . . .\n . a S . . . .\n. . . a a . .\n . . a . . . .\n. . . . . . .\n\nstart - [0 0]\n\n");

    let generator = MoveGeneratorDebugger::from_grid(&grid);
    let (spider, _) = grid.find(Piece::new(PieceType::Spider, PieceColor::White)).unwrap();
    let spider_moves = generator.spider_moves(spider);
    assert!(spider_moves.is_empty());
}

#[test]
fn test_spider_door() {
    let grid = HexGrid::from_dsl(" . . . . . . .\n. . a a . . .\n . a . a S . .\n. a . . . . .\n . a a . . . .\n. . . . . . .\n\nstart - [0 0]\n\n");

    let selector = " . . * . . . .\n. . a a . . .\n . a * a S . .\n. a * . . . .\n . a a * . . .\n. . . . . . .\n\nstart - [0 0]\n\n";

    let generator = MoveGeneratorDebugger::from_grid(&grid);
    let (spider, _) = grid.find(Piece::new(PieceType::Spider, PieceColor::White)).unwrap();
    let spider_moves = generator.spider_moves(spider);
    compare_moves(spider, selector, &grid, &spider_moves);

    let grid = HexGrid::from_dsl(" . . . . . . .\n. . a a . . .\n . a . a . . .\n. a . . S . .\n . a a . . . .\n. . . . . . .\n\nstart - [0 0]\n\n");

    let selector = " . . . * . . .\n. . a a . . .\n . a * a . . .\n. a * . S . .\n . a a . . . .\n. . . * . . .\n\nstart - [0 0]\n\n";

    let generator = MoveGeneratorDebugger::from_grid(&grid);
    let (spider, _) = grid.find(Piece::new(PieceType::Spider, PieceColor::White)).unwrap();
    let spider_moves = generator.spider_moves(spider);
    compare_moves(spider, selector, &grid, &spider_moves);
}

#[test]
fn test_spider_typical_boards() {
    let grid = HexGrid::from_dsl(" . . . . . . .\n. . a a . . .\n . a . a . . .\n. a . . S . .\n . . . . . . .\n. . . . . . .\n\nstart - [0 0]\n\n");
    let selector = " . . . * . . .\n. . a a . . .\n . a . a . . .\n. a * . S . .\n . . . . . . .\n. . . . . . .\n\nstart - [0 0]\n\n";

    let generator = MoveGeneratorDebugger::from_grid(&grid);
    let (spider, _) = grid.find(Piece::new(PieceType::Spider, PieceColor::White)).unwrap();
    let spider_moves = generator.spider_moves(spider);
    compare_moves(spider, selector, &grid, &spider_moves);
}

#[test]
fn test_grasshopper() {
    let grid = HexGrid::from_dsl(". a a a . . .\n . . . a . . .\n. . a a . . .\n . a G a a a .\n. . . . . . .\n . . . . . . .\n. . . . . . .\n\nstart - [0 0]\n\n");

    let selector = ". a a a * . .\n . * . a . . .\n. . a a . . .\n * a G a a a *\n. . . . . . .\n . . . . . . .\n. . . . . . .\n\nstart - [0 0]\n\n";

    let generator = MoveGeneratorDebugger::from_grid(&grid);
    let (grasshopper, _) = grid
        .find(Piece::new(PieceType::Grasshopper, PieceColor::White))
        .unwrap();
    let grasshopper_moves = generator.grasshopper_moves(grasshopper);
    compare_moves(grasshopper, selector, &grid, &grasshopper_moves);
}

#[test]
fn test_grasshopper_pinned() {
    let grid = HexGrid::from_dsl(". . . a . . .\n . . a a . . .\n. . a . . . .\n . a G a a a .\n. . . a . . .\n . . . . . . .\n. . . . . . .\n\nstart - [0 0]\n\n");
    let generator = MoveGeneratorDebugger::from_grid(&grid);
    let (grasshopper, _) = grid
        .find(Piece::new(PieceType::Grasshopper, PieceColor::White))
        .unwrap();
    let grasshopper_moves = generator.grasshopper_moves(grasshopper);
    assert!(grasshopper_moves.is_empty());
}

#[test]
fn test_queen_pinned() {
    let grid = HexGrid::from_dsl(" . . . . . . .\n. . a . . . .\n . a . a . . .\n. a . . Q . .\n . a a a . . .\n. . . . . . .\n\nstart - [0 0]\n\n");
    let generator = MoveGeneratorDebugger::from_grid(&grid);
    let (queen, _) = grid.find(Piece::new(PieceType::Queen, PieceColor::White)).unwrap();
    let queen_moves = generator.queen_moves(queen);
    assert!(queen_moves.is_empty());
}

#[test]
fn test_queen_moves() {
    let grid = HexGrid::from_dsl(" . . . . . . .\n. . a a . . .\n . a . a . . .\n. a . . Q . .\n . a a a . . .\n. . . . . . .\n\nstart - [0 0]\n\n");
    let selector = " . . . . . . .\n. . a a . . .\n . a . a * . .\n. a . . Q . .\n . a a a * . .\n. . . . . . .\n\nstart - [0 0]\n\n";
    let generator = MoveGeneratorDebugger::from_grid(&grid);
    let (queen, _) = grid.find(Piece::new(PieceType::Queen, PieceColor::White)).unwrap();
    let queen_moves = generator.queen_moves(queen);
    compare_moves(queen, selector, &grid, &queen_moves);

    let grid = HexGrid::from_dsl(" . . . . . . .\n. . a a . . .\n . a . a . . .\n. a . . Q . .\n . . . . . . .\n. . . . . . .\n\nstart - [0 0]\n\n");
    let selector = " . . . . . . .\n. . a a . . .\n . a . a * . .\n. a . * Q . .\n . . . . . . .\n. . . . . . .\n\nstart - [0 0]\n\n";
    let generator = MoveGeneratorDebugger::from_grid(&grid);
    let (queen, _) = grid.find(Piece::new(PieceType::Queen, PieceColor::White)).unwrap();
    let queen_moves = generator.queen_moves(queen);
    compare_moves(queen, selector, &grid, &queen_moves);

    let grid = HexGrid::from_dsl(" . . . . . . .\n. . a a . . .\n . a . a . . .\n. a . Q . . .\n . a a . . . .\n. . . . . . .\n\nstart - [0 0]\n\n");
    let selector = " . . . . . . .\n. . a a . . .\n . a * a . . .\n. a * Q * . .\n . a a * . . .\n. . . . . . .\n\nstart - [0 0]\n\n";
    let generator = MoveGeneratorDebugger::from_grid(&grid);
    let (queen, _) = grid.find(Piece::new(PieceType::Queen, PieceColor::White)).unwrap();
    let queen_moves = generator.queen_moves(queen);
    compare_moves(queen, selector, &grid, &queen_moves);
}

#[test]
fn test_ant_moves() {
    let grid = HexGrid::from_dsl(" . . . . . . . . .\n. . . g g g . . .\n . . g . . g g . .\n. . . . . g . g .\n . . g g g . g . .\n. . . . A . . . .\n . . . . . . . . .\n. . . . . . . . .\n\nstart - [0 0]\n\n");
    let selector = " . . * * * * . . .\n. . * g g g * * .\n . * g . . g g * .\n. . * . . g . g *\n . * g g g * g * .\n. . * * A * * * .\n . . . . . . . . .\n. . . . . . . . .\n\nstart - [0 0]\n\n";
    let generator = MoveGeneratorDebugger::from_grid(&grid);
    let (ant, _) = grid.find(Piece::new(PieceType::Ant, PieceColor::White)).unwrap();
    let ant_moves = generator.ant_moves(ant);
    compare_moves(ant, selector, &grid, &ant_moves);
}

#[test]
fn test_ant_pinned() {
    let grid = HexGrid::from_dsl(" . . . . . . . . .\n. . . g g g . . .\n . . g . . g g . .\n. . . . . g . g .\n . . g A g . g . .\n. . . . . . . . .\n . . . . . . . . .\n. . . . . . . . .\n\nstart - [0 0]\n\n");
    let generator = MoveGeneratorDebugger::from_grid(&grid);
    let (ant, _) = grid.find(Piece::new(PieceType::Ant, PieceColor::White)).unwrap();
    let ant_moves = generator.ant_moves(ant);
    assert!(ant_moves.is_empty());
}
