//! Concrete checks of the board-game laws and of the edge cases of the
//! storage layer.

use hive_engine::hex_grid::Direction;
use hive_engine::hex_grid::HexGrid;
use hive_engine::hex_grid::HexLocation;
use hive_engine::hex_grid::Piece;
use hive_engine::hex_grid::PieceColor;
use hive_engine::hex_grid::PieceType;
use hive_engine::move_generator::MoveGeneratorDebugger;

fn white(t: PieceType) -> Piece {
    Piece::new(t, PieceColor::White)
}

fn black(t: PieceType) -> Piece {
    Piece::new(t, PieceColor::Black)
}

/// Where the single moved piece of kind `t` ended up on a result board.
fn destination_of(board: &HexGrid, t: PieceType, color: PieceColor) -> HexLocation {
    let (loc, _) = board.find(Piece::new(t, color)).unwrap();
    loc
}

#[test]
fn test_round_trip_formatter_parser() {
    // A board with two stacks and several single pieces; the formatter's
    // own output must parse back to a board that formats identically.
    let mut grid = HexGrid::new();
    let origin = HexLocation::new(0, 0);
    let east = origin.apply(Direction::E);
    let se = origin.apply(Direction::SE);
    let west = origin.apply(Direction::W);
    grid.add(white(PieceType::Queen), origin);
    grid.add(black(PieceType::Beetle), origin);
    grid.add(white(PieceType::Ant), east);
    grid.add(black(PieceType::Grasshopper), se);
    grid.add(white(PieceType::Spider), west);
    grid.add(black(PieceType::Mosquito), west);
    grid.add(white(PieceType::Ladybug), west);

    let first = grid.to_dsl();
    let reparsed = HexGrid::from_dsl(first.as_str());
    let second = reparsed.to_dsl();
    assert_eq!(first, second);
}

#[test]
fn test_round_trip_empty_and_single() {
    let empty = HexGrid::new();
    let text = empty.to_dsl();
    let back = HexGrid::from_dsl(text.as_str());
    assert_eq!(text, back.to_dsl());

    let mut one = HexGrid::new();
    one.add(white(PieceType::Pillbug), HexLocation::new(3, -4));
    let text = one.to_dsl();
    let back = HexGrid::from_dsl(text.as_str());
    assert_eq!(text, back.to_dsl());
    assert_eq!(one, back);
}

#[test]
fn test_gate_symmetry_concrete() {
    // Edge origin->E flanked by NE and SE. Both flanks occupied: the edge
    // is a gate and the east cell is excluded; with one flank free it is
    // included.
    let origin = HexLocation::new(0, 0);
    let east = origin.apply(Direction::E);
    let ne = origin.apply(Direction::NE);
    let se = origin.apply(Direction::SE);

    let mut gated = HexGrid::new();
    gated.add(white(PieceType::Queen), origin);
    gated.add(black(PieceType::Ant), ne);
    gated.add(black(PieceType::Ant), se);
    let slides = gated.slidable(origin);
    assert!(!slides.contains(&east));

    let mut open = HexGrid::new();
    open.add(white(PieceType::Queen), origin);
    open.add(black(PieceType::Ant), ne);
    let slides = open.slidable(origin);
    assert!(slides.contains(&east));

    // The primitive is purely local: with both flanks free the step is
    // still open; hive contact is the per-piece algorithms' business.
    let mut lone = HexGrid::new();
    lone.add(white(PieceType::Queen), origin);
    let slides = lone.slidable(origin);
    assert!(slides.contains(&east));
}

#[test]
fn test_queen_slides_through_open_edge() {
    // A queen may slide through an edge whose two flanking cells are
    // both free, as long as the destination still touches the hive: the
    // gate rule forbids only edges with both flanks occupied.
    let mut grid = HexGrid::new();
    let queen_loc = HexLocation::new(0, 0);
    grid.add(white(PieceType::Queen), queen_loc);
    grid.add(black(PieceType::Ant), HexLocation::new(0, -1));
    grid.add(black(PieceType::Ant), HexLocation::new(1, -2));
    grid.add(black(PieceType::Ant), HexLocation::new(2, -2));
    grid.add(black(PieceType::Ant), HexLocation::new(2, -1));
    assert!(grid.is_connected());

    let generator = MoveGeneratorDebugger::from_grid(&grid);
    let moves = generator.queen_moves(queen_loc);
    let dests: Vec<HexLocation> = moves
        .iter()
        .map(|b| destination_of(b, PieceType::Queen, PieceColor::White))
        .collect();
    // The edge towards (1, 0) has both flanking cells free; (1, 0)
    // touches the hive at (2, -1).
    assert!(dests.contains(&HexLocation::new(1, 0)));
    for board in moves.iter() {
        assert!(board.is_connected());
    }
}

#[test]
fn test_spider_moves_keep_connectivity() {
    // Spider slides keep contact through an occupied flanking cell, so
    // every resulting board is still one connected cluster.
    let board = " . . . . . . .\n. . a a . . .\n . a . a . . .\n. a . . S . .\n . . . . . . .\n. . . . . . .\n\nstart - [0 0]\n\n";
    let grid = HexGrid::from_dsl(board);
    let generator = MoveGeneratorDebugger::from_grid(&grid);
    let (spider, _) = grid.find(white(PieceType::Spider)).unwrap();
    let moves = generator.spider_moves(spider);
    assert!(!moves.is_empty());
    for b in moves.iter() {
        assert!(b.is_connected());
    }
}

#[test]
fn test_grasshopper_exact_landing() {
    // A straight line of exactly two occupied cells east of the
    // grasshopper: the only landing in that direction is the third cell.
    let grid = HexGrid::from_dsl(grasshopper_line_board());
    let generator = MoveGeneratorDebugger::from_grid(&grid);
    let (gh, _) = grid.find(white(PieceType::Grasshopper)).unwrap();
    let moves = generator.grasshopper_moves(gh);
    assert_eq!(moves.len(), 1);
    let dest = destination_of(&moves[0], PieceType::Grasshopper, PieceColor::White);
    assert_eq!(dest, gh.apply(Direction::E).apply(Direction::E).apply(Direction::E));
}

fn grasshopper_line_board() -> &'static str {
    ". . . . .\n . G a a .\n. . . . .\n\nstart - [0 0]\n\n"
}

#[test]
fn test_ant_single_slide_matches_queen() {
    // The ant's destinations reachable in one slide equal the queen's
    // destinations on the same board shape.
    let board = " . . . . . . .\n. . a a . . .\n . a . a . . .\n. a . . Q . .\n . . . . . . .\n. . . . . . .\n\nstart - [0 0]\n\n";
    let queen_grid = HexGrid::from_dsl(board);
    let generator = MoveGeneratorDebugger::from_grid(&queen_grid);
    let (queen, _) = queen_grid.find(white(PieceType::Queen)).unwrap();
    let queen_moves = generator.queen_moves(queen);

    let ant_board = " . . . . . . .\n. . a a . . .\n . a . a . . .\n. a . . A . .\n . . . . . . .\n. . . . . . .\n\nstart - [0 0]\n\n";
    let ant_grid = HexGrid::from_dsl(ant_board);
    let generator = MoveGeneratorDebugger::from_grid(&ant_grid);
    let (ant, _) = ant_grid.find(white(PieceType::Ant)).unwrap();
    let ant_moves = generator.ant_moves(ant);

    // Every queen destination must also be an ant destination.
    let ant_dests: Vec<HexLocation> = ant_moves
        .iter()
        .map(|b| destination_of(b, PieceType::Ant, PieceColor::White))
        .collect();
    for board in queen_moves.iter() {
        let dest = destination_of(board, PieceType::Queen, PieceColor::White);
        assert!(ant_dests.contains(&dest));
    }
    assert!(queen_moves.len() <= ant_moves.len());
    assert_eq!(queen_moves.len(), 2);
}

#[test]
fn test_isolated_ant_beside_stack() {
    // A three-tall stack of queens, and an ant two cells away touching
    // nothing: the position breaks the connectivity rule, and the moves
    // the generator still produces put the ant only on perimeter cells
    // of the stack, never on isolated ground.
    let mut grid = HexGrid::new();
    let stack = HexLocation::new(0, 0);
    grid.add(white(PieceType::Queen), stack);
    grid.add(white(PieceType::Queen), stack);
    grid.add(white(PieceType::Queen), stack);
    let ant_loc = HexLocation::new(2, 0);
    grid.add(black(PieceType::Ant), ant_loc);
    assert!(!grid.is_connected());

    let generator = MoveGeneratorDebugger::from_grid(&grid);
    let moves = generator.ant_moves(ant_loc);
    let perimeter = grid.neighbors_of(stack);
    assert_eq!(moves.len(), 6);
    for board in moves.iter() {
        let dest = destination_of(board, PieceType::Ant, PieceColor::Black);
        assert!(perimeter.contains(&dest));
        assert!(board.is_connected());
    }
}

#[test]
fn test_remove_empty_cell_yields_none() {
    let mut grid = HexGrid::new();
    assert_eq!(grid.remove(HexLocation::new(4, 4)), None);
    // Out of the bounded storage region: defined empty results.
    assert_eq!(grid.remove(HexLocation::new(120, 120)), None);
    assert_eq!(grid.peek(HexLocation::new(120, 120)), vec![]);
}

#[test]
fn test_capacity_overflow_rejected() {
    let mut grid = HexGrid::new();
    let loc = HexLocation::new(0, 0);
    // The stack is bounded: placements beyond the maximum height are
    // rejected detectably and leave the board unchanged.
    for k in 0..9 {
        let placed = grid.add(white(PieceType::Beetle), loc);
        assert_eq!(placed, k < 7);
    }
    assert_eq!(grid.peek(loc).len(), 7);
    // Out of the bounded storage region the placement is rejected too.
    assert!(!grid.add(white(PieceType::Beetle), HexLocation::new(120, 120)));
}

#[test]
fn test_stack_drains_bottom_up() {
    let mut grid = HexGrid::new();
    let loc = HexLocation::new(1, 1);
    grid.add(white(PieceType::Queen), loc);
    grid.add(black(PieceType::Beetle), loc);
    assert_eq!(grid.peek(loc), vec![white(PieceType::Queen), black(PieceType::Beetle)]);
    assert_eq!(grid.remove(loc), Some(white(PieceType::Queen)));
    assert_eq!(grid.peek(loc), vec![black(PieceType::Beetle)]);
}

#[test]
fn test_move_piece_and_find() {
    let mut grid = HexGrid::new();
    let a = HexLocation::new(0, 0);
    let b = HexLocation::new(1, 0);
    grid.add(white(PieceType::Spider), a);
    grid.move_piece(a, b);
    assert_eq!(grid.peek(a).len(), 0);
    assert_eq!(grid.peek(b), vec![white(PieceType::Spider)]);
    let (found, height) = grid.find(white(PieceType::Spider)).unwrap();
    assert_eq!(found, b);
    assert_eq!(height, 0);
    assert!(grid.find(black(PieceType::Spider)).is_none());
}

#[test]
fn test_connectivity_and_pinning() {
    let mut grid = HexGrid::new();
    assert!(grid.is_connected());
    let a = HexLocation::new(0, 0);
    let b = a.apply(Direction::E);
    let c = b.apply(Direction::E);
    grid.add(white(PieceType::Queen), a);
    assert!(grid.is_connected());
    grid.add(black(PieceType::Ant), c);
    assert!(!grid.is_connected());
    grid.add(black(PieceType::Spider), b);
    assert!(grid.is_connected());
    // The middle cell is the only articulation point.
    let pinned = grid.pinned();
    assert_eq!(pinned, vec![b]);
}

#[test]
fn test_outside_perimeter() {
    let mut grid = HexGrid::new();
    assert!(grid.outside().is_empty());
    let origin = HexLocation::new(0, 0);
    grid.add(white(PieceType::Queen), origin);
    let outside = grid.outside();
    assert_eq!(outside.len(), 6);
    let neighbors = grid.neighbors_of(origin);
    for n in neighbors.iter() {
        assert!(outside.contains(n));
    }
}

#[test]
fn test_piece_letter_codes() {
    assert_eq!(PieceType::Queen.to_str(), "Q");
    assert_eq!(PieceType::Mosquito.to_str(), "M");
    assert_eq!(white(PieceType::Ladybug).to_str(), "L");
    assert_eq!(black(PieceType::Ladybug).to_str(), "l");
    assert_eq!(black(PieceType::Grasshopper).to_str(), "g");
}

#[test]
fn test_selector_reads_marks() {
    let sel = ". * .\n * Q *\n. . .\n\nstart - [0 0]\n\n";
    let marks = HexGrid::selector(sel);
    assert_eq!(marks.len(), 3);
    assert!(marks.contains(&HexLocation::new(1, 0)));
}
