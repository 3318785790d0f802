//! The textual board description: a diagram of rows in an offset
//! ("odd-row") hex layout, a start-anchor line giving the axial coordinate
//! of the top-left rendered cell, and one line per stacked cell listing
//! its occupants bottom-to-top.

use vstd::prelude::*;
use vstd::string::StrSliceExecFns;
use vstd::string::StringExecFns;

use crate::hex_grid::HexGrid;
use crate::hex_grid::HexLocation;
use crate::hex_grid::Piece;
use crate::hex_grid::PieceColor;
use crate::hex_grid::PieceType;

verus! {

/// The grid centre used by the renderer: cell (0, 0) renders in the
/// middle of the bounded storage region.
pub const RENDER_CENTER: i32 = 30;

const BYTE_NEWLINE: u8 = 10;
const BYTE_SPACE: u8 = 32;
const BYTE_STAR: u8 = 42;
const BYTE_MINUS: u8 = 45;
const BYTE_ZERO: u8 = 48;
const BYTE_NINE: u8 = 57;
const BYTE_LBRACKET: u8 = 91;

/// The decimal digit character of `n`.
pub open spec fn digit_char(n: int) -> char {
    if n == 0 {
        '0'
    } else if n == 1 {
        '1'
    } else if n == 2 {
        '2'
    } else if n == 3 {
        '3'
    } else if n == 4 {
        '4'
    } else if n == 5 {
        '5'
    } else if n == 6 {
        '6'
    } else if n == 7 {
        '7'
    } else if n == 8 {
        '8'
    } else {
        '9'
    }
}

/// The decimal text of a small non-negative number, without leading
/// zeroes.
pub open spec fn nat_text(n: int) -> Seq<char> {
    if n >= 100 {
        seq![digit_char(n / 100), digit_char((n % 100) / 10), digit_char(n % 10)]
    } else if n >= 10 {
        seq![digit_char(n / 10), digit_char(n % 10)]
    } else {
        seq![digit_char(n)]
    }
}

/// The decimal text of a small signed number.
pub open spec fn int_text(n: int) -> Seq<char> {
    if n < 0 {
        seq!['-'] + nat_text(-n)
    } else {
        nat_text(n)
    }
}

fn digit_str(n: usize) -> (r: &'static str)
    requires
        n <= 9,
    ensures
        r@ =~= seq![digit_char(n as int)],
{
    proof {
        reveal_strlit("0");
        reveal_strlit("1");
        reveal_strlit("2");
        reveal_strlit("3");
        reveal_strlit("4");
        reveal_strlit("5");
        reveal_strlit("6");
        reveal_strlit("7");
        reveal_strlit("8");
        reveal_strlit("9");
    }
    match n {
        0 => "0",
        1 => "1",
        2 => "2",
        3 => "3",
        4 => "4",
        5 => "5",
        6 => "6",
        7 => "7",
        8 => "8",
        _ => "9",
    }
}

fn push_i32(out: &mut String, n: i32)
    requires
        -1000 < n < 1000,
    ensures
        final(out)@ == old(out)@ + int_text(n as int),
{
    proof {
        reveal_strlit("-");
    }
    let ghost base = out@;
    let mut v: usize = if n < 0 {
        out.append("-");
        (-n) as usize
    } else {
        n as usize
    };
    if v >= 100 {
        out.append(digit_str(v / 100));
        let d2 = v % 100;
        v = d2;
        out.append(digit_str(v / 10));
        out.append(digit_str(v % 10));
    } else if v >= 10 {
        out.append(digit_str(v / 10));
        out.append(digit_str(v % 10));
    } else {
        out.append(digit_str(v));
    }
    proof {
        assert(out@ =~= base + int_text(n as int));
    }
}

fn piece_from_byte(c: u8) -> (r: Option<Piece>)
{
    match c as char {
        'Q' => Some(Piece { piece: PieceType::Queen, color: PieceColor::White }),
        'G' => Some(Piece { piece: PieceType::Grasshopper, color: PieceColor::White }),
        'S' => Some(Piece { piece: PieceType::Spider, color: PieceColor::White }),
        'B' => Some(Piece { piece: PieceType::Beetle, color: PieceColor::White }),
        'A' => Some(Piece { piece: PieceType::Ant, color: PieceColor::White }),
        'P' => Some(Piece { piece: PieceType::Pillbug, color: PieceColor::White }),
        'L' => Some(Piece { piece: PieceType::Ladybug, color: PieceColor::White }),
        'M' => Some(Piece { piece: PieceType::Mosquito, color: PieceColor::White }),
        'q' => Some(Piece { piece: PieceType::Queen, color: PieceColor::Black }),
        'g' => Some(Piece { piece: PieceType::Grasshopper, color: PieceColor::Black }),
        's' => Some(Piece { piece: PieceType::Spider, color: PieceColor::Black }),
        'b' => Some(Piece { piece: PieceType::Beetle, color: PieceColor::Black }),
        'a' => Some(Piece { piece: PieceType::Ant, color: PieceColor::Black }),
        'p' => Some(Piece { piece: PieceType::Pillbug, color: PieceColor::Black }),
        'l' => Some(Piece { piece: PieceType::Ladybug, color: PieceColor::Black }),
        'm' => Some(Piece { piece: PieceType::Mosquito, color: PieceColor::Black }),
        _ => None,
    }
}

fn line_has_bracket(line: &Vec<u8>) -> (r: bool)
{
    let mut i: usize = 0;
    while i < line.len()
        decreases line@.len() - i,
    {
        if line[i] == BYTE_LBRACKET {
            return true;
        }
        i = i + 1;
    }
    false
}

fn split_lines(bytes: &Vec<u8>) -> (r: Vec<Vec<u8>>)
{
    let mut lines: Vec<Vec<u8>> = Vec::new();
    let mut cur: Vec<u8> = Vec::new();
    let mut i: usize = 0;
    while i < bytes.len()
        decreases bytes@.len() - i,
    {
        if bytes[i] == BYTE_NEWLINE {
            lines.push(cur);
            cur = Vec::new();
        } else {
            cur.push(bytes[i]);
        }
        i = i + 1;
    }
    lines.push(cur);
    lines
}

/// Every signed integer occurring in the line, in order, clamped to a
/// generous magnitude so later coordinate arithmetic cannot overflow.
fn parse_ints(line: &Vec<u8>) -> (r: Vec<i64>)
    ensures
        forall|j: int| 0 <= j < r@.len() ==> -1000000 <= #[trigger] r@[j] <= 1000000,
{
    let mut r: Vec<i64> = Vec::new();
    let mut i: usize = 0;
    let mut val: i64 = 0;
    let mut in_num: bool = false;
    let mut neg: bool = false;
    while i < line.len()
        invariant
            0 <= val <= 1000000,
            forall|j: int| 0 <= j < r@.len() ==> -1000000 <= #[trigger] r@[j] <= 1000000,
        decreases line@.len() - i,
    {
        let c = line[i];
        if c >= BYTE_ZERO && c <= BYTE_NINE {
            if !in_num {
                in_num = true;
                neg = i > 0 && line[i - 1] == BYTE_MINUS;
                val = 0;
            }
            let d: i64 = (c - BYTE_ZERO) as i64;
            val = val * 10 + d;
            if val > 1000000 {
                val = 1000000;
            }
        } else {
            if in_num {
                r.push(if neg { -val } else { val });
                in_num = false;
            }
        }
        i = i + 1;
    }
    if in_num {
        r.push(if neg { -val } else { val });
    }
    r
}

/// The rendered (odd-row offset) row of a cell.
pub open spec fn render_row_of(l: HexLocation) -> int {
    l.y + RENDER_CENTER
}

/// The rendered (odd-row offset) column of a cell.
pub open spec fn render_col_of(l: HexLocation) -> int {
    let row = l.y + RENDER_CENTER;
    l.x + RENDER_CENTER + (row - row % 2) / 2
}

/// `top` and `left` are the row and column minima of the rendered
/// bounding box of `g`'s occupied cells, as `bounds` computes them: lower
/// bounds on every occupied cell, attained (the column minimum possibly
/// clamped at the grid side length), and both 60 on an empty board.
pub open spec fn min_render_bounds(g: HexGrid, top: int, left: int) -> bool {
    &&& forall|l: HexLocation|
        #[trigger] g.occ(l) ==> top <= render_row_of(l) && left <= render_col_of(l)
    &&& (exists|l: HexLocation| #[trigger] g.occ(l)) ==> (exists|l: HexLocation|
        #[trigger] g.occ(l) && render_row_of(l) == top) && ((left < 60 && exists|l: HexLocation|
        #[trigger] g.occ(l) && render_col_of(l) == left) || (left == 60 && forall|l: HexLocation|
        #[trigger] g.occ(l) ==> 60 <= render_col_of(l)))
    &&& (forall|l: HexLocation| !(#[trigger] g.occ(l))) ==> top == 60 && left == 60
    &&& 0 <= top <= 60
    &&& 0 <= left <= 95
}

/// The anchor line written for a bounding box whose row and column
/// minima are `top` and `left`: `start - [ <x>, <y> ]` for the axial
/// coordinate of the top-left padded cell of the diagram.
pub open spec fn anchor_text(top: int, left: int) -> Seq<char> {
    let row = top - 1;
    let q = (left - 1) - (row - row % 2) / 2;
    let x = q - RENDER_CENTER;
    let y = row - RENDER_CENTER;
    "start - [ "@ + int_text(x) + ", "@ + int_text(y) + " ]"@
}

/// The full rendered bounding box of `g`'s occupied cells: `minr`/`minc`
/// and `maxr`/`maxc` bound every occupied cell and are attained (the
/// column minimum possibly clamped at the grid side length); an empty
/// board has the inverted box.
pub open spec fn render_bounds(g: HexGrid, minr: int, minc: int, maxr: int, maxc: int) -> bool {
    &&& min_render_bounds(g, minr, minc)
    &&& forall|l: HexLocation|
        #[trigger] g.occ(l) ==> render_row_of(l) <= maxr && render_col_of(l) <= maxc
    &&& (exists|l: HexLocation| #[trigger] g.occ(l)) ==> (exists|l: HexLocation|
        #[trigger] g.occ(l) && render_row_of(l) == maxr) && (exists|l: HexLocation|
        #[trigger] g.occ(l) && render_col_of(l) == maxc)
    &&& (forall|l: HexLocation| !(#[trigger] g.occ(l))) ==> maxr == 0 && maxc == 0
    &&& 0 <= maxr <= 60
    &&& 0 <= maxc <= 95
}

/// The rendered bounding-box minima are uniquely determined by the
/// board.
pub proof fn lemma_min_render_bounds_unique(
    g: HexGrid,
    top: int,
    left: int,
    top2: int,
    left2: int,
)
    requires
        min_render_bounds(g, top, left),
        min_render_bounds(g, top2, left2),
    ensures
        top == top2,
        left == left2,
{
    if exists|l: HexLocation| #[trigger] g.occ(l) {
        let lt = choose|l: HexLocation| #[trigger] g.occ(l) && render_row_of(l) == top;
        let lt2 = choose|l: HexLocation| #[trigger] g.occ(l) && render_row_of(l) == top2;
        assert(top <= render_row_of(lt2) && top2 <= render_row_of(lt));
        if left < 60 && left2 < 60 {
            let lc = choose|l: HexLocation| #[trigger] g.occ(l) && render_col_of(l) == left;
            let lc2 = choose|l: HexLocation| #[trigger] g.occ(l) && render_col_of(l) == left2;
            assert(left <= render_col_of(lc2) && left2 <= render_col_of(lc));
        } else if left < 60 {
            let lc = choose|l: HexLocation| #[trigger] g.occ(l) && render_col_of(l) == left;
            assert(60 <= render_col_of(lc));
        } else if left2 < 60 {
            let lc2 = choose|l: HexLocation| #[trigger] g.occ(l) && render_col_of(l) == left2;
            assert(60 <= render_col_of(lc2));
        }
    }
}

/// The whole rendered bounding box is uniquely determined by the board.
pub proof fn lemma_render_bounds_unique(
    g: HexGrid,
    minr: int,
    minc: int,
    maxr: int,
    maxc: int,
    minr2: int,
    minc2: int,
    maxr2: int,
    maxc2: int,
)
    requires
        render_bounds(g, minr, minc, maxr, maxc),
        render_bounds(g, minr2, minc2, maxr2, maxc2),
    ensures
        minr == minr2,
        minc == minc2,
        maxr == maxr2,
        maxc == maxc2,
{
    lemma_min_render_bounds_unique(g, minr, minc, minr2, minc2);
    if exists|l: HexLocation| #[trigger] g.occ(l) {
        let lr = choose|l: HexLocation| #[trigger] g.occ(l) && render_row_of(l) == maxr;
        let lr2 = choose|l: HexLocation| #[trigger] g.occ(l) && render_row_of(l) == maxr2;
        assert(render_row_of(lr) <= maxr2 && render_row_of(lr2) <= maxr);
        let lc = choose|l: HexLocation| #[trigger] g.occ(l) && render_col_of(l) == maxc;
        let lc2 = choose|l: HexLocation| #[trigger] g.occ(l) && render_col_of(l) == maxc2;
        assert(render_col_of(lc) <= maxc2 && render_col_of(lc2) <= maxc);
    }
}

/// The pieces of the cell rendered at `(row, col)`; empty when the cell
/// lies beyond the coordinate type.
pub open spec fn cell_pieces(g: HexGrid, row: int, col: int) -> Seq<Piece> {
    let q = col - (row - row % 2) / 2;
    let x = q - RENDER_CENTER;
    let y = row - RENDER_CENTER;
    if -128 <= x <= 127 && -128 <= y <= 127 {
        g.pieces_at(HexLocation { x: x as i8, y: y as i8 })
    } else {
        Seq::empty()
    }
}

/// The one-character token of the cell rendered at `(row, col)`: a dot
/// when empty, the piece's letter when single, the stack height when
/// more.
pub open spec fn cell_text(g: HexGrid, row: int, col: int) -> Seq<char> {
    let ps = cell_pieces(g, row, col);
    if ps.len() == 0 {
        seq!['.']
    } else if ps.len() == 1 {
        seq![crate::hex_grid::piece_letter(ps[0])]
    } else {
        seq![digit_char(if ps.len() <= 9 {
            ps.len() as int
        } else {
            9
        })]
    }
}

/// One rendered row from `col` to `right`: space-separated cell tokens,
/// newline-terminated.
pub open spec fn row_text(g: HexGrid, row: int, col: int, right: int) -> Seq<char>
    decreases right + 1 - col,
{
    if col > right {
        seq!['\n']
    } else {
        cell_text(g, row, col) + (if col < right {
            seq![' ']
        } else {
            Seq::<char>::empty()
        }) + row_text(g, row, col + 1, right)
    }
}

/// The rendered rows from `row` to `bottom`, odd rows indented by one
/// space.
pub open spec fn rows_text(g: HexGrid, row: int, bottom: int, left: int, right: int) -> Seq<char>
    decreases bottom + 1 - row,
{
    if row > bottom {
        Seq::empty()
    } else {
        (if 0 <= row && row % 2 == 1 {
            seq![' ']
        } else {
            Seq::<char>::empty()
        }) + row_text(g, row, left, right) + rows_text(g, row + 1, bottom, left, right)
    }
}

/// The letters of a stack, bottom-to-top, each followed by one space.
pub open spec fn stack_letters(ps: Seq<Piece>, k: int) -> Seq<char>
    decreases ps.len() - k,
{
    if 0 <= k < ps.len() {
        seq![crate::hex_grid::piece_letter(ps[k]), ' '] + stack_letters(ps, k + 1)
    } else {
        Seq::empty()
    }
}

/// The stacks-section line of the cell rendered at `(row, col)`: empty
/// unless the cell holds at least two pieces.
pub open spec fn stack_line(g: HexGrid, row: int, col: int) -> Seq<char> {
    let ps = cell_pieces(g, row, col);
    if ps.len() > 1 {
        seq![digit_char(if ps.len() <= 9 {
            ps.len() as int
        } else {
            9
        })] + " - [ "@ + stack_letters(ps, 0) + "]\n"@
    } else {
        Seq::empty()
    }
}

/// The stacks-section lines of one rendered row, from `col` to `right`.
pub open spec fn stacks_cols_text(g: HexGrid, row: int, col: int, right: int) -> Seq<char>
    decreases right + 1 - col,
{
    if col > right {
        Seq::empty()
    } else {
        stack_line(g, row, col) + stacks_cols_text(g, row, col + 1, right)
    }
}

/// The whole stacks section, rows `row` to `bottom` in rendering order.
pub open spec fn stacks_text(g: HexGrid, row: int, bottom: int, left: int, right: int) -> Seq<
    char,
>
    decreases bottom + 1 - row,
{
    if row > bottom {
        Seq::empty()
    } else {
        stacks_cols_text(g, row, left, right) + stacks_text(g, row + 1, bottom, left, right)
    }
}

/// One parsed cell of a diagram: its axial coordinate and the token
/// standing there (a piece letter, a stack-height digit, or a selector
/// mark).
enum CellToken {
    Single(Piece),
    Stack(usize),
    Mark,
}

fn parse_board_block(
    lines: &Vec<Vec<u8>>,
    block_len: usize,
    q0: i64,
    r0: i64,
) -> (r: Vec<(HexLocation, CellToken)>)
    requires
        block_len <= lines@.len(),
        -1000000 <= q0 <= 1000000,
        -1000000 <= r0 <= 1000000,
    ensures
        forall|j: int|
            0 <= j < r@.len() ==> crate::hex_grid::in_range((#[trigger] r@[j]).0),
{
    let mut cells: Vec<(HexLocation, CellToken)> = Vec::new();
    let mut shift: i64 = 0;
    let mut prev_indent: bool = false;
    let mut i: usize = 0;
    while i < block_len && i < 200
        invariant
            block_len <= lines@.len(),
            -1000000 <= q0 <= 1000000,
            -1000000 <= r0 <= 1000000,
            0 <= shift <= 200,
            i <= 200,
            forall|j: int|
                0 <= j < cells@.len() ==> crate::hex_grid::in_range((#[trigger] cells@[j]).0),
        decreases block_len - i,
    {
        let line = &lines[i];
        let indent = line.len() > 0 && line[0] == BYTE_SPACE;
        if i > 0 && prev_indent && !indent && shift < 200 {
            shift = shift + 1;
        }
        let rr: i64 = r0 + (i as i64);
        let mut j: usize = 0;
        let mut p: usize = 0;
        while p < line.len()
            invariant
                block_len <= lines@.len(),
                -1000000 <= q0 <= 1000000,
                -1000000 <= r0 <= 1000000,
                0 <= shift <= 200,
                i <= 200,
                rr == r0 + i,
                j <= p,
                forall|k: int|
                    0 <= k < cells@.len() ==> crate::hex_grid::in_range((#[trigger] cells@[k]).0),
            decreases line@.len() - p,
        {
            let c = line[p];
            if c != BYTE_SPACE {
                if j < 200 {
                    let qq: i64 = q0 - shift + (j as i64);
                    if qq >= -30 && qq < 30 && rr >= -30 && rr < 30 {
                        let loc = HexLocation::new(qq as i8, rr as i8);
                        match piece_from_byte(c) {
                            Some(piece) => {
                                cells.push((loc, CellToken::Single(piece)));
                            },
                            None => {
                                if c == BYTE_STAR {
                                    cells.push((loc, CellToken::Mark));
                                } else if c >= BYTE_ZERO && c <= BYTE_NINE {
                                    cells.push((loc, CellToken::Stack((c - BYTE_ZERO) as usize)));
                                }
                            },
                        }
                    }
                }
                j = j + 1;
            }
            p = p + 1;
        }
        prev_indent = indent;
        i = i + 1;
    }
    cells
}

impl HexGrid {
    fn oddr_to_axial(row: i32, col: i32) -> (r: (i32, i32))
        requires
            -10 <= row <= 100,
            -10 <= col <= 200,
        ensures
            -100 <= r.0 <= 250,
            r.0 == col - (row - row % 2) / 2,
            r.1 == row,
    {
        let par: i32 = if row % 2 < 0 {
            row % 2 + 2
        } else {
            row % 2
        };
        let q = col - (row - par) / 2;
        proof {
            assert(q == col - (row - row % 2) / 2);
        }
        (q, row)
    }

    /// The bounding box of the occupied cells in rendered (odd-row)
    /// coordinates: the row and column extremes every occupied cell lies
    /// within, each attained by some occupied cell — except that the
    /// column minimum is clamped above at the grid side length, and an
    /// empty board yields the inverted box `((60, 60), (0, 0))`.
    fn bounds(&self) -> (r: ((i32, i32), (i32, i32)))
        requires
            self.wf(),
        ensures
            0 <= r.0.0 <= 60,
            0 <= r.0.1 <= 95,
            0 <= r.1.0 <= 60,
            0 <= r.1.1 <= 95,
            forall|l: HexLocation|
                #[trigger] self.occ(l) ==> r.0.0 <= render_row_of(l) <= r.1.0 && r.0.1
                    <= render_col_of(l) <= r.1.1,
            (exists|l: HexLocation| #[trigger] self.occ(l)) ==> {
                &&& exists|l: HexLocation| #[trigger] self.occ(l) && render_row_of(l) == r.0.0
                &&& exists|l: HexLocation| #[trigger] self.occ(l) && render_row_of(l) == r.1.0
                &&& exists|l: HexLocation| #[trigger] self.occ(l) && render_col_of(l) == r.1.1
                &&& (r.0.1 < 60 && exists|l: HexLocation|
                    #[trigger] self.occ(l) && render_col_of(l) == r.0.1) || (r.0.1 == 60
                    && forall|l: HexLocation|
                    #[trigger] self.occ(l) ==> 60 <= render_col_of(l))
            },
            (forall|l: HexLocation| !(#[trigger] self.occ(l))) ==> r == ((60i32, 60i32), (
            0i32,
            0i32,
            )),
    {
        let mut min_row: i32 = 60;
        let mut min_col: i32 = 60;
        let mut max_row: i32 = 0;
        let mut max_col: i32 = 0;
        let locs = self.occupied_locations();
        let mut i: usize = 0;
        while i < locs.len()
            invariant
                self.wf(),
                i <= locs@.len(),
                0 <= min_row <= 60,
                0 <= min_col <= 60,
                0 <= max_row <= 60,
                0 <= max_col <= 95,
                locs@.no_duplicates(),
                forall|l: HexLocation| #[trigger] locs@.contains(l) <==> self.occ(l),
                forall|l: HexLocation| #[trigger] locs@.contains(l) ==> crate::hex_grid::in_range(
                    l,
                ),
                forall|j: int|
                    0 <= j < i ==> min_row <= render_row_of(#[trigger] locs@[j]) <= max_row
                        && min_col <= render_col_of(locs@[j]) <= max_col,
                i == 0 ==> min_row == 60 && min_col == 60 && max_row == 0 && max_col == 0,
                i > 0 ==> (exists|j: int|
                    0 <= j < i && render_row_of(#[trigger] locs@[j]) == min_row),
                i > 0 ==> (exists|j: int|
                    0 <= j < i && render_row_of(#[trigger] locs@[j]) == max_row),
                i > 0 ==> (exists|j: int|
                    0 <= j < i && render_col_of(#[trigger] locs@[j]) == max_col),
                i > 0 ==> (exists|j: int|
                    0 <= j < i && render_col_of(#[trigger] locs@[j]) == min_col) || min_col == 60,
            decreases locs@.len() - i,
        {
            proof {
                assert(locs@.contains(locs@[i as int]));
            }
            let l = locs[i];
            let row: i32 = (l.y as i32) + RENDER_CENTER;
            let par: i32 = if row % 2 < 0 {
                row % 2 + 2
            } else {
                row % 2
            };
            let col: i32 = ((l.x as i32) + RENDER_CENTER) + (row - par) / 2;
            proof {
                assert(row == render_row_of(l));
                assert(col == render_col_of(l));
            }
            let ghost old_mins = (min_row, min_col, max_row, max_col);
            if row < min_row {
                min_row = row;
            }
            if col < min_col {
                min_col = col;
            }
            if row > max_row {
                max_row = row;
            }
            if col > max_col {
                max_col = col;
            }
            proof {
                assert(render_row_of(locs@[i as int]) == row);
                assert(render_col_of(locs@[i as int]) == col);
                if i == 0 {
                    assert(row < 60 && row >= 0);
                    assert(min_row == row && max_row == row && max_col == col);
                }
            }
            i = i + 1;
        }
        proof {
            assert forall|l: HexLocation|
                #[trigger] self.occ(l) implies min_row <= render_row_of(l) <= max_row && min_col
                <= render_col_of(l) <= max_col by {
                assert(locs@.contains(l));
                let j = choose|j: int| 0 <= j < locs@.len() && locs@[j] == l;
            }
            if forall|l: HexLocation| !(#[trigger] self.occ(l)) {
                if locs@.len() > 0 {
                    assert(locs@.contains(locs@[0]));
                    assert(self.occ(locs@[0]));
                }
            }
            if exists|l: HexLocation| #[trigger] self.occ(l) {
                let w = choose|l: HexLocation| #[trigger] self.occ(l);
                assert(locs@.contains(w));
                assert(locs@.len() > 0);
                assert forall|j: int|
                    0 <= j < locs@.len() implies self.occ(#[trigger] locs@[j]) by {
                    assert(locs@.contains(locs@[j]));
                }
                let j1 = choose|j: int|
                    0 <= j < locs@.len() && render_row_of(#[trigger] locs@[j]) == min_row;
                assert(self.occ(locs@[j1]) && render_row_of(locs@[j1]) == min_row);
                let j2 = choose|j: int|
                    0 <= j < locs@.len() && render_row_of(#[trigger] locs@[j]) == max_row;
                assert(self.occ(locs@[j2]) && render_row_of(locs@[j2]) == max_row);
                let j3 = choose|j: int|
                    0 <= j < locs@.len() && render_col_of(#[trigger] locs@[j]) == max_col;
                assert(self.occ(locs@[j3]) && render_col_of(locs@[j3]) == max_col);
                if min_col < 60 {
                    assert(exists|j: int|
                        0 <= j < locs@.len() && render_col_of(#[trigger] locs@[j]) == min_col);
                    let j4 = choose|j: int|
                        0 <= j < locs@.len() && render_col_of(#[trigger] locs@[j]) == min_col;
                    let wl = locs@[j4];
                    assert(self.occ(wl) && render_col_of(wl) == min_col as int);
                    assert(exists|l: HexLocation|
                        #[trigger] self.occ(l) && render_col_of(l) == min_col as int);
                } else {
                    assert forall|l: HexLocation| #[trigger] self.occ(l) implies 60
                        <= render_col_of(l) by {
                        assert(locs@.contains(l));
                        let j = choose|j: int| 0 <= j < locs@.len() && locs@[j] == l;
                    }
                }
                assert(((min_col as int) < 60 && (exists|l: HexLocation|
                    #[trigger] self.occ(l) && render_col_of(l) == min_col as int)) || ((min_col
                    as int) == 60 && (forall|l: HexLocation|
                    #[trigger] self.occ(l) ==> 60 <= render_col_of(l))));
            }
        }
        ((min_row, min_col), (max_row, max_col))
    }

    fn cell_pieces_at(&self, row: i32, col: i32) -> (r: Vec<Piece>)
        requires
            self.wf(),
            -10 <= row <= 100,
            -10 <= col <= 200,
        ensures
            r@ == cell_pieces(*self, row as int, col as int),
    {
        let (q, rr) = HexGrid::oddr_to_axial(row, col);
        let x = q - RENDER_CENTER;
        let y = rr - RENDER_CENTER;
        if x >= -128 && x <= 127 && y >= -128 && y <= 127 {
            self.peek(HexLocation::new(x as i8, y as i8))
        } else {
            Vec::new()
        }
    }

    /// The diagram part of the description: one token per cell over the
    /// bounding box padded by one ring of empty cells, odd rendered rows
    /// indented by one space. An empty board is the single token `.`.
    #[verifier::loop_isolation(false)]
    pub fn board_string(&self) -> (r: String)
        requires
            self.wf(),
        ensures
            (forall|l: HexLocation| !(#[trigger] self.occ(l))) ==> r@ =~= seq!['.'],
            (exists|l: HexLocation| #[trigger] self.occ(l)) ==> exists|
                minr: int,
                minc: int,
                maxr: int,
                maxc: int,
            |
                #[trigger] render_bounds(*self, minr, minc, maxr, maxc) && r@ == rows_text(
                    *self,
                    minr - 1,
                    maxr + 1,
                    minc - 1,
                    maxc + 1,
                ),
    {
        proof {
            reveal_strlit(".");
            reveal_strlit(" ");
            reveal_strlit("\n");
        }
        if self.is_empty() {
            return String::from_str(".");
        }
        let ((min_row, min_col), (max_row, max_col)) = self.bounds();
        proof {
            assert(render_bounds(
                *self,
                min_row as int,
                min_col as int,
                max_row as int,
                max_col as int,
            ));
        }
        let top = min_row - 1;
        let bottom = max_row + 1;
        let left = min_col - 1;
        let right = max_col + 1;
        proof {
            let w = choose|l: HexLocation| #[trigger] self.occ(l);
            assert(min_row <= max_row && min_col <= max_col) by {
                assert(self.occ(w));
            }
        }
        let ghost total = rows_text(*self, top as int, bottom as int, left as int, right as int);
        let mut out = String::new();
        let mut row = top;
        while row <= bottom
            invariant
                self.wf(),
                -1 <= top,
                top <= bottom <= 61,
                -1 <= left <= 95,
                left <= right <= 96,
                -1 <= row <= 62,
                top <= row <= bottom + 1,
                out@ + rows_text(*self, row as int, bottom as int, left as int, right as int)
                    == total,
            decreases bottom + 1 - row,
        {
            let ghost row_start = out@;
            let indented = row >= 0 && row % 2 == 1;
            if indented {
                out.append(" ");
            }
            proof {
                if indented {
                    assert(0 <= row as int && row as int % 2 == 1);
                    assert(out@ =~= row_start + seq![' ']);
                } else {
                    assert(!(0 <= row as int && row as int % 2 == 1));
                    assert(out@ =~= row_start);
                }
            }
            let ghost row_base = out@;
            let mut col = left;
            while col <= right
                invariant
                    self.wf(),
                    -1 <= left <= 95,
                    left <= right <= 96,
                    -1 <= row <= 61,
                    left <= col <= right + 1,
                    out@ + row_text(*self, row as int, col as int, right as int) == row_base
                        + row_text(*self, row as int, left as int, right as int),
                decreases right + 1 - col,
            {
                let ghost before = out@;
                let pieces = self.cell_pieces_at(row, col);
                if pieces.len() == 0 {
                    out.append(".");
                    proof {
                        assert(out@ =~= before + cell_text(*self, row as int, col as int));
                    }
                } else if pieces.len() == 1 {
                    let s = pieces[0].to_str();
                    proof {
                        assert(s@ =~= seq![crate::hex_grid::piece_letter(pieces@[0])]);
                    }
                    out.append(s.as_str());
                    proof {
                        assert(out@ =~= before + cell_text(*self, row as int, col as int));
                    }
                } else {
                    out.append(digit_str(if pieces.len() <= 9 {
                        pieces.len()
                    } else {
                        9
                    }));
                    proof {
                        assert(out@ =~= before + cell_text(*self, row as int, col as int));
                    }
                }
                proof {
                    assert(out@ =~= before + cell_text(*self, row as int, col as int));
                }
                if col != right {
                    out.append(" ");
                }
                proof {
                    assert(row_text(*self, row as int, col as int, right as int) == cell_text(
                        *self,
                        row as int,
                        col as int,
                    ) + (if col < right {
                        seq![' ']
                    } else {
                        Seq::<char>::empty()
                    }) + row_text(*self, row as int, col + 1, right as int));
                    if col != right {
                        assert(out@ =~= before + cell_text(*self, row as int, col as int)
                            + seq![' ']);
                    }
                    assert(out@ + row_text(*self, row as int, col + 1, right as int) =~= before
                        + row_text(*self, row as int, col as int, right as int));
                }
                col = col + 1;
            }
            out.append("\n");
            proof {
                assert(row_text(*self, row as int, col as int, right as int) == seq!['\n']);
                assert(out@ =~= row_base + row_text(
                    *self,
                    row as int,
                    left as int,
                    right as int,
                ));
                assert(rows_text(*self, row as int, bottom as int, left as int, right as int)
                    == (if 0 <= row as int && row as int % 2 == 1 {
                    seq![' ']
                } else {
                    Seq::<char>::empty()
                }) + row_text(*self, row as int, left as int, right as int) + rows_text(
                    *self,
                    row + 1,
                    bottom as int,
                    left as int,
                    right as int,
                ));
                assert(row_base =~= row_start + (if 0 <= row as int && row as int % 2 == 1 {
                    seq![' ']
                } else {
                    Seq::<char>::empty()
                }));
                assert(out@ + rows_text(*self, row + 1, bottom as int, left as int, right as int)
                    =~= row_start + rows_text(
                    *self,
                    row as int,
                    bottom as int,
                    left as int,
                    right as int,
                ));
            }
            row = row + 1;
        }
        proof {
            assert(rows_text(*self, row as int, bottom as int, left as int, right as int)
                =~= Seq::<char>::empty());
            assert(out@ =~= total);
            assert(out@ == rows_text(
                *self,
                min_row as int - 1,
                max_row as int + 1,
                min_col as int - 1,
                max_col as int + 1,
            ));
        }
        out
    }

    /// The anchor line `start - [ <x>, <y> ]`: the axial coordinate of
    /// the top-left cell rendered by `board_string`.
    pub fn start_string(&self) -> (r: String)
        requires
            self.wf(),
        ensures
            exists|top: int, left: int|
                #[trigger] min_render_bounds(*self, top, left) && r@ == anchor_text(top, left),
    {
        proof {
            reveal_strlit("start - [ ");
            reveal_strlit(", ");
            reveal_strlit(" ]");
        }
        let ((min_row, min_col), _) = self.bounds();
        let top_row = min_row - 1;
        let left_col = min_col - 1;
        let (q, rr) = HexGrid::oddr_to_axial(top_row, left_col);
        let x = q - RENDER_CENTER;
        let y = rr - RENDER_CENTER;
        let mut out = String::new();
        out.append("start - [ ");
        push_i32(&mut out, x);
        out.append(", ");
        push_i32(&mut out, y);
        out.append(" ]");
        proof {
            assert(min_render_bounds(*self, min_row as int, min_col as int));
            assert(out@ =~= anchor_text(min_row as int, min_col as int));
        }
        out
    }

    /// The stacks section: one line `<height> - [ <piece> <piece> ... ]` per
    /// cell with at least two pieces, in rendering order, occupants
    /// bottom-to-top.
    #[verifier::loop_isolation(false)]
    pub fn stacks_string(&self) -> (r: String)
        requires
            self.wf(),
        ensures
            exists|minr: int, minc: int, maxr: int, maxc: int|
                #[trigger] render_bounds(*self, minr, minc, maxr, maxc) && r@ == stacks_text(
                    *self,
                    minr,
                    maxr,
                    minc,
                    maxc,
                ),
    {
        proof {
            reveal_strlit(" - [ ");
            reveal_strlit(" ");
            reveal_strlit("]\n");
        }
        let ((min_row, min_col), (max_row, max_col)) = self.bounds();
        proof {
            assert(render_bounds(
                *self,
                min_row as int,
                min_col as int,
                max_row as int,
                max_col as int,
            ));
        }
        let ghost total = stacks_text(
            *self,
            min_row as int,
            max_row as int,
            min_col as int,
            max_col as int,
        );
        let mut out = String::new();
        let mut row = min_row;
        while row <= max_row
            invariant
                0 <= min_row <= 60,
                max_row <= 60,
                0 <= min_col <= 96,
                max_col <= 95,
                min_row <= row <= 61,
                out@ + stacks_text(*self, row as int, max_row as int, min_col as int, max_col
                    as int) == total,
            decreases max_row + 1 - row,
        {
            let ghost row_base = out@;
            let mut col = min_col;
            while col <= max_col
                invariant
                    0 <= row <= 60,
                    min_col <= col <= 96,
                    out@ + stacks_cols_text(*self, row as int, col as int, max_col as int)
                        == row_base + stacks_cols_text(
                        *self,
                        row as int,
                        min_col as int,
                        max_col as int,
                    ),
                decreases max_col + 1 - col,
            {
                let ghost before = out@;
                let pieces = self.cell_pieces_at(row, col);
                if pieces.len() > 1 {
                    out.append(digit_str(if pieces.len() <= 9 {
                        pieces.len()
                    } else {
                        9
                    }));
                    out.append(" - [ ");
                    let ghost letters_base = out@;
                    let mut k: usize = 0;
                    while k < pieces.len()
                        invariant
                            k <= pieces@.len(),
                            out@ + stack_letters(pieces@, k as int) == letters_base
                                + stack_letters(pieces@, 0),
                        decreases pieces@.len() - k,
                    {
                        let ghost before_letter = out@;
                        let s = pieces[k].to_str();
                        proof {
                            assert(s@ =~= seq![crate::hex_grid::piece_letter(
                                pieces@[k as int],
                            )]);
                        }
                        out.append(s.as_str());
                        out.append(" ");
                        proof {
                            assert(stack_letters(pieces@, k as int) == seq![
                                crate::hex_grid::piece_letter(pieces@[k as int]),
                                ' ',
                            ] + stack_letters(pieces@, k + 1));
                            assert(out@ + stack_letters(pieces@, k + 1) =~= before_letter
                                + stack_letters(pieces@, k as int));
                        }
                        k = k + 1;
                    }
                    out.append("]\n");
                    proof {
                        assert(stack_letters(pieces@, pieces@.len() as int)
                            =~= Seq::<char>::empty());
                        assert(out@ =~= before + stack_line(*self, row as int, col as int));
                    }
                } else {
                    proof {
                        assert(stack_line(*self, row as int, col as int)
                            =~= Seq::<char>::empty());
                        assert(out@ =~= before + stack_line(*self, row as int, col as int));
                    }
                }
                proof {
                    assert(stacks_cols_text(*self, row as int, col as int, max_col as int)
                        == stack_line(*self, row as int, col as int) + stacks_cols_text(
                        *self,
                        row as int,
                        col + 1,
                        max_col as int,
                    ));
                    assert(out@ + stacks_cols_text(*self, row as int, col + 1, max_col as int)
                        =~= before + stacks_cols_text(
                        *self,
                        row as int,
                        col as int,
                        max_col as int,
                    ));
                }
                col = col + 1;
            }
            proof {
                assert(stacks_cols_text(*self, row as int, col as int, max_col as int)
                    =~= Seq::<char>::empty());
                assert(stacks_text(*self, row as int, max_row as int, min_col as int, max_col
                    as int) == stacks_cols_text(*self, row as int, min_col as int, max_col
                    as int) + stacks_text(*self, row + 1, max_row as int, min_col as int,
                    max_col as int));
                assert(out@ + stacks_text(*self, row + 1, max_row as int, min_col as int,
                    max_col as int) =~= row_base + stacks_text(*self, row as int, max_row
                    as int, min_col as int, max_col as int));
            }
            row = row + 1;
        }
        proof {
            assert(stacks_text(*self, row as int, max_row as int, min_col as int, max_col
                as int) =~= Seq::<char>::empty());
            assert(out@ =~= total);
        }
        out
    }

    /// The whole description: diagram, anchor line and stacks section.
    pub fn to_dsl(&self) -> (r: String)
        requires
            self.wf(),
        ensures
            exists|minr: int, minc: int, maxr: int, maxc: int|
                #[trigger] render_bounds(*self, minr, minc, maxr, maxc) && r@ == (if forall|
                    l: HexLocation,
                | !(#[trigger] self.occ(l)) {
                    seq!['.']
                } else {
                    rows_text(*self, minr - 1, maxr + 1, minc - 1, maxc + 1)
                }) + seq!['\n'] + anchor_text(minr, minc) + seq!['\n'] + stacks_text(
                    *self,
                    minr,
                    maxr,
                    minc,
                    maxc,
                ),
    {
        proof {
            reveal_strlit("\n");
        }
        let mut out = self.board_string();
        let ghost board_part = out@;
        out.append("\n");
        let start = self.start_string();
        out.append(start.as_str());
        out.append("\n");
        let stacks = self.stacks_string();
        out.append(stacks.as_str());
        proof {
            let (minr, minc, maxr, maxc) = choose|minr: int, minc: int, maxr: int, maxc: int|
                #[trigger] render_bounds(*self, minr, minc, maxr, maxc) && stacks@ == stacks_text(
                    *self,
                    minr,
                    maxr,
                    minc,
                    maxc,
                );
            let (top, left) = choose|top: int, left: int|
                #[trigger] min_render_bounds(*self, top, left) && start@ == anchor_text(
                    top,
                    left,
                );
            lemma_min_render_bounds_unique(*self, top, left, minr, minc);
            if !(forall|l: HexLocation| !(#[trigger] self.occ(l))) {
                let (br, bc, br2, bc2) = choose|br: int, bc: int, br2: int, bc2: int|
                    #[trigger] render_bounds(*self, br, bc, br2, bc2) && board_part == rows_text(
                        *self,
                        br - 1,
                        br2 + 1,
                        bc - 1,
                        bc2 + 1,
                    );
                lemma_render_bounds_unique(*self, br, bc, br2, bc2, minr, minc, maxr, maxc);
            }
            assert(out@ =~= board_part + seq!['\n'] + anchor_text(minr, minc) + seq!['\n']
                + stacks_text(*self, minr, maxr, minc, maxc));
        }
        out
    }

    /// Reconstruct a board from a description: a diagram block, a blank
    /// line, the anchor line, and an optional stacks section whose lines
    /// fill the diagram's height digits in reading order. Malformed parts
    /// are ignored; the result is always a well-formed board.
    pub fn from_dsl(input: &str) -> (r: HexGrid)
        ensures
            r.wf(),
    {
        let (cells, stacks) = HexGrid::parse_description(input);
        let mut grid = HexGrid::new();
        let mut next_stack: usize = 0;
        let mut i: usize = 0;
        while i < cells.len()
            invariant
                grid.wf(),
                next_stack <= i,
                i <= cells@.len(),
            decreases cells@.len() - i,
        {
            match cells[i].1 {
                CellToken::Single(piece) => {
                    let _ = grid.add(piece, cells[i].0);
                },
                CellToken::Stack(_height) => {
                    if next_stack < stacks.len() {
                        let mut k: usize = 0;
                        let loc = cells[i].0;
                        while k < stacks[next_stack].len()
                            invariant
                                grid.wf(),
                                next_stack < stacks@.len(),
                            decreases stacks@[next_stack as int]@.len() - k,
                        {
                            let _ = grid.add(stacks[next_stack][k], loc);
                            k = k + 1;
                        }
                    }
                    next_stack = next_stack + 1;
                },
                CellToken::Mark => {},
            }
            i = i + 1;
        }
        grid
    }

    /// The cells marked `*` in a selector diagram: the way an expected
    /// destination set is written down independent of piece identity.
    pub fn selector(input: &str) -> (r: Vec<HexLocation>)
        ensures
            forall|j: int| 0 <= j < r@.len() ==> crate::hex_grid::in_range(#[trigger] r@[j]),
    {
        let (cells, _stacks) = HexGrid::parse_description(input);
        let mut marks: Vec<HexLocation> = Vec::new();
        let mut i: usize = 0;
        while i < cells.len()
            invariant
                forall|j: int|
                    0 <= j < cells@.len() ==> crate::hex_grid::in_range((#[trigger] cells@[j]).0),
                forall|j: int|
                    0 <= j < marks@.len() ==> crate::hex_grid::in_range(#[trigger] marks@[j]),
            decreases cells@.len() - i,
        {
            match cells[i].1 {
                CellToken::Mark => {
                    marks.push(cells[i].0);
                },
                CellToken::Single(_) => {},
                CellToken::Stack(_) => {},
            }
            i = i + 1;
        }
        marks
    }

    fn parse_description(input: &str) -> (r: (Vec<(HexLocation, CellToken)>, Vec<Vec<Piece>>))
        ensures
            forall|j: int|
                0 <= j < r.0@.len() ==> crate::hex_grid::in_range((#[trigger] r.0@[j]).0),
    {
        let bytes = input.as_bytes_vec();
        let lines = split_lines(&bytes);
        // The diagram block ends at the first blank line or at the anchor
        // line (the first one holding a bracket), whichever comes first.
        let mut block_len: usize = 0;
        while block_len < lines.len() && lines[block_len].len() > 0 && !line_has_bracket(
            &lines[block_len],
        )
            invariant
                block_len <= lines@.len(),
            decreases lines@.len() - block_len,
        {
            block_len = block_len + 1;
        }
        let mut start_idx: usize = block_len;
        while start_idx < lines.len() && !line_has_bracket(&lines[start_idx])
            invariant
                start_idx <= lines@.len(),
            decreases lines@.len() - start_idx,
        {
            start_idx = start_idx + 1;
        }
        let mut q0: i64 = 0;
        let mut r0: i64 = 0;
        if start_idx < lines.len() {
            let ints = parse_ints(&lines[start_idx]);
            if ints.len() >= 2 {
                q0 = ints[0];
                r0 = ints[1];
            }
        }
        let cells = parse_board_block(&lines, block_len, q0, r0);
        let mut stacks: Vec<Vec<Piece>> = Vec::new();
        let mut i: usize = if start_idx < lines.len() {
            start_idx + 1
        } else {
            start_idx
        };
        while i < lines.len()
            invariant
                i <= lines@.len(),
            decreases lines@.len() - i,
        {
            if lines[i].len() > 0 {
                let ints = parse_ints(&lines[i]);
                if ints.len() >= 1 {
                    let mut stack: Vec<Piece> = Vec::new();
                    let mut p: usize = 0;
                    while p < lines[i].len()
                        invariant
                            0 <= i < lines@.len(),
                        decreases lines@[i as int]@.len() - p,
                    {
                        match piece_from_byte(lines[i][p]) {
                            Some(piece) => {
                                stack.push(piece);
                            },
                            None => {},
                        }
                        p = p + 1;
                    }
                    stacks.push(stack);
                }
            }
            i = i + 1;
        }
        (cells, stacks)
    }
}

} // verus!
