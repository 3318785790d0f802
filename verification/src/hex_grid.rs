//! Hex-grid storage and coordinate geometry.
//!
//! Cells are addressed by axial coordinates. Each cell owns a small stack of
//! pieces, filled and drained bottom-up: a piece is added at the first free
//! slot from the bottom and removed from the lowest occupied slot.

use vstd::prelude::*;

verus! {

broadcast use vstd::seq_lib::group_seq_properties;

/// The closed set of tile kinds.
#[derive(Copy, Clone, Debug, PartialEq, Eq, Structural)]
pub enum PieceType {
    Queen,
    Grasshopper,
    Spider,
    Beetle,
    Ant,
    Pillbug,
    Ladybug,
    Mosquito,
}

/// The two players.
#[derive(Copy, Clone, Debug, PartialEq, Eq, Structural)]
pub enum PieceColor {
    Black,
    White,
}

/// A piece is a (kind, color) pair; immutable value data.
#[derive(Copy, Clone, Debug, PartialEq, Eq, Structural)]
pub struct Piece {
    pub piece: PieceType,
    pub color: PieceColor,
}

/// The six hex directions.
#[derive(Copy, Clone, Debug, PartialEq, Eq, Structural)]
pub enum Direction {
    NW,
    NE,
    E,
    SE,
    SW,
    W,
}

/// An axial coordinate identifying one hex cell.
#[derive(Copy, Clone, Debug, PartialEq, Eq, Structural)]
pub struct HexLocation {
    pub x: i8,
    pub y: i8,
}

/// Axial x-delta of one step in direction `d`.
pub open spec fn dir_dx(d: Direction) -> int {
    match d {
        Direction::NW => 0,
        Direction::NE => 1,
        Direction::E => 1,
        Direction::SE => 0,
        Direction::SW => -1,
        Direction::W => -1,
    }
}

/// Axial y-delta of one step in direction `d`.
pub open spec fn dir_dy(d: Direction) -> int {
    match d {
        Direction::NW => -1,
        Direction::NE => -1,
        Direction::E => 0,
        Direction::SE => 1,
        Direction::SW => 1,
        Direction::W => 0,
    }
}

/// The neighbour of `a` in direction `d` (with the same wrap-around
/// truncation the executable arithmetic would perform).
pub open spec fn spec_apply(a: HexLocation, d: Direction) -> HexLocation {
    HexLocation { x: (a.x + dir_dx(d)) as i8, y: (a.y + dir_dy(d)) as i8 }
}

/// Two cells are adjacent when they differ by one of the six unit deltas.
pub open spec fn adjacent(a: HexLocation, b: HexLocation) -> bool {
    exists|d: Direction| #[trigger] spec_apply(a, d) == b && !coords_wrap(a, d)
}

/// True when stepping from `a` in direction `d` would overflow the
/// coordinate type; all cells the engine ever touches are far from this.
pub open spec fn coords_wrap(a: HexLocation, d: Direction) -> bool {
    !(i8::MIN <= a.x + dir_dx(d) <= i8::MAX && i8::MIN <= a.y + dir_dy(d) <= i8::MAX)
}

/// The direction opposite to `d`.
pub open spec fn dir_opposite(d: Direction) -> Direction {
    match d {
        Direction::NW => Direction::SE,
        Direction::NE => Direction::SW,
        Direction::E => Direction::W,
        Direction::SE => Direction::NW,
        Direction::SW => Direction::NE,
        Direction::W => Direction::E,
    }
}

/// Walking clockwise around the ring of directions.
pub open spec fn dir_cw(d: Direction) -> Direction {
    match d {
        Direction::NW => Direction::NE,
        Direction::NE => Direction::E,
        Direction::E => Direction::SE,
        Direction::SE => Direction::SW,
        Direction::SW => Direction::W,
        Direction::W => Direction::NW,
    }
}

/// Walking counter-clockwise around the ring of directions.
pub open spec fn dir_ccw(d: Direction) -> Direction {
    match d {
        Direction::NW => Direction::W,
        Direction::NE => Direction::NW,
        Direction::E => Direction::NE,
        Direction::SE => Direction::E,
        Direction::SW => Direction::SE,
        Direction::W => Direction::SW,
    }
}

/// The fixed enumeration order of the six directions.
pub open spec fn all_directions() -> Seq<Direction> {
    seq![
        Direction::NW,
        Direction::NE,
        Direction::E,
        Direction::SE,
        Direction::SW,
        Direction::W,
    ]
}

/// Adjacency is symmetric: the step back is the opposite direction.
pub proof fn lemma_adjacent_symmetric(a: HexLocation, b: HexLocation)
    requires
        adjacent(a, b),
        -100 <= a.x <= 100,
        -100 <= a.y <= 100,
    ensures
        adjacent(b, a),
{
    let d = choose|d: Direction| #[trigger] spec_apply(a, d) == b && !coords_wrap(a, d);
    assert(spec_apply(b, dir_opposite(d)) == a && !coords_wrap(b, dir_opposite(d)));
}

impl Direction {
    /// All six directions, in the fixed enumeration order.
    pub fn all() -> (r: [Direction; 6])
        ensures
            r@ == all_directions(),
    {
        let r = [
            Direction::NW,
            Direction::NE,
            Direction::E,
            Direction::SE,
            Direction::SW,
            Direction::W,
        ];
        proof {
            assert(r@ =~= all_directions());
        }
        r
    }

    /// The two directions flanking `self`: its ring neighbours. The cells
    /// they point at from `a` are the two cells adjacent to both `a` and
    /// the neighbour of `a` in direction `self`.
    pub fn flanking(self) -> (r: (Direction, Direction))
        ensures
            r.0 == dir_cw(self),
            r.1 == dir_ccw(self),
    {
        (
            match self {
                Direction::NW => Direction::NE,
                Direction::NE => Direction::E,
                Direction::E => Direction::SE,
                Direction::SE => Direction::SW,
                Direction::SW => Direction::W,
                Direction::W => Direction::NW,
            },
            match self {
                Direction::NW => Direction::W,
                Direction::NE => Direction::NW,
                Direction::E => Direction::NE,
                Direction::SE => Direction::E,
                Direction::SW => Direction::SE,
                Direction::W => Direction::SW,
            },
        )
    }
}

impl PieceType {
    /// The fixed one-letter code of this kind (the white-player casing).
    pub fn to_str(&self) -> (r: &str)
        ensures
            r@ =~= seq![type_letter(*self)],
    {
        proof {
            reveal_strlit("Q");
            reveal_strlit("G");
            reveal_strlit("S");
            reveal_strlit("B");
            reveal_strlit("A");
            reveal_strlit("P");
            reveal_strlit("L");
            reveal_strlit("M");
        }
        match self {
            PieceType::Queen => "Q",
            PieceType::Grasshopper => "G",
            PieceType::Spider => "S",
            PieceType::Beetle => "B",
            PieceType::Ant => "A",
            PieceType::Pillbug => "P",
            PieceType::Ladybug => "L",
            PieceType::Mosquito => "M",
        }
    }
}

/// The upper-case letter code of a piece kind.
pub open spec fn type_letter(t: PieceType) -> char {
    match t {
        PieceType::Queen => 'Q',
        PieceType::Grasshopper => 'G',
        PieceType::Spider => 'S',
        PieceType::Beetle => 'B',
        PieceType::Ant => 'A',
        PieceType::Pillbug => 'P',
        PieceType::Ladybug => 'L',
        PieceType::Mosquito => 'M',
    }
}

/// The letter code of a piece: upper case for white, lower case for black.
pub open spec fn piece_letter(p: Piece) -> char {
    if p.color == PieceColor::White {
        type_letter(p.piece)
    } else {
        match p.piece {
            PieceType::Queen => 'q',
            PieceType::Grasshopper => 'g',
            PieceType::Spider => 's',
            PieceType::Beetle => 'b',
            PieceType::Ant => 'a',
            PieceType::Pillbug => 'p',
            PieceType::Ladybug => 'l',
            PieceType::Mosquito => 'm',
        }
    }
}

impl Piece {
    pub fn new(piece: PieceType, color: PieceColor) -> (r: Piece)
        ensures
            r == (Piece { piece, color }),
    {
        Piece { piece, color }
    }

    /// Uppercase letter for white, lowercase for black.
    pub fn to_str(&self) -> (r: String)
        ensures
            r@ =~= seq![piece_letter(*self)],
    {
        proof {
            reveal_strlit("Q");
            reveal_strlit("G");
            reveal_strlit("S");
            reveal_strlit("B");
            reveal_strlit("A");
            reveal_strlit("P");
            reveal_strlit("L");
            reveal_strlit("M");
            reveal_strlit("q");
            reveal_strlit("g");
            reveal_strlit("s");
            reveal_strlit("b");
            reveal_strlit("a");
            reveal_strlit("p");
            reveal_strlit("l");
            reveal_strlit("m");
        }
        let s: &str = match (self.color, self.piece) {
            (PieceColor::White, PieceType::Queen) => "Q",
            (PieceColor::White, PieceType::Grasshopper) => "G",
            (PieceColor::White, PieceType::Spider) => "S",
            (PieceColor::White, PieceType::Beetle) => "B",
            (PieceColor::White, PieceType::Ant) => "A",
            (PieceColor::White, PieceType::Pillbug) => "P",
            (PieceColor::White, PieceType::Ladybug) => "L",
            (PieceColor::White, PieceType::Mosquito) => "M",
            (PieceColor::Black, PieceType::Queen) => "q",
            (PieceColor::Black, PieceType::Grasshopper) => "g",
            (PieceColor::Black, PieceType::Spider) => "s",
            (PieceColor::Black, PieceType::Beetle) => "b",
            (PieceColor::Black, PieceType::Ant) => "a",
            (PieceColor::Black, PieceType::Pillbug) => "p",
            (PieceColor::Black, PieceType::Ladybug) => "l",
            (PieceColor::Black, PieceType::Mosquito) => "m",
        };
        String::from_str(s)
    }
}

impl HexLocation {
    pub fn new(x: i8, y: i8) -> (r: HexLocation)
        ensures
            r == (HexLocation { x, y }),
    {
        HexLocation { x, y }
    }

    /// The neighbouring coordinate in the given direction.
    pub fn apply(&self, direction: Direction) -> (r: Self)
        requires
            !coords_wrap(*self, direction),
        ensures
            r == spec_apply(*self, direction),
            !coords_wrap(*self, direction),
            adjacent(*self, r),
    {
        let (mut x, mut y) = (self.x, self.y);
        match direction {
            Direction::NW => { y = y - 1 },
            Direction::E => { x = x + 1 },
            Direction::W => { x = x - 1 },
            Direction::SE => { y = y + 1 },
            Direction::NE => { x = x + 1; y = y - 1 },
            Direction::SW => { x = x - 1; y = y + 1 },
        }
        let r = HexLocation::new(x, y);
        proof {
            assert(spec_apply(*self, direction) == r && !coords_wrap(*self, direction));
        }
        r
    }
}

/// Maximum stack height per cell: the tallest legal stack plus headroom.
pub const MAX_HEIGHT: usize = 7;

/// Side length of the bounded storage region (cells with both axial
/// coordinates in `[-HEX_GRID_SIZE/2, HEX_GRID_SIZE/2)` exist).
pub const HEX_GRID_SIZE: usize = 60;

/// A coordinate the bounded storage can hold.
pub open spec fn in_range(l: HexLocation) -> bool {
    &&& -(HEX_GRID_SIZE as int) / 2 <= l.x < (HEX_GRID_SIZE as int) / 2
    &&& -(HEX_GRID_SIZE as int) / 2 <= l.y < (HEX_GRID_SIZE as int) / 2
}

/// The slot sequence of an untouched cell: `MAX_HEIGHT` free slots.
pub open spec fn empty_slots() -> Seq<Option<Piece>> {
    Seq::new(MAX_HEIGHT as nat, |i: int| None)
}

/// Whether some slot holds a piece.
pub open spec fn has_piece(s: Seq<Option<Piece>>) -> bool {
    exists|k: int| 0 <= k < s.len() && s[k] is Some
}

/// Whether some slot is free.
pub open spec fn has_free_slot(s: Seq<Option<Piece>>) -> bool {
    exists|k: int| 0 <= k < s.len() && s[k] is None
}

/// Index of the lowest occupied slot.
pub open spec fn first_some(s: Seq<Option<Piece>>) -> int
    decreases s.len(),
{
    if s.len() == 0 {
        0
    } else if s[0] is Some {
        0
    } else {
        1 + first_some(s.drop_first())
    }
}

/// Index of the lowest free slot.
pub open spec fn first_none(s: Seq<Option<Piece>>) -> int
    decreases s.len(),
{
    if s.len() == 0 {
        0
    } else if s[0] is None {
        0
    } else {
        1 + first_none(s.drop_first())
    }
}

/// The pieces present in a cell, bottom-to-top.
pub open spec fn somes(s: Seq<Option<Piece>>) -> Seq<Piece>
    decreases s.len(),
{
    if s.len() == 0 {
        Seq::empty()
    } else {
        let rest = somes(s.drop_first());
        match s[0] {
            Some(p) => seq![p] + rest,
            None => rest,
        }
    }
}

/// `first_some` really is the lowest occupied slot.
pub proof fn lemma_first_some(s: Seq<Option<Piece>>)
    requires
        has_piece(s),
    ensures
        0 <= first_some(s) < s.len(),
        s[first_some(s)] is Some,
        forall|j: int| 0 <= j < first_some(s) ==> s[j] is None,
    decreases s.len(),
{
    if s[0] is Some {
    } else {
        assert(has_piece(s.drop_first())) by {
            let k = choose|k: int| 0 <= k < s.len() && s[k] is Some;
            assert(s.drop_first()[k - 1] is Some);
        }
        lemma_first_some(s.drop_first());
        assert forall|j: int| 0 <= j < first_some(s) implies s[j] is None by {
            if j > 0 {
                assert(s.drop_first()[j - 1] is None);
            }
        }
    }
}

/// `first_none` really is the lowest free slot.
pub proof fn lemma_first_none(s: Seq<Option<Piece>>)
    requires
        has_free_slot(s),
    ensures
        0 <= first_none(s) < s.len(),
        s[first_none(s)] is None,
        forall|j: int| 0 <= j < first_none(s) ==> s[j] is Some,
    decreases s.len(),
{
    if s[0] is None {
    } else {
        assert(has_free_slot(s.drop_first())) by {
            let k = choose|k: int| 0 <= k < s.len() && s[k] is None;
            assert(s.drop_first()[k - 1] is None);
        }
        lemma_first_none(s.drop_first());
        assert forall|j: int| 0 <= j < first_none(s) implies s[j] is Some by {
            if j > 0 {
                assert(s.drop_first()[j - 1] is Some);
            }
        }
    }
}

/// A cell holds pieces exactly when its piece sequence is non-empty.
pub proof fn lemma_somes_len(s: Seq<Option<Piece>>)
    ensures
        somes(s).len() == 0 <==> !has_piece(s),
    decreases s.len(),
{
    if s.len() > 0 {
        lemma_somes_len(s.drop_first());
        if has_piece(s.drop_first()) {
            let k = choose|k: int| 0 <= k < s.drop_first().len() && s.drop_first()[k] is Some;
            assert(s[k + 1] is Some);
        }
        if has_piece(s) && s[0] is None {
            let k = choose|k: int| 0 <= k < s.len() && s[k] is Some;
            assert(s.drop_first()[k - 1] is Some);
        }
    }
}

/// Appending a slot appends its piece, if any.
pub proof fn lemma_somes_push(s: Seq<Option<Piece>>, o: Option<Piece>)
    ensures
        somes(s.push(o)) == somes(s) + match o {
            Some(p) => seq![p],
            None => Seq::<Piece>::empty(),
        },
    decreases s.len(),
{
    if s.len() == 0 {
        assert(s.push(o).drop_first() =~= Seq::<Option<Piece>>::empty());
        assert(s.push(o)[0] == o);
        assert(somes(Seq::<Option<Piece>>::empty()) =~= Seq::<Piece>::empty());
        assert(somes(s.push(o).drop_first()) =~= Seq::<Piece>::empty());
        assert(somes(s) =~= Seq::<Piece>::empty());
        match o {
            Some(p) => {
                assert(somes(s.push(o)) =~= seq![p] + somes(s.push(o).drop_first()));
                assert(somes(s.push(o)) =~= somes(s) + seq![p]);
            },
            None => {
                assert(somes(s.push(o)) =~= somes(s.push(o).drop_first()));
                assert(somes(s.push(o)) =~= somes(s) + Seq::<Piece>::empty());
            },
        }
    } else {
        assert(s.push(o).drop_first() =~= s.drop_first().push(o));
        lemma_somes_push(s.drop_first(), o);
        assert(s.push(o)[0] == s[0]);
        match o {
            Some(p) => {
                assert(somes(s.push(o)) =~= somes(s) + seq![p]);
            },
            None => {
                assert(somes(s.push(o)) =~= somes(s) + Seq::<Piece>::empty());
            },
        }
    }
}

/// Clearing the lowest occupied slot drains the bottom piece.
pub proof fn lemma_somes_remove(s: Seq<Option<Piece>>)
    requires
        has_piece(s),
    ensures
        somes(s.update(first_some(s), None)) == somes(s).drop_first(),
        somes(s)[0] == s[first_some(s)].unwrap(),
    decreases s.len(),
{
    lemma_first_some(s);
    if s[0] is Some {
        assert(s.update(0, None).drop_first() =~= s.drop_first());
        assert(somes(s.update(first_some(s), None)) =~= somes(s).drop_first());
    } else {
        assert(has_piece(s.drop_first())) by {
            let k = choose|k: int| 0 <= k < s.len() && s[k] is Some;
            assert(s.drop_first()[k - 1] is Some);
        }
        lemma_somes_remove(s.drop_first());
        let fs = first_some(s);
        assert(s.update(fs, None).drop_first() =~= s.drop_first().update(fs - 1, None));
        assert(somes(s.update(fs, None)) =~= somes(s).drop_first());
    }
}

/// Filling a free slot adds the piece; in the common compact case the
/// lowest free slot is the top, so the piece lands at the end.
pub proof fn lemma_somes_fill(s: Seq<Option<Piece>>, p: Piece, k: int)
    requires
        0 <= k < s.len(),
        s[k] is None,
        forall|j: int| k < j < s.len() ==> s[j] is None,
    ensures
        somes(s.update(k, Some(p))) == somes(s).push(p),
    decreases s.len(),
{
    if k == 0 {
        assert(!has_piece(s.drop_first())) by {
            if has_piece(s.drop_first()) {
                let j = choose|j: int|
                    0 <= j < s.drop_first().len() && s.drop_first()[j] is Some;
                assert(s[j + 1] is Some);
            }
        }
        lemma_somes_len(s.drop_first());
        assert(s.update(0, Some(p)).drop_first() =~= s.drop_first());
        assert(somes(s.update(0, Some(p))) =~= somes(s).push(p));
    } else {
        lemma_somes_fill(s.drop_first(), p, k - 1);
        assert(s.update(k, Some(p)).drop_first() =~= s.drop_first().update(k - 1, Some(p)));
        assert(somes(s.update(k, Some(p))) =~= somes(s).push(p));
    }
}

/// Two boards agree on the slot stack of every cell.
pub open spec fn grids_equal(a: HexGrid, b: HexGrid) -> bool {
    forall|l: HexLocation| #[trigger] a.slots_at(l) == b.slots_at(l)
}

fn copy_slots(s: &Vec<Option<Piece>>) -> (r: Vec<Option<Piece>>)
    ensures
        r@ == s@,
{
    let mut r: Vec<Option<Piece>> = Vec::new();
    let mut k: usize = 0;
    while k < s.len()
        invariant
            k <= s@.len(),
            r@ == s@.subrange(0, k as int),
        decreases s@.len() - k,
    {
        r.push(s[k]);
        k = k + 1;
        proof {
            assert(r@ =~= s@.subrange(0, k as int));
        }
    }
    proof {
        assert(s@.subrange(0, s@.len() as int) =~= s@);
    }
    r
}

fn any_some(s: &Vec<Option<Piece>>) -> (r: bool)
    ensures
        r == has_piece(s@),
{
    let mut k: usize = 0;
    while k < s.len()
        invariant
            k <= s@.len(),
            forall|j: int| 0 <= j < k ==> s@[j] is None,
        decreases s@.len() - k,
    {
        if s[k].is_some() {
            return true;
        }
        k = k + 1;
    }
    false
}

/// The board: a sparse map from axial coordinate to a slot stack, holding
/// an entry exactly for the cells that bear at least one piece.
#[derive(Debug, PartialEq)]
pub struct HexGrid {
    cells: Vec<(HexLocation, Vec<Option<Piece>>)>,
}

impl HexGrid {
    /// Structural well-formedness: entries are distinct in-range cells,
    /// each with exactly `MAX_HEIGHT` slots and at least one piece.
    pub closed spec fn wf(self) -> bool {
        &&& forall|i: int|
            0 <= i < self.cells@.len() ==> (#[trigger] self.cells@[i]).1@.len() == MAX_HEIGHT
        &&& forall|i: int| 0 <= i < self.cells@.len() ==> in_range((#[trigger] self.cells@[i]).0)
        &&& forall|i: int|
            0 <= i < self.cells@.len() ==> has_piece((#[trigger] self.cells@[i]).1@)
        &&& forall|i: int, j: int|
            0 <= i < j < self.cells@.len() ==> (#[trigger] self.cells@[i]).0 != (
            #[trigger] self.cells@[j]).0
    }

    /// The slot stack of a cell; untouched cells are all-free.
    pub closed spec fn slots_at(self, l: HexLocation) -> Seq<Option<Piece>> {
        if exists|i: int| 0 <= i < self.cells@.len() && (#[trigger] self.cells@[i]).0 == l {
            let i = choose|i: int|
                0 <= i < self.cells@.len() && (#[trigger] self.cells@[i]).0 == l;
            self.cells@[i].1@
        } else {
            empty_slots()
        }
    }

    /// The pieces at a cell, bottom-to-top.
    pub open spec fn pieces_at(self, l: HexLocation) -> Seq<Piece> {
        somes(self.slots_at(l))
    }

    /// Whether a cell bears at least one piece.
    pub open spec fn occ(self, l: HexLocation) -> bool {
        has_piece(self.slots_at(l))
    }

    /// The set of occupied cells.
    pub open spec fn occ_set(self) -> Set<HexLocation> {
        Set::new(|l: HexLocation| self.occ(l))
    }

    proof fn lemma_slots_entry(self, i: int)
        requires
            self.wf(),
            0 <= i < self.cells@.len(),
        ensures
            self.slots_at(self.cells@[i].0) == self.cells@[i].1@,
            self.occ(self.cells@[i].0),
    {
        let l = self.cells@[i].0;
        let j = choose|j: int| 0 <= j < self.cells@.len() && (#[trigger] self.cells@[j]).0 == l;
        if i < j {
            assert(self.cells@[i].0 != self.cells@[j].0);
        } else if j < i {
            assert(self.cells@[j].0 != self.cells@[i].0);
        }
    }

    proof fn lemma_slots_absent(self, l: HexLocation)
        requires
            forall|i: int| 0 <= i < self.cells@.len() ==> (#[trigger] self.cells@[i]).0 != l,
        ensures
            self.slots_at(l) == empty_slots(),
            !self.occ(l),
    {
        assert(!has_piece(empty_slots()));
    }

    /// Occupied cells lie inside the bounded storage region.
    pub proof fn lemma_occ_in_range(self, l: HexLocation)
        requires
            self.wf(),
            self.occ(l),
        ensures
            in_range(l),
    {
        if forall|i: int| 0 <= i < self.cells@.len() ==> (#[trigger] self.cells@[i]).0 != l {
            self.lemma_slots_absent(l);
        } else {
            let i = choose|i: int|
                0 <= i < self.cells@.len() && (#[trigger] self.cells@[i]).0 == l;
            self.lemma_slots_entry(i);
        }
    }

    /// Every cell's slot stack has exactly `MAX_HEIGHT` slots.
    pub proof fn lemma_slots_len(self, l: HexLocation)
        requires
            self.wf(),
        ensures
            self.slots_at(l).len() == MAX_HEIGHT,
    {
        if forall|i: int| 0 <= i < self.cells@.len() ==> (#[trigger] self.cells@[i]).0 != l {
            self.lemma_slots_absent(l);
        } else {
            let i = choose|i: int|
                0 <= i < self.cells@.len() && (#[trigger] self.cells@[i]).0 == l;
            self.lemma_slots_entry(i);
        }
    }

    /// An unoccupied cell of a well-formed board has the all-free stack.
    pub proof fn lemma_unocc_slots_empty(self, l: HexLocation)
        requires
            self.wf(),
            !self.occ(l),
        ensures
            self.slots_at(l) == empty_slots(),
    {
        if forall|i: int| 0 <= i < self.cells@.len() ==> (#[trigger] self.cells@[i]).0 != l {
            self.lemma_slots_absent(l);
        } else {
            let i = choose|i: int|
                0 <= i < self.cells@.len() && (#[trigger] self.cells@[i]).0 == l;
            self.lemma_slots_entry(i);
        }
    }

    /// An empty board.
    pub fn new() -> (r: HexGrid)
        ensures
            r.wf(),
            forall|l: HexLocation| #[trigger] r.slots_at(l) == empty_slots(),
            forall|l: HexLocation| !(#[trigger] r.occ(l)),
    {
        let r = HexGrid { cells: Vec::new() };
        proof {
            assert forall|l: HexLocation| #[trigger] r.slots_at(l) == empty_slots() && !r.occ(l) by {
                r.lemma_slots_absent(l);
            }
        }
        r
    }

    proof fn lemma_update_entry(self, new: HexGrid, i: int)
        requires
            self.wf(),
            0 <= i < self.cells@.len(),
            new.cells@.len() == self.cells@.len(),
            new.cells@[i].0 == self.cells@[i].0,
            forall|j: int|
                0 <= j < self.cells@.len() && j != i ==> #[trigger] new.cells@[j]
                    == self.cells@[j],
            new.cells@[i].1@.len() == MAX_HEIGHT,
            has_piece(new.cells@[i].1@),
        ensures
            new.wf(),
            new.slots_at(self.cells@[i].0) == new.cells@[i].1@,
            forall|l: HexLocation|
                l != self.cells@[i].0 ==> #[trigger] new.slots_at(l) == self.slots_at(l),
    {
        assert(new.wf());
        new.lemma_slots_entry(i);
        assert forall|l: HexLocation| l != self.cells@[i].0 implies #[trigger] new.slots_at(l)
            == self.slots_at(l) by {
            if exists|j: int| 0 <= j < self.cells@.len() && (#[trigger] self.cells@[j]).0 == l {
                let j = choose|j: int|
                    0 <= j < self.cells@.len() && (#[trigger] self.cells@[j]).0 == l;
                self.lemma_slots_entry(j);
                new.lemma_slots_entry(j);
            } else {
                self.lemma_slots_absent(l);
                new.lemma_slots_absent(l);
            }
        }
    }

    proof fn lemma_push_entry(self, new: HexGrid, location: HexLocation)
        requires
            self.wf(),
            forall|i: int| 0 <= i < self.cells@.len() ==> (#[trigger] self.cells@[i]).0 != location,
            new.cells@.len() == self.cells@.len() + 1,
            forall|j: int|
                0 <= j < self.cells@.len() ==> #[trigger] new.cells@[j] == self.cells@[j],
            new.cells@.last().0 == location,
            new.cells@.last().1@.len() == MAX_HEIGHT,
            has_piece(new.cells@.last().1@),
            in_range(location),
        ensures
            new.wf(),
            new.slots_at(location) == new.cells@.last().1@,
            forall|l: HexLocation|
                l != location ==> #[trigger] new.slots_at(l) == self.slots_at(l),
    {
        assert(new.wf());
        new.lemma_slots_entry(self.cells@.len() as int);
        assert forall|l: HexLocation| l != location implies #[trigger] new.slots_at(l)
            == self.slots_at(l) by {
            if exists|j: int| 0 <= j < self.cells@.len() && (#[trigger] self.cells@[j]).0 == l {
                let j = choose|j: int|
                    0 <= j < self.cells@.len() && (#[trigger] self.cells@[j]).0 == l;
                self.lemma_slots_entry(j);
                new.lemma_slots_entry(j);
            } else {
                self.lemma_slots_absent(l);
                new.lemma_slots_absent(l);
            }
        }
    }

    proof fn lemma_remove_entry(self, new: HexGrid, i: int)
        requires
            self.wf(),
            0 <= i < self.cells@.len(),
            new.cells@ == self.cells@.remove(i),
        ensures
            new.wf(),
            new.slots_at(self.cells@[i].0) == empty_slots(),
            !new.occ(self.cells@[i].0),
            forall|l: HexLocation|
                l != self.cells@[i].0 ==> #[trigger] new.slots_at(l) == self.slots_at(l),
    {
        assert(new.wf());
        assert forall|j: int| 0 <= j < new.cells@.len() implies (#[trigger] new.cells@[j]).0
            != self.cells@[i].0 by {
            if j < i {
                assert(new.cells@[j] == self.cells@[j]);
            } else {
                assert(new.cells@[j] == self.cells@[j + 1]);
            }
        }
        new.lemma_slots_absent(self.cells@[i].0);
        assert forall|l: HexLocation| l != self.cells@[i].0 implies #[trigger] new.slots_at(l)
            == self.slots_at(l) by {
            if exists|j: int| 0 <= j < self.cells@.len() && (#[trigger] self.cells@[j]).0 == l {
                let j = choose|j: int|
                    0 <= j < self.cells@.len() && (#[trigger] self.cells@[j]).0 == l;
                self.lemma_slots_entry(j);
                if j < i {
                    assert(new.cells@[j] == self.cells@[j]);
                    new.lemma_slots_entry(j);
                } else {
                    assert(j > i);
                    assert(new.cells@[j - 1] == self.cells@[j]);
                    new.lemma_slots_entry(j - 1);
                }
            } else {
                self.lemma_slots_absent(l);
                new.lemma_slots_absent(l);
            }
        }
    }

    fn entry_index(&self, location: HexLocation) -> (r: Option<usize>)
        ensures
            match r {
                Some(i) => i < self.cells@.len() && self.cells@[i as int].0 == location,
                None => forall|i: int|
                    0 <= i < self.cells@.len() ==> (#[trigger] self.cells@[i]).0 != location,
            },
    {
        let mut i: usize = 0;
        while i < self.cells.len()
            invariant
                i <= self.cells@.len(),
                forall|j: int| 0 <= j < i ==> (#[trigger] self.cells@[j]).0 != location,
            decreases self.cells@.len() - i,
        {
            if self.cells[i].0 == location {
                return Some(i);
            }
            i = i + 1;
        }
        None
    }

    pub(crate) fn in_range_exec(location: HexLocation) -> (r: bool)
        ensures
            r == in_range(location),
    {
        let half: i8 = (HEX_GRID_SIZE / 2) as i8;
        location.x >= -half && location.x < half && location.y >= -half && location.y < half
    }

    /// Place a piece at the first free slot from the bottom of the cell's
    /// stack. A full stack, or a cell outside the bounded storage region,
    /// rejects the placement, leaves the board unchanged, and reports the
    /// rejection by returning false.
    pub fn add(&mut self, piece: Piece, location: HexLocation) -> (placed: bool)
        requires
            old(self).wf(),
        ensures
            placed == (in_range(location) && has_free_slot(old(self).slots_at(location))),
            final(self).wf(),
            !(in_range(location) && has_free_slot(old(self).slots_at(location))) ==> grids_equal(
                *final(self),
                *old(self),
            ),
            in_range(location) && has_free_slot(old(self).slots_at(location)) ==> {
                let s = old(self).slots_at(location);
                &&& final(self).slots_at(location) == s.update(first_none(s), Some(piece))
                &&& final(self).occ(location)
                &&& forall|l: HexLocation|
                    l != location ==> #[trigger] final(self).slots_at(l) == old(self).slots_at(l)
            },
            in_range(location) && has_free_slot(old(self).slots_at(location)) && (forall|j: int|
                first_none(old(self).slots_at(location)) < j < old(self).slots_at(location).len()
                    ==> old(self).slots_at(location)[j] is None) ==> final(self).pieces_at(
                location,
            ) == old(self).pieces_at(location).push(piece),
    {
        if !HexGrid::in_range_exec(location) {
            return false;
        }
        match self.entry_index(location) {
            Some(i) => {
                proof {
                    self.lemma_slots_entry(i as int);
                }
                let ghost s = self.slots_at(location);
                let mut k: usize = 0;
                let stack_len = self.cells[i].1.len();
                while k < stack_len
                    invariant
                        *self == *old(self),
                        self.wf(),
                        0 <= i < self.cells@.len(),
                        self.cells@[i as int].0 == location,
                        stack_len == self.cells@[i as int].1@.len(),
                        k <= stack_len,
                        s == self.cells@[i as int].1@,
                        s == old(self).slots_at(location),
                        forall|j: int| 0 <= j < k ==> s[j] is Some,
                    decreases stack_len - k,
                {
                    if self.cells[i].1[k].is_none() {
                        proof {
                            lemma_first_none(s);
                            assert(first_none(s) == k);
                        }
                        let mut ns = copy_slots(&self.cells[i].1);
                        ns[k] = Some(piece);
                        let ghost old_grid = *self;
                        self.cells[i] = (location, ns);
                        proof {
                            assert(ns@ == s.update(k as int, Some(piece)));
                            assert(self.cells@[i as int].1@ == ns@);
                            old_grid.lemma_update_entry(*self, i as int);
                            if forall|j: int| first_none(s) < j < s.len() ==> s[j] is None {
                                lemma_somes_fill(s, piece, k as int);
                            }
                        }
                        return true;
                    }
                    k = k + 1;
                }
                proof {
                    assert(!has_free_slot(s));
                }
                false
            },
            None => {
                proof {
                    self.lemma_slots_absent(location);
                    assert(empty_slots()[0] is None);
                    assert(has_free_slot(empty_slots()));
                }
                let mut ns: Vec<Option<Piece>> = Vec::new();
                ns.push(Some(piece));
                let mut k: usize = 1;
                while k < MAX_HEIGHT
                    invariant
                        1 <= k <= MAX_HEIGHT,
                        ns@.len() == k,
                        ns@[0] == Some(piece),
                        forall|j: int| 1 <= j < k ==> ns@[j] is None,
                    decreases MAX_HEIGHT - k,
                {
                    ns.push(None);
                    k = k + 1;
                }
                let ghost old_grid = *self;
                self.cells.push((location, ns));
                proof {
                    assert(ns@[0] is Some);
                    old_grid.lemma_push_entry(*self, location);
                    assert(first_none(empty_slots()) == 0);
                    assert(ns@ =~= empty_slots().update(0, Some(piece)));
                    lemma_somes_fill(empty_slots(), piece, 0);
                    lemma_somes_len(empty_slots());
                }
                true
            },
        }
    }

    /// Remove and return the piece in the lowest occupied slot of the cell;
    /// `None` (and no change) if the cell is empty or out of range.
    pub fn remove(&mut self, location: HexLocation) -> (r: Option<Piece>)
        requires
            old(self).wf(),
        ensures
            final(self).wf(),
            old(self).occ(location) ==> {
                let s = old(self).slots_at(location);
                &&& r == Some(s[first_some(s)].unwrap())
                &&& r == Some(old(self).pieces_at(location)[0])
                &&& final(self).slots_at(location) == s.update(first_some(s), None)
                &&& final(self).pieces_at(location) == old(self).pieces_at(location).drop_first()
                &&& forall|l: HexLocation|
                    l != location ==> #[trigger] final(self).slots_at(l) == old(self).slots_at(l)
            },
            !old(self).occ(location) ==> r is None && grids_equal(*final(self), *old(self)),
    {
        match self.entry_index(location) {
            Some(i) => {
                proof {
                    self.lemma_slots_entry(i as int);
                }
                let ghost s = self.slots_at(location);
                let mut k: usize = 0;
                let stack_len = self.cells[i].1.len();
                while k < stack_len
                    invariant
                        *self == *old(self),
                        self.wf(),
                        0 <= i < self.cells@.len(),
                        self.cells@[i as int].0 == location,
                        stack_len == self.cells@[i as int].1@.len(),
                        k <= stack_len,
                        s == self.cells@[i as int].1@,
                        s == old(self).slots_at(location),
                        forall|j: int| 0 <= j < k ==> s[j] is None,
                    decreases stack_len - k,
                {
                    if let Some(piece) = self.cells[i].1[k] {
                        proof {
                            lemma_first_some(s);
                            assert(first_some(s) == k);
                            lemma_somes_remove(s);
                        }
                        let mut ns = copy_slots(&self.cells[i].1);
                        ns[k] = None;
                        let ghost old_grid = *self;
                        let has_more = any_some(&ns);
                        proof {
                            assert(ns@ == s.update(k as int, None));
                        }
                        if has_more {
                            self.cells[i] = (location, ns);
                            proof {
                                assert(self.cells@[i as int].1@ == s.update(k as int, None));
                                old_grid.lemma_update_entry(*self, i as int);
                            }
                        } else {
                            let ghost gns = ns@;
                            let _ = self.cells.remove(i);
                            proof {
                                old_grid.lemma_remove_entry(*self, i as int);
                                assert forall|j: int| 0 <= j < gns.len() implies gns[j] is None by {
                                    if gns[j] is Some {
                                        assert(has_piece(gns));
                                    }
                                }
                                assert(self.slots_at(location) =~= s.update(k as int, None));
                            }
                        }
                        return Some(piece);
                    }
                    k = k + 1;
                }
                proof {
                    assert(!has_piece(s));
                    assert(!old(self).occ(location));
                }
                None
            },
            None => {
                proof {
                    self.lemma_slots_absent(location);
                }
                None
            },
        }
    }

    /// The pieces at a cell, bottom-to-top; empty if the cell is unoccupied.
    pub fn peek(&self, location: HexLocation) -> (r: Vec<Piece>)
        requires
            self.wf(),
        ensures
            r@ == self.pieces_at(location),
    {
        match self.entry_index(location) {
            Some(i) => {
                proof {
                    self.lemma_slots_entry(i as int);
                }
                let ghost s = self.slots_at(location);
                let mut r: Vec<Piece> = Vec::new();
                let mut k: usize = 0;
                let stack_len = self.cells[i].1.len();
                while k < stack_len
                    invariant
                        0 <= i < self.cells@.len(),
                        stack_len == self.cells@[i as int].1@.len(),
                        k <= stack_len,
                        s == self.cells@[i as int].1@,
                        r@ == somes(s.subrange(0, k as int)),
                    decreases stack_len - k,
                {
                    proof {
                        assert(s.subrange(0, k + 1) =~= s.subrange(0, k as int).push(s[k as int]));
                        lemma_somes_push(s.subrange(0, k as int), s[k as int]);
                    }
                    if let Some(piece) = self.cells[i].1[k] {
                        r.push(piece);
                    }
                    k = k + 1;
                }
                proof {
                    assert(s.subrange(0, s.len() as int) =~= s);
                }
                r
            },
            None => {
                proof {
                    self.lemma_slots_absent(location);
                    lemma_somes_len(empty_slots());
                    assert(self.pieces_at(location) =~= Seq::<Piece>::empty());
                }
                Vec::new()
            },
        }
    }

    /// Whether the cell bears at least one piece.
    pub fn occupied(&self, location: HexLocation) -> (r: bool)
        requires
            self.wf(),
        ensures
            r == self.occ(location),
    {
        match self.entry_index(location) {
            Some(i) => {
                proof {
                    self.lemma_slots_entry(i as int);
                }
                true
            },
            None => {
                proof {
                    self.lemma_slots_absent(location);
                }
                false
            },
        }
    }

    /// Every occupied cell, each exactly once.
    pub fn occupied_locations(&self) -> (r: Vec<HexLocation>)
        requires
            self.wf(),
        ensures
            r@.no_duplicates(),
            forall|l: HexLocation| #[trigger] r@.contains(l) <==> self.occ(l),
            forall|l: HexLocation| #[trigger] r@.contains(l) ==> in_range(l),
    {
        let mut r: Vec<HexLocation> = Vec::new();
        let mut i: usize = 0;
        while i < self.cells.len()
            invariant
                self.wf(),
                i <= self.cells@.len(),
                r@.len() == i,
                forall|j: int| 0 <= j < i ==> r@[j] == (#[trigger] self.cells@[j]).0,
            decreases self.cells@.len() - i,
        {
            r.push(self.cells[i].0);
            i = i + 1;
        }
        proof {
            assert forall|l: HexLocation| #[trigger] r@.contains(l) implies self.occ(l)
                && in_range(l) by {
                let j = choose|j: int| 0 <= j < r@.len() && r@[j] == l;
                self.lemma_slots_entry(j);
            }
            assert forall|l: HexLocation| self.occ(l) implies #[trigger] r@.contains(l) by {
                if forall|j: int| 0 <= j < self.cells@.len() ==> (#[trigger] self.cells@[j]).0
                    != l {
                    self.lemma_slots_absent(l);
                } else {
                    let j = choose|j: int|
                        0 <= j < self.cells@.len() && (#[trigger] self.cells@[j]).0 == l;
                    assert(r@[j] == l);
                }
            }
            assert forall|j: int, k: int| 0 <= j < k < r@.len() implies r@[j] != r@[k] by {
                assert(self.cells@[j].0 != self.cells@[k].0);
            }
        }
        r
    }

    /// Whether the board holds no pieces at all.
    pub fn is_empty(&self) -> (r: bool)
        requires
            self.wf(),
        ensures
            r <==> forall|l: HexLocation| !(#[trigger] self.occ(l)),
    {
        let r = self.cells.len() == 0;
        proof {
            if self.cells@.len() == 0 {
                assert forall|l: HexLocation| !(#[trigger] self.occ(l)) by {
                    self.lemma_slots_absent(l);
                }
            } else {
                self.lemma_slots_entry(0);
            }
        }
        r
    }

    /// One cell (and stack height) bearing a piece equal to the query, if
    /// any; when several exist, which one is returned is unspecified.
    pub fn find(&self, piece: Piece) -> (r: Option<(HexLocation, usize)>)
        requires
            self.wf(),
        ensures
            match r {
                Some(found) => found.1 < self.pieces_at(found.0).len() && self.pieces_at(
                    found.0,
                )[found.1 as int] == piece,
                None => forall|l: HexLocation| !(#[trigger] self.pieces_at(l)).contains(piece),
            },
    {
        let mut i: usize = 0;
        while i < self.cells.len()
            invariant
                self.wf(),
                i <= self.cells@.len(),
                forall|j: int|
                    0 <= j < i ==> !self.pieces_at((#[trigger] self.cells@[j]).0).contains(piece),
            decreases self.cells@.len() - i,
        {
            let location = self.cells[i].0;
            let stack = self.peek(location);
            let mut h: usize = 0;
            while h < stack.len()
                invariant
                    stack@ == self.pieces_at(location),
                    h <= stack@.len(),
                    forall|j: int| 0 <= j < h ==> stack@[j] != piece,
                decreases stack@.len() - h,
            {
                if stack[h] == piece {
                    return Some((location, h));
                }
                h = h + 1;
            }
            proof {
                assert(!self.pieces_at(location).contains(piece));
                assert(location == self.cells@[i as int].0);
            }
            i = i + 1;
        }
        proof {
            assert forall|l: HexLocation| !(#[trigger] self.pieces_at(l)).contains(piece) by {
                if forall|j: int| 0 <= j < self.cells@.len() ==> (#[trigger] self.cells@[j]).0
                    != l {
                    self.lemma_slots_absent(l);
                    lemma_somes_len(empty_slots());
                    assert(self.pieces_at(l).len() == 0);
                } else {
                    let j = choose|j: int|
                        0 <= j < self.cells@.len() && (#[trigger] self.cells@[j]).0 == l;
                    assert(!self.pieces_at(self.cells@[j].0).contains(piece));
                }
            }
        }
        None
    }

    /// Remove the bottom piece at `from` and add it at `to`.
    pub fn move_piece(&mut self, from: HexLocation, to: HexLocation)
        requires
            old(self).wf(),
            old(self).occ(from),
            in_range(to),
            to == from || has_free_slot(old(self).slots_at(to)),
        ensures
            final(self).wf(),
            ({
                let s_from = old(self).slots_at(from);
                let p = s_from[first_some(s_from)].unwrap();
                if from == to {
                    let mid = s_from.update(first_some(s_from), None);
                    &&& final(self).slots_at(from) == mid.update(first_none(mid), Some(p))
                    &&& forall|l: HexLocation|
                        l != from ==> #[trigger] final(self).slots_at(l) == old(self).slots_at(l)
                } else {
                    let s_to = old(self).slots_at(to);
                    &&& final(self).slots_at(from) == s_from.update(first_some(s_from), None)
                    &&& final(self).slots_at(to) == s_to.update(first_none(s_to), Some(p))
                    &&& forall|l: HexLocation|
                        l != from && l != to ==> #[trigger] final(self).slots_at(l) == old(
                            self,
                        ).slots_at(l)
                }
            }),
    {
        proof {
            lemma_first_some(old(self).slots_at(from));
        }
        let piece = self.remove(from);
        match piece {
            Some(p) => {
                proof {
                    if from != to {
                        assert(self.slots_at(to) == old(self).slots_at(to));
                    } else {
                        assert(self.slots_at(to)[first_some(old(self).slots_at(from))] is None);
                        assert(has_free_slot(self.slots_at(to)));
                    }
                }
                let _ = self.add(p, to);
            },
            None => {
                proof {
                    assert(false);
                }
            },
        }
    }
}

/// Whether some neighbour of `l` is in the occupied set `s`.
pub open spec fn has_occupied_neighbor(s: Set<HexLocation>, l: HexLocation) -> bool {
    exists|d: Direction| s.contains(#[trigger] spec_apply(l, d)) && !coords_wrap(l, d)
}

/// The perimeter: `l` is unoccupied but touches the occupied set `s`.
pub open spec fn outside_spec(s: Set<HexLocation>, l: HexLocation) -> bool {
    !s.contains(l) && has_occupied_neighbor(s, l)
}

/// The freedom-to-move rule: the two cells flanking the edge from `a` in
/// direction `d` are not both occupied.
pub open spec fn gate_open(s: Set<HexLocation>, a: HexLocation, d: Direction) -> bool {
    !s.contains(spec_apply(a, dir_cw(d))) || !s.contains(spec_apply(a, dir_ccw(d)))
}

/// A topmost piece at `a` may slide one step in direction `d`: the target
/// is unoccupied and the edge is not a gate. This primitive is purely
/// local and does not itself keep the piece in contact with the hive;
/// the per-piece algorithms add contact where their rules demand it.
pub open spec fn slide_ok(s: Set<HexLocation>, a: HexLocation, d: Direction) -> bool {
    !s.contains(spec_apply(a, d)) && gate_open(s, a, d)
}

/// `b` is a cell a topmost piece at `a` may slide onto in one step.
pub open spec fn slidable_spec(s: Set<HexLocation>, a: HexLocation, b: HexLocation) -> bool {
    exists|d: Direction| b == #[trigger] spec_apply(a, d) && slide_ok(s, a, d)
}

/// The crossed edge touches the hive: at least one of its two flanking
/// cells is occupied, so the piece slides along tiles rather than across
/// open ground.
pub open spec fn flank_contact(s: Set<HexLocation>, a: HexLocation, d: Direction) -> bool {
    s.contains(spec_apply(a, dir_cw(d))) || s.contains(spec_apply(a, dir_ccw(d)))
}

/// A contact-keeping slide: an ordinary slide whose crossed edge has an
/// occupied flanking cell. This is the spider's step.
pub open spec fn contact_slide_ok(s: Set<HexLocation>, a: HexLocation, d: Direction) -> bool {
    slide_ok(s, a, d) && flank_contact(s, a, d)
}

/// `b` is a cell reachable from `a` by one contact-keeping slide.
pub open spec fn contact_slidable_spec(
    s: Set<HexLocation>,
    a: HexLocation,
    b: HexLocation,
) -> bool {
    exists|d: Direction| b == #[trigger] spec_apply(a, d) && contact_slide_ok(s, a, d)
}

/// A contact-keeping slide never loses touch with the hive: the occupied
/// flanking cell of the crossed edge is adjacent to the target as well,
/// so the target has an occupied neighbour.
pub proof fn lemma_contact_slide_touches(s: Set<HexLocation>, b: HexLocation, d: Direction)
    requires
        contact_slide_ok(s, b, d),
        -100 <= b.x <= 100,
        -100 <= b.y <= 100,
    ensures
        has_occupied_neighbor(s, spec_apply(b, d)),
{
    let x = spec_apply(b, d);
    if s.contains(spec_apply(b, dir_cw(d))) {
        let back = match d {
            Direction::NW => Direction::E,
            Direction::NE => Direction::SE,
            Direction::E => Direction::SW,
            Direction::SE => Direction::W,
            Direction::SW => Direction::NW,
            Direction::W => Direction::NE,
        };
        assert(spec_apply(x, back) == spec_apply(b, dir_cw(d)) && !coords_wrap(x, back));
    } else {
        let back = match d {
            Direction::NW => Direction::SW,
            Direction::NE => Direction::W,
            Direction::E => Direction::NW,
            Direction::SE => Direction::NE,
            Direction::SW => Direction::E,
            Direction::W => Direction::SE,
        };
        assert(spec_apply(x, back) == spec_apply(b, dir_ccw(d)) && !coords_wrap(x, back));
    }
}

/// A contact-keeping slide is in particular a slide.
pub proof fn lemma_contact_slidable_is_slidable(
    s: Set<HexLocation>,
    a: HexLocation,
    b: HexLocation,
)
    requires
        contact_slidable_spec(s, a, b),
    ensures
        slidable_spec(s, a, b),
{
    let d = choose|d: Direction| b == #[trigger] spec_apply(a, d) && contact_slide_ok(s, a, d);
    assert(b == spec_apply(a, d) && slide_ok(s, a, d));
}

/// Every direction occurs in the fixed enumeration.
pub proof fn lemma_all_directions(d: Direction)
    ensures
        all_directions().contains(d),
{
    match d {
        Direction::NW => assert(all_directions()[0] == d),
        Direction::NE => assert(all_directions()[1] == d),
        Direction::E => assert(all_directions()[2] == d),
        Direction::SE => assert(all_directions()[3] == d),
        Direction::SW => assert(all_directions()[4] == d),
        Direction::W => assert(all_directions()[5] == d),
    }
}

/// Stepping back along the opposite direction returns to the start.
pub proof fn lemma_apply_inverse(l: HexLocation, d: Direction)
    requires
        !coords_wrap(l, d),
    ensures
        spec_apply(spec_apply(l, d), dir_opposite(d)) == l,
        !coords_wrap(spec_apply(l, d), dir_opposite(d)),
{
}

pub(crate) fn loc_vec_contains(v: &Vec<HexLocation>, l: HexLocation) -> (r: bool)
    ensures
        r == v@.contains(l),
{
    let mut i: usize = 0;
    while i < v.len()
        invariant
            i <= v@.len(),
            forall|j: int| 0 <= j < i ==> v@[j] != l,
        decreases v@.len() - i,
    {
        if v[i] == l {
            return true;
        }
        i = i + 1;
    }
    false
}

impl HexGrid {
    /// The six neighbouring coordinates of a cell, in the fixed direction
    /// order.
    pub fn neighbors_of(&self, location: HexLocation) -> (r: Vec<HexLocation>)
        requires
            -100 <= location.x <= 100,
            -100 <= location.y <= 100,
        ensures
            r@.len() == 6,
            forall|i: int| 0 <= i < 6 ==> r@[i] == spec_apply(location, all_directions()[i]),
            forall|b: HexLocation| #[trigger] r@.contains(b) <==> adjacent(location, b),
    {
        let dirs = Direction::all();
        let mut r: Vec<HexLocation> = Vec::new();
        let mut i: usize = 0;
        while i < 6
            invariant
                -100 <= location.x <= 100,
                -100 <= location.y <= 100,
                i <= 6,
                r@.len() == i,
                dirs@ == all_directions(),
                forall|j: int|
                    0 <= j < i ==> r@[j] == spec_apply(location, all_directions()[j])
                        && !coords_wrap(location, all_directions()[j]),
            decreases 6 - i,
        {
            r.push(location.apply(dirs[i]));
            i = i + 1;
        }
        proof {
            assert forall|b: HexLocation| #[trigger] r@.contains(b) implies adjacent(
                location,
                b,
            ) by {
                let j = choose|j: int| 0 <= j < r@.len() && r@[j] == b;
            }
            assert forall|b: HexLocation| adjacent(location, b) implies #[trigger] r@.contains(
                b,
            ) by {
                let d = choose|d: Direction|
                    #[trigger] spec_apply(location, d) == b && !coords_wrap(location, d);
                lemma_all_directions(d);
                let j = choose|j: int| 0 <= j < all_directions().len() && all_directions()[j] == d;
                assert(r@[j] == b);
            }
        }
        r
    }

    /// The neighbouring cells that bear a piece, each exactly once.
    pub fn occupied_neighbors(&self, location: HexLocation) -> (r: Vec<HexLocation>)
        requires
            self.wf(),
            -100 <= location.x <= 100,
            -100 <= location.y <= 100,
        ensures
            r@.no_duplicates(),
            forall|n: HexLocation|
                #[trigger] r@.contains(n) <==> adjacent(location, n) && self.occ(n),
            r@.len() > 0 <==> has_occupied_neighbor(self.occ_set(), location),
    {
        let neighbors = self.neighbors_of(location);
        let mut r: Vec<HexLocation> = Vec::new();
        let mut i: usize = 0;
        while i < neighbors.len()
            invariant
                self.wf(),
                i <= neighbors@.len(),
                r@.no_duplicates(),
                forall|n: HexLocation|
                    #[trigger] r@.contains(n) <==> exists|j: int|
                        0 <= j < i && neighbors@[j] == n && self.occ(n),
            decreases neighbors@.len() - i,
        {
            let n = neighbors[i];
            if self.occupied(n) && !loc_vec_contains(&r, n) {
                r.push(n);
            }
            proof {
                assert forall|m: HexLocation| #[trigger] r@.contains(m) implies exists|j: int|
                    0 <= j < i + 1 && neighbors@[j] == m && self.occ(m) by {
                    if m == n && self.occ(n) {
                        assert(neighbors@[i as int] == m);
                    }
                }
            }
            i = i + 1;
        }
        proof {
            assert forall|n: HexLocation| #[trigger] r@.contains(n) implies adjacent(location, n)
                && self.occ(n) by {
                assert(neighbors@.contains(n));
            }
            assert forall|n: HexLocation| adjacent(location, n) && self.occ(n)
                implies #[trigger] r@.contains(n) by {
                assert(neighbors@.contains(n));
                let j = choose|j: int| 0 <= j < neighbors@.len() && neighbors@[j] == n;
            }
            if has_occupied_neighbor(self.occ_set(), location) {
                let d = choose|d: Direction|
                    self.occ_set().contains(#[trigger] spec_apply(location, d)) && !coords_wrap(
                        location,
                        d,
                    );
                lemma_all_directions(d);
                let j = choose|j: int| 0 <= j < all_directions().len() && all_directions()[j] == d;
                assert(neighbors@[j] == spec_apply(location, d));
                assert(r@.contains(spec_apply(location, d)));
            }
            if r@.len() > 0 {
                let n = r@[0];
                assert(r@.contains(n));
                let d = choose|d: Direction|
                    #[trigger] spec_apply(location, d) == n && !coords_wrap(location, d);
                assert(self.occ_set().contains(spec_apply(location, d)));
            }
        }
        r
    }

    /// The cells a topmost piece at `location` may slide onto in one step:
    /// unoccupied neighbours whose shared edge has at least one unoccupied
    /// flanking cell.
    pub fn slidable(&self, location: HexLocation) -> (r: Vec<HexLocation>)
        requires
            self.wf(),
            -100 <= location.x <= 100,
            -100 <= location.y <= 100,
        ensures
            r@.no_duplicates(),
            forall|b: HexLocation|
                #[trigger] r@.contains(b) <==> slidable_spec(self.occ_set(), location, b),
    {
        let dirs = Direction::all();
        let mut r: Vec<HexLocation> = Vec::new();
        let mut i: usize = 0;
        while i < 6
            invariant
                self.wf(),
                -100 <= location.x <= 100,
                -100 <= location.y <= 100,
                i <= 6,
                dirs@ == all_directions(),
                r@.no_duplicates(),
                forall|b: HexLocation|
                    #[trigger] r@.contains(b) <==> exists|j: int|
                        0 <= j < i && b == spec_apply(location, all_directions()[j]) && slide_ok(
                            self.occ_set(),
                            location,
                            all_directions()[j],
                        ),
            decreases 6 - i,
        {
            let d = dirs[i];
            let n = location.apply(d);
            let ghost prev = r@;
            if !self.occupied(n) {
                let (f1, f2) = d.flanking();
                if !self.occupied(location.apply(f1)) || !self.occupied(location.apply(f2)) {
                    if !loc_vec_contains(&r, n) {
                        r.push(n);
                    }
                }
            }
            proof {
                assert forall|b: HexLocation| #[trigger] r@.contains(b) implies exists|j: int|
                    0 <= j < i + 1 && b == spec_apply(location, all_directions()[j]) && slide_ok(
                        self.occ_set(),
                        location,
                        all_directions()[j],
                    ) by {
                    if prev.contains(b) {
                        let j = choose|j: int|
                            0 <= j < i && b == spec_apply(location, all_directions()[j])
                                && slide_ok(self.occ_set(), location, all_directions()[j]);
                    } else {
                        assert(b == n && slide_ok(self.occ_set(), location, d));
                        assert(all_directions()[i as int] == d);
                    }
                }
                assert forall|b: HexLocation|
                    (exists|j: int|
                        0 <= j < i + 1 && b == spec_apply(location, all_directions()[j])
                            && slide_ok(
                            self.occ_set(),
                            location,
                            all_directions()[j],
                        )) implies #[trigger] r@.contains(b) by {
                    let j = choose|j: int|
                        0 <= j < i + 1 && b == spec_apply(location, all_directions()[j])
                            && slide_ok(self.occ_set(), location, all_directions()[j]);
                    if j < i {
                        assert(prev.contains(b));
                        assert(r@.contains(b)) by {
                            if r@ != prev {
                                assert(r@ == prev.push(n));
                            }
                        }
                    }
                }
            }
            i = i + 1;
        }
        proof {
            assert forall|b: HexLocation| #[trigger] r@.contains(b) implies slidable_spec(
                self.occ_set(),
                location,
                b,
            ) by {
                let j = choose|j: int|
                    0 <= j < 6 && b == spec_apply(location, all_directions()[j]) && slide_ok(
                        self.occ_set(),
                        location,
                        all_directions()[j],
                    );
            }
            assert forall|b: HexLocation| slidable_spec(self.occ_set(), location, b)
                implies #[trigger] r@.contains(b) by {
                let d = choose|d: Direction|
                    b == #[trigger] spec_apply(location, d) && slide_ok(
                        self.occ_set(),
                        location,
                        d,
                    );
                lemma_all_directions(d);
                let j = choose|j: int| 0 <= j < all_directions().len() && all_directions()[j] == d;
            }
        }
        r
    }

    /// The cells a topmost piece at `location` may slide onto in one
    /// contact-keeping step: slide targets whose crossed edge has an
    /// occupied flanking cell, so the piece hugs the hive instead of
    /// drifting across open ground.
    pub fn slidable_keeping_contact(&self, location: HexLocation) -> (r: Vec<HexLocation>)
        requires
            self.wf(),
            -100 <= location.x <= 100,
            -100 <= location.y <= 100,
        ensures
            r@.no_duplicates(),
            forall|b: HexLocation|
                #[trigger] r@.contains(b) <==> contact_slidable_spec(self.occ_set(), location, b),
    {
        let dirs = Direction::all();
        let mut r: Vec<HexLocation> = Vec::new();
        let mut i: usize = 0;
        while i < 6
            invariant
                self.wf(),
                -100 <= location.x <= 100,
                -100 <= location.y <= 100,
                i <= 6,
                dirs@ == all_directions(),
                r@.no_duplicates(),
                forall|b: HexLocation|
                    #[trigger] r@.contains(b) <==> exists|j: int|
                        0 <= j < i && b == spec_apply(location, all_directions()[j]) && contact_slide_ok(
                            self.occ_set(),
                            location,
                            all_directions()[j],
                        ),
            decreases 6 - i,
        {
            let d = dirs[i];
            let n = location.apply(d);
            let ghost prev = r@;
            if !self.occupied(n) {
                let (f1, f2) = d.flanking();
                let cw_occupied = self.occupied(location.apply(f1));
                let ccw_occupied = self.occupied(location.apply(f2));
                if (!cw_occupied || !ccw_occupied) && (cw_occupied || ccw_occupied) {
                    if !loc_vec_contains(&r, n) {
                        r.push(n);
                    }
                }
            }
            proof {
                assert forall|b: HexLocation| #[trigger] r@.contains(b) implies exists|j: int|
                    0 <= j < i + 1 && b == spec_apply(location, all_directions()[j]) && contact_slide_ok(
                        self.occ_set(),
                        location,
                        all_directions()[j],
                    ) by {
                    if prev.contains(b) {
                        let j = choose|j: int|
                            0 <= j < i && b == spec_apply(location, all_directions()[j])
                                && contact_slide_ok(self.occ_set(), location, all_directions()[j]);
                    } else {
                        assert(b == n && contact_slide_ok(self.occ_set(), location, d));
                        assert(all_directions()[i as int] == d);
                    }
                }
                assert forall|b: HexLocation|
                    (exists|j: int|
                        0 <= j < i + 1 && b == spec_apply(location, all_directions()[j])
                            && contact_slide_ok(
                            self.occ_set(),
                            location,
                            all_directions()[j],
                        )) implies #[trigger] r@.contains(b) by {
                    let j = choose|j: int|
                        0 <= j < i + 1 && b == spec_apply(location, all_directions()[j])
                            && contact_slide_ok(self.occ_set(), location, all_directions()[j]);
                    if j < i {
                        assert(prev.contains(b));
                        assert(r@.contains(b)) by {
                            if r@ != prev {
                                assert(r@ == prev.push(n));
                            }
                        }
                    }
                }
            }
            i = i + 1;
        }
        proof {
            assert forall|b: HexLocation| #[trigger] r@.contains(b) implies contact_slidable_spec(
                self.occ_set(),
                location,
                b,
            ) by {
                let j = choose|j: int|
                    0 <= j < 6 && b == spec_apply(location, all_directions()[j]) && contact_slide_ok(
                        self.occ_set(),
                        location,
                        all_directions()[j],
                    );
            }
            assert forall|b: HexLocation| contact_slidable_spec(self.occ_set(), location, b)
                implies #[trigger] r@.contains(b) by {
                let d = choose|d: Direction|
                    b == #[trigger] spec_apply(location, d) && contact_slide_ok(
                        self.occ_set(),
                        location,
                        d,
                    );
                lemma_all_directions(d);
                let j = choose|j: int| 0 <= j < all_directions().len() && all_directions()[j] == d;
            }
        }
        r
    }


    /// The perimeter of the hive: every unoccupied cell adjacent to at
    /// least one occupied cell, each exactly once.
    pub fn outside(&self) -> (r: Vec<HexLocation>)
        requires
            self.wf(),
        ensures
            r@.no_duplicates(),
            forall|l: HexLocation|
                #[trigger] r@.contains(l) <==> outside_spec(self.occ_set(), l),
    {
        let occ_locs = self.occupied_locations();
        let mut r: Vec<HexLocation> = Vec::new();
        let mut i: usize = 0;
        while i < occ_locs.len()
            invariant
                self.wf(),
                i <= occ_locs@.len(),
                r@.no_duplicates(),
                forall|l: HexLocation| #[trigger] occ_locs@.contains(l) <==> self.occ(l),
                forall|l: HexLocation| #[trigger] occ_locs@.contains(l) ==> in_range(l),
                forall|l: HexLocation|
                    #[trigger] r@.contains(l) <==> !self.occ(l) && exists|j: int, d: Direction|
                        0 <= j < i && l == #[trigger] spec_apply(occ_locs@[j], d)
                            && !coords_wrap(occ_locs@[j], d),
            decreases occ_locs@.len() - i,
        {
            let o = occ_locs[i];
            proof {
                assert(occ_locs@.contains(o));
            }
            let neighbors = self.neighbors_of(o);
            let mut t: usize = 0;
            while t < 6
                invariant
                    self.wf(),
                    0 <= i < occ_locs@.len(),
                    o == occ_locs@[i as int],
                    in_range(o),
                    t <= 6,
                    neighbors@.len() == 6,
                    r@.no_duplicates(),
                    forall|k: int|
                        0 <= k < 6 ==> neighbors@[k] == spec_apply(o, all_directions()[k])
                            && !coords_wrap(o, all_directions()[k]),
                    forall|l: HexLocation|
                        #[trigger] r@.contains(l) <==> !self.occ(l) && (exists|
                            j: int,
                            d: Direction,
                        |
                            0 <= j < i && l == #[trigger] spec_apply(occ_locs@[j], d)
                                && !coords_wrap(occ_locs@[j], d)) || (exists|k: int|
                            0 <= k < t && l == neighbors@[k] && !self.occ(l)),
                decreases 6 - t,
            {
                let n = neighbors[t];
                let ghost prev = r@;
                if !self.occupied(n) && !loc_vec_contains(&r, n) {
                    r.push(n);
                }
                proof {
                    assert forall|l: HexLocation| #[trigger] r@.contains(l) implies !self.occ(l)
                        && (exists|j: int, d: Direction|
                        0 <= j < i && l == #[trigger] spec_apply(occ_locs@[j], d)
                            && !coords_wrap(occ_locs@[j], d)) || (exists|k: int|
                        0 <= k < t + 1 && l == neighbors@[k] && !self.occ(l)) by {
                        if !prev.contains(l) {
                            assert(l == n && !self.occ(l));
                            assert(neighbors@[t as int] == l);
                        }
                    }
                    assert forall|l: HexLocation|
                        !self.occ(l) && (exists|j: int, d: Direction|
                            0 <= j < i && l == #[trigger] spec_apply(occ_locs@[j], d)
                                && !coords_wrap(occ_locs@[j], d)) || (exists|k: int|
                            0 <= k < t + 1 && l == neighbors@[k] && !self.occ(l))
                        implies #[trigger] r@.contains(l) by {
                        if exists|k: int| 0 <= k < t + 1 && l == neighbors@[k] && !self.occ(l) {
                            let k = choose|k: int|
                                0 <= k < t + 1 && l == neighbors@[k] && !self.occ(l);
                            if k < t {
                                assert(prev.contains(l));
                            } else {
                                assert(l == n);
                            }
                        } else {
                            assert(prev.contains(l));
                        }
                        if prev.contains(l) && r@ != prev {
                            assert(r@ == prev.push(n));
                        }
                    }
                }
                t = t + 1;
            }
            proof {
                assert forall|l: HexLocation| #[trigger] r@.contains(l) implies !self.occ(l)
                    && exists|j: int, d: Direction|
                    0 <= j < i + 1 && l == #[trigger] spec_apply(occ_locs@[j], d)
                        && !coords_wrap(occ_locs@[j], d) by {
                    if exists|k: int| 0 <= k < 6 && l == neighbors@[k] && !self.occ(l) {
                        let k = choose|k: int| 0 <= k < 6 && l == neighbors@[k] && !self.occ(l);
                        assert(l == spec_apply(occ_locs@[i as int], all_directions()[k])
                            && !coords_wrap(occ_locs@[i as int], all_directions()[k]));
                    }
                }
                assert forall|l: HexLocation|
                    !self.occ(l) && (exists|j: int, d: Direction|
                        0 <= j < i + 1 && l == #[trigger] spec_apply(occ_locs@[j], d)
                            && !coords_wrap(occ_locs@[j], d)) implies #[trigger] r@.contains(
                    l,
                ) by {
                    let (j, d) = choose|j: int, d: Direction|
                        0 <= j < i + 1 && l == #[trigger] spec_apply(occ_locs@[j], d)
                            && !coords_wrap(occ_locs@[j], d);
                    if j == i {
                        lemma_all_directions(d);
                        let k = choose|k: int|
                            0 <= k < all_directions().len() && all_directions()[k] == d;
                        assert(neighbors@[k] == l);
                    }
                }
            }
            i = i + 1;
        }
        proof {
            assert forall|l: HexLocation| #[trigger] r@.contains(l) implies outside_spec(
                self.occ_set(),
                l,
            ) by {
                let (j, d) = choose|j: int, d: Direction|
                    0 <= j < occ_locs@.len() && l == #[trigger] spec_apply(occ_locs@[j], d)
                        && !coords_wrap(occ_locs@[j], d);
                let o = occ_locs@[j];
                assert(occ_locs@.contains(o));
                lemma_apply_inverse(o, d);
                assert(self.occ_set().contains(spec_apply(l, dir_opposite(d))));
            }
            assert forall|l: HexLocation| outside_spec(self.occ_set(), l)
                implies #[trigger] r@.contains(l) by {
                let d = choose|d: Direction|
                    self.occ_set().contains(#[trigger] spec_apply(l, d)) && !coords_wrap(l, d);
                let o = spec_apply(l, d);
                assert(occ_locs@.contains(o));
                let j = choose|j: int| 0 <= j < occ_locs@.len() && occ_locs@[j] == o;
                lemma_apply_inverse(l, d);
                assert(l == spec_apply(occ_locs@[j], dir_opposite(d)) && !coords_wrap(
                    occ_locs@[j],
                    dir_opposite(d),
                ));
            }
        }
        r
    }
}

impl Clone for HexGrid {
    /// A deep copy: the clone agrees with the source board on every cell.
    fn clone(&self) -> (r: Self)
        ensures
            self.wf() ==> r.wf() && grids_equal(r, *self),
    {
        let mut cells: Vec<(HexLocation, Vec<Option<Piece>>)> = Vec::new();
        let mut i: usize = 0;
        while i < self.cells.len()
            invariant
                i <= self.cells@.len(),
                cells@.len() == i,
                forall|j: int|
                    0 <= j < i ==> (#[trigger] cells@[j]).0 == self.cells@[j].0 && cells@[j].1@
                        == self.cells@[j].1@,
            decreases self.cells@.len() - i,
        {
            let loc = self.cells[i].0;
            let ns = copy_slots(&self.cells[i].1);
            cells.push((loc, ns));
            i = i + 1;
        }
        let r = HexGrid { cells };
        proof {
            if self.wf() {
                assert(r.wf());
                assert forall|l: HexLocation| #[trigger] r.slots_at(l) == self.slots_at(l) by {
                    if exists|j: int|
                        0 <= j < self.cells@.len() && (#[trigger] self.cells@[j]).0 == l {
                        let j = choose|j: int|
                            0 <= j < self.cells@.len() && (#[trigger] self.cells@[j]).0 == l;
                        self.lemma_slots_entry(j);
                        assert(r.cells@[j].0 == l);
                        r.lemma_slots_entry(j);
                    } else {
                        self.lemma_slots_absent(l);
                        assert forall|j: int|
                            0 <= j < r.cells@.len() implies (#[trigger] r.cells@[j]).0 != l by {
                            assert(self.cells@[j].0 != l);
                        }
                        r.lemma_slots_absent(l);
                    }
                }
            }
        }
        r
    }
}

} // verus!
