//! The per-piece move generator: a stateless computation over a board
//! snapshot. For a chosen occupied cell it produces one new board per legal
//! destination of the piece kind recorded there; a pinned piece yields none.

use vstd::prelude::*;

use crate::connectivity::hive_connected;
use crate::connectivity::lemma_chain_monotone;
use crate::connectivity::lemma_closed_under_edges;
use crate::connectivity::lemma_linked_refl;
use crate::connectivity::lemma_linked_step;
use crate::connectivity::lemma_linked_trans;
use crate::connectivity::lemma_push_no_duplicates;
use crate::connectivity::is_chain;
use crate::connectivity::linked;
use crate::connectivity::occ_edge;
use crate::connectivity::occ_set_after_lift;
use crate::connectivity::pinned_spec;
use crate::hex_grid::Direction;
use crate::hex_grid::HexGrid;
use crate::hex_grid::loc_vec_contains;
use crate::hex_grid::HexLocation;
use crate::hex_grid::PieceType;
use crate::hex_grid::adjacent;
use crate::hex_grid::all_directions;
use crate::hex_grid::contact_slidable_spec;
use crate::hex_grid::coords_wrap;
use crate::hex_grid::dir_dx;
use crate::hex_grid::dir_dy;
use crate::hex_grid::dir_opposite;
use crate::hex_grid::empty_slots;
use crate::hex_grid::first_none;
use crate::hex_grid::grids_equal;
use crate::hex_grid::has_free_slot;
use crate::hex_grid::has_occupied_neighbor;
use crate::hex_grid::has_piece;
use crate::hex_grid::in_range;
use crate::hex_grid::lemma_adjacent_symmetric;
use crate::hex_grid::lemma_all_directions;
use crate::hex_grid::lemma_apply_inverse;
use crate::hex_grid::lemma_contact_slidable_is_slidable;
use crate::hex_grid::lemma_contact_slide_touches;
use crate::hex_grid::lemma_first_some;
use crate::hex_grid::lemma_somes_len;
use crate::hex_grid::lemma_somes_remove;
use crate::hex_grid::outside_spec;
use crate::hex_grid::slidable_spec;
use crate::hex_grid::spec_apply;

verus! {

broadcast use vstd::seq_lib::group_seq_properties;

/// A single-slide move of the piece at `from`: unoccupied target, open
/// gate, and the target keeps contact with the remaining hive. This is
/// both the queen's move rule and one step of the ant's walk, stated over
/// the occupied set with the moving piece lifted off.
pub open spec fn queen_dest(s: Set<HexLocation>, from: HexLocation, d: HexLocation) -> bool {
    slidable_spec(s, from, d) && has_occupied_neighbor(s, d)
}

/// The edge relation of the ant's walk: one hive-contact-keeping slide.
pub open spec fn slide_edge(s: Set<HexLocation>) -> spec_fn(HexLocation, HexLocation) -> bool {
    |a: HexLocation, b: HexLocation| queen_dest(s, a, b)
}

/// An ant destination: reachable from `from` by hive-contact-keeping
/// slides on the ant-removed board, other than the starting cell itself.
pub open spec fn ant_dest(s: Set<HexLocation>, from: HexLocation, d: HexLocation) -> bool {
    linked(slide_edge(s), from, d) && d != from
}

/// A spider destination: the end of a path of exactly three
/// contact-keeping slides on the spider-removed board that never
/// revisits a cell of the path.
pub open spec fn spider_dest(s: Set<HexLocation>, from: HexLocation, x: HexLocation) -> bool {
    exists|a: HexLocation, b: HexLocation|
        #![trigger contact_slidable_spec(s, from, a), contact_slidable_spec(s, a, b)]
        contact_slidable_spec(s, from, a) && contact_slidable_spec(s, a, b) && contact_slidable_spec(s, b, x) && b != from
            && x != from && x != a
}

/// The last two slides of a spider path whose first slide reached `a`.
pub open spec fn spider_tail(s: Set<HexLocation>, from: HexLocation, a: HexLocation, x: HexLocation) -> bool {
    exists|b: HexLocation|
        #[trigger] contact_slidable_spec(s, a, b) && b != from && contact_slidable_spec(s, b, x) && x != from && x
            != a
}

/// The coordinate `k` steps from `from` in direction `d`.
pub open spec fn ray_loc(from: HexLocation, d: Direction, k: int) -> HexLocation {
    HexLocation { x: (from.x + k * dir_dx(d)) as i8, y: (from.y + k * dir_dy(d)) as i8 }
}

/// Whether that coordinate stays representable.
pub open spec fn ray_fits(from: HexLocation, d: Direction, k: int) -> bool {
    &&& i8::MIN <= from.x + k * dir_dx(d) <= i8::MAX
    &&& i8::MIN <= from.y + k * dir_dy(d) <= i8::MAX
}

/// The first `k` cells of the ray from `from` in direction `d` are all
/// occupied.
pub open spec fn gh_run(s: Set<HexLocation>, from: HexLocation, d: Direction, k: int) -> bool {
    forall|i: int|
        1 <= i <= k ==> ray_fits(from, d, i) && s.contains(#[trigger] ray_loc(from, d, i))
}

/// A grasshopper landing in direction `d`: the first unoccupied cell past
/// a straight line of at least one occupied cell.
pub open spec fn gh_dest(
    s: Set<HexLocation>,
    from: HexLocation,
    d: Direction,
    land: HexLocation,
) -> bool {
    exists|k: int|
        1 <= k && #[trigger] gh_run(s, from, d, k) && ray_fits(from, d, k + 1) && land == ray_loc(
            from,
            d,
            k + 1,
        ) && !s.contains(land)
}

/// One ray step is one application of the direction.
pub proof fn lemma_ray_step(from: HexLocation, d: Direction, k: int)
    requires
        ray_fits(from, d, k),
        ray_fits(from, d, k + 1),
    ensures
        spec_apply(ray_loc(from, d, k), d) == ray_loc(from, d, k + 1),
        !coords_wrap(ray_loc(from, d, k), d),
        ray_loc(from, d, 0) == from,
{
    assert(k * dir_dx(d) + dir_dx(d) == (k + 1) * dir_dx(d)) by (nonlinear_arith);
    assert(k * dir_dy(d) + dir_dy(d) == (k + 1) * dir_dy(d)) by (nonlinear_arith);
    assert(0 * dir_dx(d) == 0 && 0 * dir_dy(d) == 0) by (nonlinear_arith);
}

/// The board after one piece is lifted off `from` and set down on the
/// empty cell `to`; everything else is untouched.
pub open spec fn lifts_to(g: HexGrid, from: HexLocation, to: HexLocation, g2: HexGrid) -> bool {
    &&& g2.wf()
    &&& g2.slots_at(from) == empty_slots()
    &&& g2.slots_at(to) == empty_slots().update(0, Some(g.pieces_at(from)[0]))
    &&& forall|l: HexLocation|
        l != from && l != to ==> #[trigger] g2.slots_at(l) == g.slots_at(l)
}

/// The occupied set of a moved board: the source empties, the target
/// fills.
pub proof fn lemma_lift_occ_set(g: HexGrid, from: HexLocation, to: HexLocation, g2: HexGrid)
    requires
        g.wf(),
        lifts_to(g, from, to, g2),
        g.pieces_at(from).len() == 1,
        to != from,
    ensures
        g2.occ_set() =~= g.occ_set().remove(from).insert(to),
{
    assert(!has_piece(empty_slots()));
    assert(empty_slots().update(0, Some(g.pieces_at(from)[0]))[0] is Some);
    assert(has_piece(g2.slots_at(to)));
    assert forall|l: HexLocation|
        g2.occ_set().contains(l) <==> g.occ_set().remove(from).insert(to).contains(l) by {
        if l != from && l != to {
            assert(g2.slots_at(l) == g.slots_at(l));
        }
    }
}

/// The produced boards realise exactly the wanted destinations: `ds`
/// lists, exactly once each, precisely the cells that satisfy `ok` and
/// that the bounded storage can hold, and board `j` is the move of the
/// lifted piece to `ds[j]`.
pub open spec fn moves_match(
    g: HexGrid,
    from: HexLocation,
    ds: Seq<HexLocation>,
    results: Seq<HexGrid>,
    ok: spec_fn(HexLocation) -> bool,
) -> bool {
    &&& ds.len() == results.len()
    &&& ds.no_duplicates()
    &&& forall|j: int| 0 <= j < ds.len() ==> lifts_to(g, from, #[trigger] ds[j], results[j])
    &&& forall|dest: HexLocation| #[trigger] ds.contains(dest) <==> ok(dest) && in_range(dest)
}

/// An ant destination over the ant-removed occupied set.
pub open spec fn ant_ok(s: Set<HexLocation>, from: HexLocation) -> spec_fn(HexLocation) -> bool {
    |d: HexLocation| ant_dest(s, from, d)
}


/// A spider destination over the spider-removed occupied set.
pub open spec fn spider_ok(s: Set<HexLocation>, from: HexLocation) -> spec_fn(HexLocation) -> bool {
    |x: HexLocation| spider_dest(s, from, x)
}


/// The queen's destination predicate over the queen-removed occupied set.
pub open spec fn queen_ok(s: Set<HexLocation>, from: HexLocation) -> spec_fn(HexLocation) -> bool {
    |d: HexLocation| queen_dest(s, from, d)
}


/// A grasshopper landing cell for some direction.
pub open spec fn gh_ok(s: Set<HexLocation>, from: HexLocation) -> spec_fn(HexLocation) -> bool {
    |land: HexLocation| exists|d: Direction| #[trigger] gh_dest(s, from, d, land)
}


/// In one direction there is at most one grasshopper landing: the first
/// gap in the ray is unique.
pub proof fn lemma_gh_unique(
    s: Set<HexLocation>,
    from: HexLocation,
    d: Direction,
    l1: HexLocation,
    l2: HexLocation,
)
    requires
        gh_dest(s, from, d, l1),
        gh_dest(s, from, d, l2),
    ensures
        l1 == l2,
{
    let k1 = choose|k: int|
        1 <= k && #[trigger] gh_run(s, from, d, k) && ray_fits(from, d, k + 1) && l1 == ray_loc(
            from,
            d,
            k + 1,
        ) && !s.contains(l1);
    let k2 = choose|k: int|
        1 <= k && #[trigger] gh_run(s, from, d, k) && ray_fits(from, d, k + 1) && l2 == ray_loc(
            from,
            d,
            k + 1,
        ) && !s.contains(l2);
    if k1 < k2 {
        assert(s.contains(ray_loc(from, d, k1 + 1)));
    } else if k2 < k1 {
        assert(s.contains(ray_loc(from, d, k2 + 1)));
    }
}

/// A grasshopper landing is a fresh cell still touching the hive after
/// the grasshopper itself is lifted off.
pub proof fn lemma_gh_land_contact(
    s: Set<HexLocation>,
    from: HexLocation,
    d: Direction,
    land: HexLocation,
)
    requires
        gh_dest(s, from, d, land),
        s.contains(from),
        forall|l: HexLocation| s.contains(l) ==> in_range(l),
    ensures
        land != from,
        !s.remove(from).contains(land),
        has_occupied_neighbor(s.remove(from), land),
        -100 <= land.x <= 100,
        -100 <= land.y <= 100,
    {
    let k = choose|k: int|
        1 <= k && #[trigger] gh_run(s, from, d, k) && ray_fits(from, d, k + 1) && land == ray_loc(
            from,
            d,
            k + 1,
        ) && !s.contains(land);
    let stop = ray_loc(from, d, k);
    assert(s.contains(stop));
    assert(in_range(stop));
    lemma_ray_step(from, d, k);
    assert(land == spec_apply(stop, d) && !coords_wrap(stop, d));
    assert(stop != from) by {
        assert(dir_dx(d) != 0 ==> k * dir_dx(d) != 0) by (nonlinear_arith)
            requires 1 <= k;
        assert(dir_dy(d) != 0 ==> k * dir_dy(d) != 0) by (nonlinear_arith)
            requires 1 <= k;
        match d {
            Direction::NW => assert(stop.y != from.y),
            Direction::NE => assert(stop.x != from.x),
            Direction::E => assert(stop.x != from.x),
            Direction::SE => assert(stop.y != from.y),
            Direction::SW => assert(stop.x != from.x),
            Direction::W => assert(stop.x != from.x),
        }
    }
    lemma_apply_inverse(stop, d);
    assert(s.remove(from).contains(spec_apply(land, dir_opposite(d))) && !coords_wrap(
        land,
        dir_opposite(d),
    ));
}

/// Setting a piece down on a perimeter cell of a connected hive keeps the
/// hive connected: the new cell is linked through its occupied neighbour,
/// and everything else was linked already.
pub proof fn lemma_move_keeps_hive(s1: Set<HexLocation>, dest: HexLocation)
    requires
        hive_connected(s1),
        !s1.contains(dest),
        has_occupied_neighbor(s1, dest),
        forall|l: HexLocation| s1.contains(l) ==> in_range(l),
        -100 <= dest.x <= 100,
        -100 <= dest.y <= 100,
    ensures
        hive_connected(s1.insert(dest)),
{
    let s2 = s1.insert(dest);
    let e2 = occ_edge(s2);
    let d = choose|d: Direction|
        s1.contains(#[trigger] spec_apply(dest, d)) && !coords_wrap(dest, d);
    let n = spec_apply(dest, d);
    assert(adjacent(dest, n));
    lemma_adjacent_symmetric(dest, n);
    assert(e2(dest, n) && e2(n, dest));
    assert forall|a: HexLocation, b: HexLocation|
        s2.contains(a) && s2.contains(b) implies #[trigger] linked(e2, a, b) by {
        let a1 = if a == dest { n } else { a };
        let b1 = if b == dest { n } else { b };
        assert(s1.contains(a1) && s1.contains(b1));
        assert(linked(occ_edge(s1), a1, b1));
        let p = choose|p: Seq<HexLocation>|
            #[trigger] is_chain(occ_edge(s1), p) && p.len() >= 1 && p.first() == a1 && p.last()
                == b1;
        lemma_chain_monotone(s1, s2, p);
        assert(linked(e2, a1, b1));
        lemma_linked_refl(e2, a);
        if a == dest {
            lemma_linked_step(e2, a, a, n);
        }
        assert(linked(e2, a, a1));
        lemma_linked_trans(e2, a, a1, b1);
        if b == dest {
            lemma_linked_step(e2, a, b1, b);
        }
        assert(linked(e2, a, b));
    }
}

/// One output board per destination: the moving piece is lifted off
/// `from` and set down on each destination in turn, on an independent
/// copy of the board.
fn build_move_boards(grid: &HexGrid, from: HexLocation, dests: &Vec<HexLocation>) -> (r: Vec<
    HexGrid,
>)
    requires
        grid.wf(),
        grid.pieces_at(from).len() == 1,
        forall|j: int|
            0 <= j < dests@.len() ==> !grid.occ(#[trigger] dests@[j]) && in_range(dests@[j])
                && dests@[j] != from,
    ensures
        r@.len() == dests@.len(),
        forall|j: int| 0 <= j < dests@.len() ==> lifts_to(*grid, from, dests@[j], #[trigger] r@[j]),
{
    proof {
        lemma_somes_len(grid.slots_at(from));
    }
    let mut r: Vec<HexGrid> = Vec::new();
    let mut i: usize = 0;
    while i < dests.len()
        invariant
            grid.wf(),
            grid.pieces_at(from).len() == 1,
            grid.occ(from),
            forall|j: int|
                0 <= j < dests@.len() ==> !grid.occ(#[trigger] dests@[j]) && in_range(dests@[j])
                    && dests@[j] != from,
            i <= dests@.len(),
            r@.len() == i,
            forall|j: int| 0 <= j < i ==> lifts_to(*grid, from, dests@[j], #[trigger] r@[j]),
        decreases dests@.len() - i,
    {
        let dest = dests[i];
        let mut ng = grid.clone();
        let removed = ng.remove(from);
        match removed {
            Some(piece) => {
                proof {
                    grid.lemma_slots_len(from);
                    lemma_first_some(grid.slots_at(from));
                    lemma_somes_remove(grid.slots_at(from));
                    lemma_somes_len(ng.slots_at(from));
                    assert(ng.slots_at(from) =~= empty_slots()) by {
                        assert(ng.pieces_at(from).len() == 0);
                        assert(!has_piece(ng.slots_at(from)));
                        assert(ng.slots_at(from).len() == empty_slots().len());
                    }
                    assert(!ng.occ(dest));
                    ng.lemma_unocc_slots_empty(dest);
                    assert(has_free_slot(empty_slots())) by {
                        assert(empty_slots()[0] is None);
                    }
                    assert(first_none(empty_slots()) == 0);
                }
                let ghost mid = ng;
                let _ = ng.add(piece, dest);
                proof {
                    assert(ng.slots_at(dest) == empty_slots().update(
                        0,
                        Some(grid.pieces_at(from)[0]),
                    ));
                    assert(ng.slots_at(from) == empty_slots());
                    assert forall|l: HexLocation| l != from && l != dest implies #[trigger] ng
                        .slots_at(l) == grid.slots_at(l) by {
                        assert(mid.slots_at(l) == grid.slots_at(l));
                    }
                    assert(lifts_to(*grid, from, dest, ng));
                }
                r.push(ng);
            },
            None => {
                proof {
                    assert(false);
                }
            },
        }
        i = i + 1;
    }
    r
}

/// A slide target is a distinct adjacent cell outside the occupied set.
pub proof fn lemma_slid_target(s: Set<HexLocation>, location: HexLocation, b: HexLocation)
    requires
        slidable_spec(s, location, b),
        -110 <= location.x <= 110,
        -110 <= location.y <= 110,
    ensures
        b != location,
        !s.contains(b),
        location.x - 1 <= b.x <= location.x + 1,
        location.y - 1 <= b.y <= location.y + 1,
        adjacent(location, b),
{
    let d = choose|d: Direction|
        b == #[trigger] spec_apply(location, d) && crate::hex_grid::slide_ok(s, location, d);
    assert(!coords_wrap(location, d));
    match d {
        Direction::NW => assert(b.y == location.y - 1),
        Direction::NE => assert(b.x == location.x + 1),
        Direction::E => assert(b.x == location.x + 1),
        Direction::SE => assert(b.y == location.y + 1),
        Direction::SW => assert(b.x == location.x - 1),
        Direction::W => assert(b.x == location.x - 1),
    }
}

/// A move-generation snapshot: a board together with its pinned cells and
/// perimeter, computed once. It generates moves correctly for positions
/// whose occupied cells form one connected cluster.
pub struct MoveGeneratorDebugger {
    grid: HexGrid,
    pinned: Vec<HexLocation>,
    outside: Vec<HexLocation>,
}

impl MoveGeneratorDebugger {
    /// The board this snapshot was taken of.
    pub closed spec fn grid(self) -> HexGrid {
        self.grid
    }

    /// The cached pinned and perimeter sets agree with the board.
    pub closed spec fn wf(self) -> bool {
        &&& self.grid.wf()
        &&& self.pinned@.no_duplicates()
        &&& forall|l: HexLocation|
            #[trigger] self.pinned@.contains(l) <==> pinned_spec(self.grid, l)
        &&& self.outside@.no_duplicates()
        &&& forall|l: HexLocation|
            #[trigger] self.outside@.contains(l) <==> outside_spec(self.grid.occ_set(), l)
    }

    /// A snapshot of the empty board.
    pub fn new() -> (r: MoveGeneratorDebugger)
        ensures
            r.wf(),
            forall|l: HexLocation| !(#[trigger] r.grid().occ(l)),
    {
        let grid = HexGrid::new();
        let r = MoveGeneratorDebugger { grid, pinned: Vec::new(), outside: Vec::new() };
        proof {
            assert forall|l: HexLocation|
                !(#[trigger] pinned_spec(r.grid, l)) && !(#[trigger] outside_spec(
                    r.grid.occ_set(),
                    l,
                )) by {
                assert(!r.grid.occ(l));
                if has_occupied_neighbor(r.grid.occ_set(), l) {
                    let d = choose|d: Direction|
                        r.grid.occ_set().contains(#[trigger] spec_apply(l, d)) && !coords_wrap(
                            l,
                            d,
                        );
                    assert(r.grid.occ(spec_apply(l, d)));
                }
            }
        }
        r
    }

    /// A snapshot of the given board, with its pinned cells and perimeter
    /// computed.
    pub fn from_grid(grid: &HexGrid) -> (r: MoveGeneratorDebugger)
        requires
            grid.wf(),
        ensures
            r.wf(),
            grids_equal(r.grid(), *grid),
    {
        let own = grid.clone();
        let pinned = grid.pinned();
        let outside = grid.outside();
        let r = MoveGeneratorDebugger { grid: own, pinned, outside };
        proof {
            assert(r.grid.occ_set() =~= grid.occ_set());
            assert forall|l: HexLocation|
                #[trigger] pinned_spec(*grid, l) == pinned_spec(r.grid, l) by {
                assert(r.grid.slots_at(l) == grid.slots_at(l));
                assert(occ_set_after_lift(*grid, l) =~= occ_set_after_lift(r.grid, l));
            }
        }
        r
    }

    /// The piece at `location` lifted off a private copy of the board;
    /// the copy's occupied set is the board's minus that cell.
    fn lifted_copy(&self, location: HexLocation) -> (r: HexGrid)
        requires
            self.wf(),
            self.grid().pieces_at(location).len() == 1,
        ensures
            r.wf(),
            r.occ_set() == self.grid().occ_set().remove(location),
            forall|l: HexLocation|
                l != location ==> #[trigger] r.slots_at(l) == self.grid().slots_at(l),
            !r.occ(location),
    {
        proof {
            lemma_somes_len(self.grid.slots_at(location));
        }
        let mut removed = self.grid.clone();
        let _ = removed.remove(location);
        proof {
            lemma_somes_len(removed.slots_at(location));
            assert(removed.occ_set() =~= self.grid.occ_set().remove(location)) by {
                assert forall|l: HexLocation|
                    removed.occ_set().contains(l) <==> self.grid.occ_set().remove(
                        location,
                    ).contains(l) by {
                    if l != location {
                        assert(removed.slots_at(l) == self.grid.slots_at(l));
                    }
                }
            }
        }
        removed
    }

    /// All moves of a queen at `location`: one board per unoccupied
    /// perimeter cell reachable in a single slide; none if the queen is
    /// pinned. Every produced board keeps the hive connected.
    pub fn queen_moves(&self, location: HexLocation) -> (r: Vec<HexGrid>)
        requires
            self.wf(),
            self.grid().pieces_at(location).len() == 1,
            self.grid().pieces_at(location)[0].piece == PieceType::Queen,
        ensures
            pinned_spec(self.grid(), location) ==> r@.len() == 0,
            !pinned_spec(self.grid(), location) ==> exists|ds: Seq<HexLocation>|
                #[trigger] moves_match(
                    self.grid(),
                    location,
                    ds,
                    r@,
                    queen_ok(self.grid().occ_set().remove(location), location),
                ),
            forall|j: int| 0 <= j < r@.len() ==> hive_connected((#[trigger] r@[j]).occ_set()),
    {
        let ghost g = self.grid;
        let ghost s1 = g.occ_set().remove(location);
        proof {
            lemma_somes_len(g.slots_at(location));
            g.lemma_occ_in_range(location);
        }
        if loc_vec_contains(&self.pinned, location) {
            return Vec::new();
        }
        let removed = self.lifted_copy(location);
        let slid = removed.slidable(location);
        let mut dests: Vec<HexLocation> = Vec::new();
        let mut i: usize = 0;
        while i < slid.len()
            invariant
                removed.wf(),
                removed.occ_set() == s1,
                in_range(location),
                slid@.no_duplicates(),
                forall|b: HexLocation|
                    #[trigger] slid@.contains(b) <==> slidable_spec(s1, location, b),
                i <= slid@.len(),
                dests@.no_duplicates(),
                forall|x: HexLocation|
                    #[trigger] dests@.contains(x) <==> exists|j: int|
                        #![trigger slid@[j]] 0 <= j < i && slid@[j] == x && queen_dest(s1, location, x)
                            && in_range(x),
            decreases slid@.len() - i,
        {
            let b = slid[i];
            let ghost prev = dests@;
            proof {
                assert(slid@.contains(b));
                lemma_slid_target(s1, location, b);
            }
            if removed.occupied_neighbors(b).len() > 0 {
                if HexGrid::in_range_exec(b) && !loc_vec_contains(&dests, b) {
                    proof {
                        lemma_push_no_duplicates(dests@, b);
                    }
                    dests.push(b);
                }
            }
            proof {
                assert forall|x: HexLocation| #[trigger] dests@.contains(x) implies exists|j: int|
                    #![trigger slid@[j]] 0 <= j < i + 1 && slid@[j] == x && queen_dest(s1, location, x)
                        && in_range(x) by {
                    if prev.contains(x) {
                        let j = choose|j: int|
                            #![trigger slid@[j]] 0 <= j < i && slid@[j] == x && queen_dest(s1, location, x)
                                && in_range(x);
                    } else {
                        assert(x == b);
                        assert(slid@[i as int] == x);
                    }
                }
                assert forall|x: HexLocation|
                    (exists|j: int|
                        #![trigger slid@[j]] 0 <= j < i + 1 && slid@[j] == x && queen_dest(s1, location, x)
                            && in_range(x)) implies #[trigger] dests@.contains(x) by {
                    let j = choose|j: int|
                        #![trigger slid@[j]] 0 <= j < i + 1 && slid@[j] == x && queen_dest(s1, location, x)
                            && in_range(x);
                    if j < i {
                        assert(prev.contains(x));
                    } else {
                        assert(x == b);
                        assert(has_occupied_neighbor(s1, b));
                    }
                }
            }
            i = i + 1;
        }
        proof {
            assert forall|j: int| 0 <= j < dests@.len() implies !g.occ(#[trigger] dests@[j])
                && in_range(dests@[j]) && dests@[j] != location by {
                assert(dests@.contains(dests@[j]));
                lemma_slid_target(s1, location, dests@[j]);
                assert(!s1.contains(dests@[j]));
                assert(!g.occ_set().contains(dests@[j]));
            }
        }
        let r = build_move_boards(&self.grid, location, &dests);
        proof {
            assert(!pinned_spec(g, location));
            assert(hive_connected(s1)) by {
                assert(occ_set_after_lift(g, location) == s1);
            }
            let ghost ok1 = queen_ok(self.grid().occ_set().remove(location), location);
            assert forall|dest: HexLocation|
                #[trigger] dests@.contains(dest) <==> ok1(dest) && in_range(dest) by {
                if ok1(dest) && in_range(dest) {
                    assert(queen_dest(s1, location, dest));
                    assert(slid@.contains(dest));
                    let j = choose|j: int| 0 <= j < slid@.len() && slid@[j] == dest;
                }
            }
            assert(moves_match(self.grid(), location, dests@, r@, ok1));
            assert forall|j: int| 0 <= j < r@.len() implies hive_connected(
                (#[trigger] r@[j]).occ_set(),
            ) by {
                let dest = dests@[j];
                assert(dests@.contains(dest));
                lemma_slid_target(s1, location, dest);
                lemma_lift_occ_set(g, location, dest, r@[j]);
                assert forall|l: HexLocation| s1.contains(l) implies in_range(l) by {
                    g.lemma_occ_in_range(l);
                }
                lemma_move_keeps_hive(s1, dest);
                assert(r@[j].occ_set() == s1.insert(dest));
            }
        }
        r
    }

    /// All moves of a grasshopper at `location`: for each direction with a
    /// piece immediately adjacent, one straight jump over the occupied run
    /// to the first unoccupied cell; none if the grasshopper is pinned.
    /// Every produced board keeps the hive connected.
    pub fn grasshopper_moves(&self, location: HexLocation) -> (r: Vec<HexGrid>)
        requires
            self.wf(),
            self.grid().pieces_at(location).len() == 1,
            self.grid().pieces_at(location)[0].piece == PieceType::Grasshopper,
        ensures
            pinned_spec(self.grid(), location) ==> r@.len() == 0,
            !pinned_spec(self.grid(), location) ==> exists|ds: Seq<HexLocation>|
                #[trigger] moves_match(
                    self.grid(),
                    location,
                    ds,
                    r@,
                    gh_ok(self.grid().occ_set(), location),
                ),
            forall|j: int| 0 <= j < r@.len() ==> hive_connected((#[trigger] r@[j]).occ_set()),
    {
        let ghost g = self.grid;
        let ghost s = g.occ_set();
        proof {
            lemma_somes_len(g.slots_at(location));
            g.lemma_occ_in_range(location);
        }
        if loc_vec_contains(&self.pinned, location) {
            return Vec::new();
        }
        let dirs = Direction::all();
        let mut dests: Vec<HexLocation> = Vec::new();
        let mut t: usize = 0;
        while t < 6
            invariant
                self.wf(),
                g == self.grid,
                s == g.occ_set(),
                g.pieces_at(location).len() == 1,
                in_range(location),
                dirs@ == all_directions(),
                t <= 6,
                dests@.no_duplicates(),
                forall|x: HexLocation|
                    #[trigger] dests@.contains(x) <==> exists|j: int|
                        #![trigger all_directions()[j]]
                        0 <= j < t && gh_dest(s, location, all_directions()[j], x) && in_range(x),
            decreases 6 - t,
        {
            let d = dirs[t];
            let ghost prev = dests@;
            proof {
                assert(0 * dir_dx(d) == 0 && 0 * dir_dy(d) == 0) by (nonlinear_arith);
                lemma_ray_step(location, d, 0);
            }
            let first = location.apply(d);
            if self.grid.occupied(first) {
                proof {
                    assert(first == ray_loc(location, d, 1));
                    g.lemma_occ_in_range(first);
                    assert(gh_run(s, location, d, 1)) by {
                        assert forall|i: int| 1 <= i <= 1 implies ray_fits(location, d, i)
                            && s.contains(#[trigger] ray_loc(location, d, i)) by {
                            assert(ray_loc(location, d, 1) == first);
                        }
                    }
                    lemma_ray_step(location, d, 1);
                }
                let ghost mut k: int = 1;
                let mut cur = first.apply(d);
                while self.grid.occupied(cur)
                    invariant
                        self.wf(),
                        g == self.grid,
                        s == g.occ_set(),
                        in_range(location),
                        1 <= k <= 62,
                        gh_run(s, location, d, k),
                        ray_fits(location, d, k + 1),
                        cur == ray_loc(location, d, k + 1),
                    decreases 70 - k,
                {
                    proof {
                        g.lemma_occ_in_range(cur);
                        assert(gh_run(s, location, d, k + 1)) by {
                            assert forall|i: int|
                                1 <= i <= k + 1 implies ray_fits(location, d, i) && s.contains(
                                #[trigger] ray_loc(location, d, i),
                            ) by {
                                if i == k + 1 {
                                    assert(ray_loc(location, d, i) == cur);
                                }
                            }
                        }
                        let dx = dir_dx(d);
                        let dy = dir_dy(d);
                        assert(dx != 0 || dy != 0) by {
                            match d {
                                Direction::NW => {},
                                Direction::NE => {},
                                Direction::E => {},
                                Direction::SE => {},
                                Direction::SW => {},
                                Direction::W => {},
                            }
                        }
                        assert(location.x + (k + 1) * dx == cur.x && location.y + (k + 1) * dy
                            == cur.y);
                        assert(k <= 60) by (nonlinear_arith)
                            requires
                                1 <= k,
                                dx != 0 || dy != 0,
                                -1 <= dx <= 1,
                                -1 <= dy <= 1,
                                location.x + (k + 1) * dx == cur.x,
                                location.y + (k + 1) * dy == cur.y,
                                -30 <= cur.x < 30,
                                -30 <= cur.y < 30,
                                -30 <= location.x < 30,
                                -30 <= location.y < 30,
                        ;
                        assert((k + 2) * dx == (k + 1) * dx + dx && (k + 2) * dy == (k + 1) * dy
                            + dy) by (nonlinear_arith);
                        assert(ray_fits(location, d, k + 2));
                        lemma_ray_step(location, d, k + 1);
                    }
                    cur = cur.apply(d);
                    proof {
                        k = k + 1;
                    }
                }
                proof {
                    assert(!s.contains(cur));
                    assert(gh_dest(s, location, d, cur));
                }
                if HexGrid::in_range_exec(cur) && !loc_vec_contains(&dests, cur) {
                    proof {
                        lemma_push_no_duplicates(dests@, cur);
                    }
                    dests.push(cur);
                }
                proof {
                    assert forall|x: HexLocation| #[trigger] dests@.contains(x) implies exists|
                        j: int,
                    |
                        #![trigger all_directions()[j]]
                        0 <= j < t + 1 && gh_dest(s, location, all_directions()[j], x)
                            && in_range(x) by {
                        if !prev.contains(x) {
                            assert(x == cur);
                            assert(all_directions()[t as int] == d);
                        }
                    }
                    assert forall|x: HexLocation|
                        (exists|j: int|
                            #![trigger all_directions()[j]]
                            0 <= j < t + 1 && gh_dest(s, location, all_directions()[j], x)
                                && in_range(x)) implies #[trigger] dests@.contains(x) by {
                        let j = choose|j: int|
                            #![trigger all_directions()[j]]
                            0 <= j < t + 1 && gh_dest(s, location, all_directions()[j], x)
                                && in_range(x);
                        if j < t {
                            assert(prev.contains(x));
                        } else {
                            lemma_gh_unique(s, location, d, x, cur);
                        }
                    }
                }
            } else {
                proof {
                    assert forall|x: HexLocation|
                        !(#[trigger] gh_dest(s, location, d, x)) by {
                        if gh_dest(s, location, d, x) {
                            let k = choose|k: int|
                                1 <= k && #[trigger] gh_run(s, location, d, k) && ray_fits(
                                    location,
                                    d,
                                    k + 1,
                                ) && x == ray_loc(location, d, k + 1) && !s.contains(x);
                            assert(s.contains(ray_loc(location, d, 1)));
                            assert(ray_loc(location, d, 1) == first);
                        }
                    }
                    assert forall|x: HexLocation|
                        (exists|j: int|
                            #![trigger all_directions()[j]]
                            0 <= j < t + 1 && gh_dest(s, location, all_directions()[j], x)
                                && in_range(x)) implies #[trigger] dests@.contains(x) by {
                        let j = choose|j: int|
                            #![trigger all_directions()[j]]
                            0 <= j < t + 1 && gh_dest(s, location, all_directions()[j], x)
                                && in_range(x);
                        if j < t {
                            assert(prev.contains(x));
                        } else {
                            assert(gh_dest(s, location, d, x));
                        }
                    }
                    assert forall|x: HexLocation| #[trigger] dests@.contains(x) implies exists|
                        j: int,
                    |
                        #![trigger all_directions()[j]]
                        0 <= j < t + 1 && gh_dest(s, location, all_directions()[j], x)
                            && in_range(x) by {
                        assert(prev.contains(x));
                    }
                }
            }
            t = t + 1;
        }
        proof {
            assert forall|j: int| 0 <= j < dests@.len() implies !g.occ(#[trigger] dests@[j])
                && in_range(dests@[j]) && dests@[j] != location by {
                assert(dests@.contains(dests@[j]));
                let dj = choose|dj: int|
                    #![trigger all_directions()[dj]]
                    0 <= dj < 6 && gh_dest(s, location, all_directions()[dj], dests@[j])
                        && in_range(dests@[j]);
                assert forall|l: HexLocation| s.contains(l) implies in_range(l) by {
                    g.lemma_occ_in_range(l);
                }
                lemma_gh_land_contact(s, location, all_directions()[dj], dests@[j]);
            }
        }
        let r = build_move_boards(&self.grid, location, &dests);
        proof {
            let ghost ok1 = gh_ok(self.grid().occ_set(), location);
            assert forall|dest: HexLocation|
                #[trigger] dests@.contains(dest) <==> ok1(dest) && in_range(dest) by {
                if dests@.contains(dest) {
                    let dj = choose|dj: int|
                        #![trigger all_directions()[dj]]
                        0 <= dj < 6 && gh_dest(s, location, all_directions()[dj], dest)
                            && in_range(dest);
                    assert(gh_dest(s, location, all_directions()[dj], dest));
                }
                if ok1(dest) && in_range(dest) {
                    let d = choose|d: Direction| #[trigger] gh_dest(s, location, d, dest);
                    lemma_all_directions(d);
                    let j = choose|j: int|
                        0 <= j < all_directions().len() && all_directions()[j] == d;
                }
            }
            assert(moves_match(self.grid(), location, dests@, r@, ok1));
            assert(!pinned_spec(g, location));
            let ghost s1 = s.remove(location);
            assert(hive_connected(s1)) by {
                assert(occ_set_after_lift(g, location) == s1);
            }
            assert forall|j: int| 0 <= j < r@.len() implies hive_connected(
                (#[trigger] r@[j]).occ_set(),
            ) by {
                let dest = dests@[j];
                assert(dests@.contains(dest));
                let dj = choose|dj: int|
                    #![trigger all_directions()[dj]]
                    0 <= dj < 6 && gh_dest(s, location, all_directions()[dj], dest) && in_range(
                        dest,
                    );
                assert forall|l: HexLocation| s1.contains(l) implies in_range(l) by {
                    g.lemma_occ_in_range(l);
                }
                assert forall|l: HexLocation| s.contains(l) implies in_range(l) by {
                    g.lemma_occ_in_range(l);
                }
                lemma_gh_land_contact(s, location, all_directions()[dj], dest);
                lemma_lift_occ_set(g, location, dest, r@[j]);
                lemma_move_keeps_hive(s1, dest);
                assert(r@[j].occ_set() == s1.insert(dest));
            }
        }
        r
    }

    /// All moves of an ant at `location`: every cell reachable from it by
    /// one or more hive-contact-keeping slides on the ant-removed board;
    /// none if the ant is pinned. Every produced board keeps the hive
    /// connected.
    pub fn ant_moves(&self, location: HexLocation) -> (r: Vec<HexGrid>)
        requires
            self.wf(),
            self.grid().pieces_at(location).len() == 1,
            self.grid().pieces_at(location)[0].piece == PieceType::Ant,
        ensures
            pinned_spec(self.grid(), location) ==> r@.len() == 0,
            !pinned_spec(self.grid(), location) ==> exists|ds: Seq<HexLocation>|
                #[trigger] moves_match(
                    self.grid(),
                    location,
                    ds,
                    r@,
                    ant_ok(self.grid().occ_set().remove(location), location),
                ),
            forall|j: int| 0 <= j < r@.len() ==> hive_connected((#[trigger] r@[j]).occ_set()),
    {
        let ghost g = self.grid;
        proof {
            lemma_somes_len(g.slots_at(location));
            g.lemma_occ_in_range(location);
        }
        if loc_vec_contains(&self.pinned, location) {
            return Vec::new();
        }
        let removed = self.lifted_copy(location);
        let ghost s1 = removed.occ_set();
        let ghost e = slide_edge(s1);
        let outside_list = removed.outside();
        let mut visited: Vec<HexLocation> = Vec::new();
        visited.push(location);
        let mut todo: Vec<HexLocation> = Vec::new();
        todo.push(location);
        proof {
            lemma_linked_refl(e, location);
        }
        while todo.len() > 0
            invariant
                removed.wf(),
                s1 == removed.occ_set(),
                e == slide_edge(s1),
                in_range(location),
                outside_list@.no_duplicates(),
                forall|l: HexLocation|
                    #[trigger] outside_list@.contains(l) <==> outside_spec(s1, l),
                visited@.no_duplicates(),
                todo@.no_duplicates(),
                visited@.contains(location),
                forall|v: HexLocation|
                    #[trigger] visited@.contains(v) ==> v == location || outside_spec(s1, v),
                forall|v: HexLocation|
                    #[trigger] visited@.contains(v) ==> -33 <= v.x <= 33 && -33 <= v.y <= 33,
                forall|v: HexLocation| #[trigger] todo@.contains(v) ==> visited@.contains(v),
                forall|v: HexLocation| #[trigger] visited@.contains(v) ==> linked(e, location, v),
                forall|v: HexLocation, b: HexLocation|
                    visited@.contains(v) && !todo@.contains(v) && #[trigger] slidable_spec(
                        s1,
                        v,
                        b,
                    ) && has_occupied_neighbor(s1, b) ==> visited@.contains(b),
                visited@.len() <= outside_list@.len() + 1,
            decreases 2 * (outside_list@.len() + 1 - visited@.len()) + todo@.len(),
        {
            let ghost todo_before = todo@;
            let ghost m0_visited = visited@.len() as int;
            let ghost m0_todo = todo@.len() as int;
            let v = todo.pop().unwrap();
            proof {
                assert(todo_before.contains(v));
                assert forall|w: HexLocation| #[trigger] todo@.contains(w) implies todo_before
                    .contains(w) && w != v by {
                    let j = choose|j: int| 0 <= j < todo@.len() && todo@[j] == w;
                    assert(todo_before[j] == w);
                    if w == v {
                        assert(todo_before[todo_before.len() - 1] == v);
                    }
                }
            }
            let slid = removed.slidable(v);
            let mut t: usize = 0;
            while t < slid.len()
                invariant
                    removed.wf(),
                    s1 == removed.occ_set(),
                    e == slide_edge(s1),
                    in_range(location),
                    outside_list@.no_duplicates(),
                    forall|l: HexLocation|
                        #[trigger] outside_list@.contains(l) <==> outside_spec(s1, l),
                    t <= slid@.len(),
                    slid@.no_duplicates(),
                    forall|b: HexLocation|
                        #[trigger] slid@.contains(b) <==> slidable_spec(s1, v, b),
                    visited@.no_duplicates(),
                    todo@.no_duplicates(),
                    visited@.contains(location),
                    visited@.contains(v),
                    !todo@.contains(v),
                    forall|w: HexLocation|
                        #[trigger] visited@.contains(w) ==> w == location || outside_spec(s1, w),
                    forall|w: HexLocation|
                        #[trigger] visited@.contains(w) ==> -33 <= w.x <= 33 && -33 <= w.y <= 33,
                    forall|w: HexLocation| #[trigger] todo@.contains(w) ==> visited@.contains(w),
                    forall|w: HexLocation|
                        #[trigger] visited@.contains(w) ==> linked(e, location, w),
                    forall|w: HexLocation, b: HexLocation|
                        visited@.contains(w) && !todo@.contains(w) && w != v
                            && #[trigger] slidable_spec(s1, w, b) && has_occupied_neighbor(
                            s1,
                            b,
                        ) ==> visited@.contains(b),
                    forall|j: int|
                        0 <= j < t && has_occupied_neighbor(s1, #[trigger] slid@[j])
                            ==> visited@.contains(slid@[j]),
                    visited@.len() <= outside_list@.len() + 1,
                    2 * (outside_list@.len() + 1 - visited@.len()) + todo@.len() <= 2 * (
                    outside_list@.len() + 1 - m0_visited) + m0_todo - 1,
                decreases slid@.len() - t,
            {
                let b = slid[t];
                let ghost visited_before = visited@;
                let ghost todo_in = todo@;
                proof {
                    assert(slid@.contains(b));
                }
                if removed.occupied_neighbors(b).len() > 0 && !loc_vec_contains(&visited, b) {
                    proof {
                        assert(slidable_spec(s1, v, b) && has_occupied_neighbor(s1, b));
                        assert(e(v, b));
                        lemma_linked_step(e, location, v, b);
                        assert(outside_spec(s1, b)) by {
                            let d = choose|d: Direction|
                                b == #[trigger] spec_apply(v, d) && crate::hex_grid::slide_ok(
                                    s1,
                                    v,
                                    d,
                                );
                        }
                        assert(-31 <= b.x <= 31 && -31 <= b.y <= 31) by {
                            let d = choose|d: Direction|
                                s1.contains(#[trigger] spec_apply(b, d)) && !coords_wrap(b, d);
                            removed.lemma_occ_in_range(spec_apply(b, d));
                        }
                        assert(!todo@.contains(b));
                        lemma_push_no_duplicates(visited@, b);
                        lemma_push_no_duplicates(todo@, b);
                    }
                    visited.push(b);
                    todo.push(b);
                    proof {
                        visited@.unique_seq_to_set();
                        outside_list@.unique_seq_to_set();
                        let target = outside_list@.to_set().insert(location);
                        assert(visited@.to_set().subset_of(target)) by {
                            assert forall|w: HexLocation|
                                visited@.to_set().contains(w) implies target.contains(w) by {
                                assert(visited@.contains(w));
                                if w != location {
                                    assert(outside_list@.contains(w));
                                }
                            }
                        }
                        vstd::set_lib::lemma_len_subset(visited@.to_set(), target);
                        assert(target.len() <= outside_list@.to_set().len() + 1);
                    }
                }
                proof {
                    assert forall|w: HexLocation, c: HexLocation|
                        visited@.contains(w) && !todo@.contains(w) && w != v
                            && #[trigger] slidable_spec(s1, w, c) && has_occupied_neighbor(
                            s1,
                            c,
                        ) implies visited@.contains(c) by {
                        if visited_before.contains(w) {
                            assert(!todo_in.contains(w));
                            assert(visited_before.contains(c));
                        } else {
                            assert(w == b);
                            assert(todo@.contains(b));
                        }
                    }
                    assert forall|j: int|
                        0 <= j < t + 1 && has_occupied_neighbor(s1, #[trigger] slid@[j])
                            implies visited@.contains(slid@[j]) by {
                        if j < t {
                            assert(visited_before.contains(slid@[j]));
                        } else {
                            assert(slid@[j] == b);
                        }
                    }
                }
                t = t + 1;
            }
            proof {
                assert forall|w: HexLocation, c: HexLocation|
                    visited@.contains(w) && !todo@.contains(w) && #[trigger] slidable_spec(
                        s1,
                        w,
                        c,
                    ) && has_occupied_neighbor(s1, c) implies visited@.contains(c) by {
                    if w == v {
                        assert(slid@.contains(c));
                        let j = choose|j: int| 0 <= j < slid@.len() && slid@[j] == c;
                    }
                }
            }
        }
        let mut dests: Vec<HexLocation> = Vec::new();
        let mut i: usize = 0;
        while i < visited.len()
            invariant
                i <= visited@.len(),
                visited@.no_duplicates(),
                dests@.no_duplicates(),
                forall|x: HexLocation|
                    #[trigger] dests@.contains(x) <==> exists|j: int|
                        #![trigger visited@[j]]
                        0 <= j < i && visited@[j] == x && x != location && in_range(x),
            decreases visited@.len() - i,
        {
            let x = visited[i];
            let ghost prev = dests@;
            if !(x == location) && HexGrid::in_range_exec(x) {
                proof {
                    assert(!dests@.contains(x)) by {
                        if dests@.contains(x) {
                            let j = choose|j: int|
                                #![trigger visited@[j]]
                                0 <= j < i && visited@[j] == x && x != location && in_range(x);
                            assert(visited@[j] != visited@[i as int]);
                        }
                    }
                    lemma_push_no_duplicates(dests@, x);
                }
                dests.push(x);
            }
            proof {
                assert forall|y: HexLocation| #[trigger] dests@.contains(y) implies exists|j: int|
                    #![trigger visited@[j]]
                    0 <= j < i + 1 && visited@[j] == y && y != location && in_range(y) by {
                    if prev.contains(y) {
                        let j = choose|j: int|
                            #![trigger visited@[j]]
                            0 <= j < i && visited@[j] == y && y != location && in_range(y);
                    } else {
                        assert(y == x && visited@[i as int] == y);
                    }
                }
                assert forall|y: HexLocation|
                    (exists|j: int|
                        #![trigger visited@[j]]
                        0 <= j < i + 1 && visited@[j] == y && y != location && in_range(y))
                    implies #[trigger] dests@.contains(y) by {
                    let j = choose|j: int|
                        #![trigger visited@[j]]
                        0 <= j < i + 1 && visited@[j] == y && y != location && in_range(y);
                    if j < i {
                        assert(prev.contains(y));
                    } else {
                        assert(y == x);
                    }
                }
            }
            i = i + 1;
        }
        proof {
            assert forall|x: HexLocation| #[trigger] dests@.contains(x) implies visited@.contains(
                x,
            ) && x != location && in_range(x) by {
                let j = choose|j: int|
                    #![trigger visited@[j]]
                    0 <= j < visited@.len() && visited@[j] == x && x != location && in_range(x);
            }
            assert forall|x: HexLocation|
                visited@.contains(x) && x != location && in_range(x) implies #[trigger] dests@
                .contains(x) by {
                let j = choose|j: int| 0 <= j < visited@.len() && visited@[j] == x;
            }
            assert forall|j: int| 0 <= j < dests@.len() implies !g.occ(#[trigger] dests@[j])
                && in_range(dests@[j]) && dests@[j] != location by {
                assert(dests@.contains(dests@[j]));
                assert(outside_spec(s1, dests@[j]));
                assert(!g.occ_set().contains(dests@[j]));
            }
        }
        let r = build_move_boards(&self.grid, location, &dests);
        proof {
            let ghost ok1 = ant_ok(self.grid().occ_set().remove(location), location);
            let ghost vset = visited@.to_set();
            assert forall|dest: HexLocation|
                #[trigger] dests@.contains(dest) <==> ok1(dest) && in_range(dest) by {
                if dests@.contains(dest) {
                    assert(visited@.contains(dest));
                    assert(linked(e, location, dest));
                }
                if ok1(dest) && in_range(dest) {
                    assert(ant_dest(s1, location, dest));
                    let p = choose|p: Seq<HexLocation>|
                        #[trigger] is_chain(e, p) && p.len() >= 1 && p.first() == location
                            && p.last() == dest;
                    assert forall|x: HexLocation, y: HexLocation|
                        vset.contains(x) && #[trigger] e(x, y) implies vset.contains(y) by {
                        assert(visited@.contains(x));
                        assert(slidable_spec(s1, x, y) && has_occupied_neighbor(s1, y));
                    }
                    lemma_closed_under_edges(e, vset, p);
                    assert(visited@.contains(dest));
                }
            }
            assert(moves_match(self.grid(), location, dests@, r@, ok1));
            assert(!pinned_spec(g, location));
            assert(hive_connected(s1)) by {
                assert(occ_set_after_lift(g, location) == s1);
            }
            assert forall|j: int| 0 <= j < r@.len() implies hive_connected(
                (#[trigger] r@[j]).occ_set(),
            ) by {
                let dest = dests@[j];
                assert(dests@.contains(dest));
                assert(visited@.contains(dest));
                assert(outside_spec(s1, dest));
                assert forall|l: HexLocation| s1.contains(l) implies in_range(l) by {
                    removed.lemma_occ_in_range(l);
                }
                lemma_lift_occ_set(g, location, dest, r@[j]);
                lemma_move_keeps_hive(s1, dest);
                assert(r@[j].occ_set() == s1.insert(dest));
            }
        }
        r
    }

    /// All moves of a spider at `location`: the endpoints of paths of
    /// exactly three contact-keeping slides on the spider-removed board
    /// that never revisit a cell of the path; none if the spider is
    /// pinned. Every produced board keeps the hive connected.
    pub fn spider_moves(&self, location: HexLocation) -> (r: Vec<HexGrid>)
        requires
            self.wf(),
            self.grid().pieces_at(location).len() == 1,
            self.grid().pieces_at(location)[0].piece == PieceType::Spider,
        ensures
            pinned_spec(self.grid(), location) ==> r@.len() == 0,
            !pinned_spec(self.grid(), location) ==> exists|ds: Seq<HexLocation>|
                #[trigger] moves_match(
                    self.grid(),
                    location,
                    ds,
                    r@,
                    spider_ok(self.grid().occ_set().remove(location), location),
                ),
            forall|j: int| 0 <= j < r@.len() ==> hive_connected((#[trigger] r@[j]).occ_set()),
    {
        let ghost g = self.grid;
        proof {
            lemma_somes_len(g.slots_at(location));
            g.lemma_occ_in_range(location);
        }
        if loc_vec_contains(&self.pinned, location) {
            return Vec::new();
        }
        let removed = self.lifted_copy(location);
        let ghost s1 = removed.occ_set();
        let slid1 = removed.slidable_keeping_contact(location);
        let mut dests: Vec<HexLocation> = Vec::new();
        let mut i: usize = 0;
        while i < slid1.len()
            invariant
                removed.wf(),
                s1 == removed.occ_set(),
                in_range(location),
                i <= slid1@.len(),
                slid1@.no_duplicates(),
                forall|c: HexLocation|
                    #[trigger] slid1@.contains(c) <==> contact_slidable_spec(s1, location, c),
                dests@.no_duplicates(),
                forall|y: HexLocation|
                    #[trigger] dests@.contains(y) <==> in_range(y) && exists|j: int|
                        #![trigger slid1@[j]]
                        0 <= j < i && spider_tail(s1, location, slid1@[j], y),
            decreases slid1@.len() - i,
        {
            let a = slid1[i];
            let ghost outer_prev = dests@;
            proof {
                assert(slid1@.contains(a));
                lemma_contact_slidable_is_slidable(s1, location, a);
                lemma_slid_target(s1, location, a);
            }
            let slid2 = removed.slidable_keeping_contact(a);
            let mut t: usize = 0;
            while t < slid2.len()
                invariant
                    removed.wf(),
                    s1 == removed.occ_set(),
                    in_range(location),
                    0 <= i < slid1@.len(),
                    a == slid1@[i as int],
                    contact_slidable_spec(s1, location, a),
                    -31 <= a.x <= 31,
                    -31 <= a.y <= 31,
                    t <= slid2@.len(),
                    slid2@.no_duplicates(),
                    forall|c: HexLocation|
                        #[trigger] slid2@.contains(c) <==> contact_slidable_spec(s1, a, c),
                    dests@.no_duplicates(),
                    forall|y: HexLocation|
                        #[trigger] dests@.contains(y) <==> in_range(y) && ((exists|j: int|
                            #![trigger slid1@[j]]
                            0 <= j < i && spider_tail(s1, location, slid1@[j], y)) || (exists|
                            k: int,
                        |
                            #![trigger slid2@[k]]
                            0 <= k < t && slid2@[k] != location && contact_slidable_spec(
                                s1,
                                slid2@[k],
                                y,
                            ) && y != location && y != a)),
                decreases slid2@.len() - t,
            {
                let b = slid2[t];
                let ghost mid_prev = dests@;
                proof {
                    assert(slid2@.contains(b));
                    lemma_contact_slidable_is_slidable(s1, a, b);
                    lemma_slid_target(s1, a, b);
                }
                if !(b == location) {
                    let slid3 = removed.slidable_keeping_contact(b);
                    let mut u: usize = 0;
                    while u < slid3.len()
                        invariant
                            removed.wf(),
                            s1 == removed.occ_set(),
                            in_range(location),
                            0 <= i < slid1@.len(),
                            a == slid1@[i as int],
                            contact_slidable_spec(s1, location, a),
                            -31 <= a.x <= 31,
                            -31 <= a.y <= 31,
                            0 <= t < slid2@.len(),
                            b == slid2@[t as int],
                            contact_slidable_spec(s1, a, b),
                            b != location,
                            -32 <= b.x <= 32,
                            -32 <= b.y <= 32,
                            u <= slid3@.len(),
                            slid3@.no_duplicates(),
                            forall|c: HexLocation|
                                #[trigger] slid3@.contains(c) <==> contact_slidable_spec(s1, b, c),
                            dests@.no_duplicates(),
                            forall|y: HexLocation|
                                #[trigger] dests@.contains(y) <==> in_range(y) && ((exists|j: int|
                                    #![trigger slid1@[j]]
                                    0 <= j < i && spider_tail(s1, location, slid1@[j], y)) || (
                                exists|k: int|
                                    #![trigger slid2@[k]]
                                    0 <= k < t && slid2@[k] != location && contact_slidable_spec(
                                        s1,
                                        slid2@[k],
                                        y,
                                    ) && y != location && y != a) || (exists|m: int|
                                    #![trigger slid3@[m]]
                                    0 <= m < u && slid3@[m] == y && y != location && y != a)),
                        decreases slid3@.len() - u,
                    {
                        let x = slid3[u];
                        let ghost prev = dests@;
                        proof {
                            assert(slid3@.contains(x));
                        }
                        if !(x == location) && !(x == a) && HexGrid::in_range_exec(x)
                            && !loc_vec_contains(&dests, x) {
                            proof {
                                lemma_push_no_duplicates(dests@, x);
                            }
                            dests.push(x);
                        }
                        proof {
                            assert forall|y: HexLocation| #[trigger] dests@.contains(y) implies
                                in_range(y) && ((exists|j: int|
                                    #![trigger slid1@[j]]
                                    0 <= j < i && spider_tail(s1, location, slid1@[j], y)) || (
                                exists|k: int|
                                    #![trigger slid2@[k]]
                                    0 <= k < t && slid2@[k] != location && contact_slidable_spec(
                                        s1,
                                        slid2@[k],
                                        y,
                                    ) && y != location && y != a) || (exists|m: int|
                                    #![trigger slid3@[m]]
                                    0 <= m < u + 1 && slid3@[m] == y && y != location && y != a)) by {
                                if !prev.contains(y) {
                                    assert(y == x && slid3@[u as int] == y);
                                }
                            }
                            assert forall|y: HexLocation|
                                in_range(y) && ((exists|j: int|
                                    #![trigger slid1@[j]]
                                    0 <= j < i && spider_tail(s1, location, slid1@[j], y)) || (
                                exists|k: int|
                                    #![trigger slid2@[k]]
                                    0 <= k < t && slid2@[k] != location && contact_slidable_spec(
                                        s1,
                                        slid2@[k],
                                        y,
                                    ) && y != location && y != a) || (exists|m: int|
                                    #![trigger slid3@[m]]
                                    0 <= m < u + 1 && slid3@[m] == y && y != location && y != a))
                                implies #[trigger] dests@.contains(y) by {
                                if exists|m: int|
                                    #![trigger slid3@[m]]
                                    0 <= m < u + 1 && slid3@[m] == y && y != location && y != a {
                                    let m = choose|m: int|
                                        #![trigger slid3@[m]]
                                        0 <= m < u + 1 && slid3@[m] == y && y != location && y
                                            != a;
                                    if m < u {
                                        assert(prev.contains(y));
                                    } else {
                                        assert(y == x);
                                    }
                                } else {
                                    assert(prev.contains(y));
                                }
                            }
                        }
                        u = u + 1;
                    }
                    proof {
                        assert forall|y: HexLocation|
                            ((exists|k: int|
                                #![trigger slid2@[k]]
                                0 <= k < t + 1 && slid2@[k] != location && contact_slidable_spec(
                                    s1,
                                    slid2@[k],
                                    y,
                                ) && y != location && y != a) && in_range(y)) implies
                            #[trigger] dests@.contains(y) by {
                            let k = choose|k: int|
                                #![trigger slid2@[k]]
                                0 <= k < t + 1 && slid2@[k] != location && contact_slidable_spec(
                                    s1,
                                    slid2@[k],
                                    y,
                                ) && y != location && y != a;
                            if k == t {
                                assert(slid3@.contains(y));
                                let m = choose|m: int| 0 <= m < slid3@.len() && slid3@[m] == y;
                            }
                        }
                        assert forall|y: HexLocation| #[trigger] dests@.contains(y) implies
                            in_range(y) && ((exists|j: int|
                                #![trigger slid1@[j]]
                                0 <= j < i && spider_tail(s1, location, slid1@[j], y)) || (exists|
                                k: int,
                            |
                                #![trigger slid2@[k]]
                                0 <= k < t + 1 && slid2@[k] != location && contact_slidable_spec(
                                    s1,
                                    slid2@[k],
                                    y,
                                ) && y != location && y != a)) by {
                            if exists|m: int|
                                #![trigger slid3@[m]]
                                0 <= m < slid3@.len() && slid3@[m] == y && y != location && y
                                    != a {
                                let m = choose|m: int|
                                    #![trigger slid3@[m]]
                                    0 <= m < slid3@.len() && slid3@[m] == y && y != location && y
                                        != a;
                                assert(slid3@.contains(y));
                                assert(slid2@[t as int] != location && contact_slidable_spec(s1, b, y));
                            }
                        }
                    }
                } else {
                    proof {
                        assert forall|y: HexLocation|
                            in_range(y) && ((exists|j: int|
                                #![trigger slid1@[j]]
                                0 <= j < i && spider_tail(s1, location, slid1@[j], y)) || (exists|
                                k: int,
                            |
                                #![trigger slid2@[k]]
                                0 <= k < t + 1 && slid2@[k] != location && contact_slidable_spec(
                                    s1,
                                    slid2@[k],
                                    y,
                                ) && y != location && y != a)) implies #[trigger] dests@.contains(
                            y,
                        ) by {
                            if exists|k: int|
                                #![trigger slid2@[k]]
                                0 <= k < t + 1 && slid2@[k] != location && contact_slidable_spec(
                                    s1,
                                    slid2@[k],
                                    y,
                                ) && y != location && y != a {
                                let k = choose|k: int|
                                    #![trigger slid2@[k]]
                                    0 <= k < t + 1 && slid2@[k] != location && contact_slidable_spec(
                                        s1,
                                        slid2@[k],
                                        y,
                                    ) && y != location && y != a;
                                assert(k < t);
                            }
                        }
                    }
                }
                t = t + 1;
            }
            proof {
                assert forall|y: HexLocation| #[trigger] dests@.contains(y) implies in_range(y)
                    && exists|j: int|
                    #![trigger slid1@[j]]
                    0 <= j < i + 1 && spider_tail(s1, location, slid1@[j], y) by {
                    if exists|k: int|
                        #![trigger slid2@[k]]
                        0 <= k < slid2@.len() && slid2@[k] != location && contact_slidable_spec(
                            s1,
                            slid2@[k],
                            y,
                        ) && y != location && y != a {
                        let k = choose|k: int|
                            #![trigger slid2@[k]]
                            0 <= k < slid2@.len() && slid2@[k] != location && contact_slidable_spec(
                                s1,
                                slid2@[k],
                                y,
                            ) && y != location && y != a;
                        assert(slid2@.contains(slid2@[k]));
                        assert(contact_slidable_spec(s1, a, slid2@[k]));
                        assert(spider_tail(s1, location, a, y));
                        assert(slid1@[i as int] == a);
                    }
                }
                assert forall|y: HexLocation|
                    (in_range(y) && exists|j: int|
                        #![trigger slid1@[j]]
                        0 <= j < i + 1 && spider_tail(s1, location, slid1@[j], y)) implies
                    #[trigger] dests@.contains(y) by {
                    let j = choose|j: int|
                        #![trigger slid1@[j]]
                        0 <= j < i + 1 && spider_tail(s1, location, slid1@[j], y);
                    if j == i {
                        let bb = choose|bb: HexLocation|
                            #[trigger] contact_slidable_spec(s1, a, bb) && bb != location
                                && contact_slidable_spec(s1, bb, y) && y != location && y != a;
                        assert(slid2@.contains(bb));
                        let k = choose|k: int| 0 <= k < slid2@.len() && slid2@[k] == bb;
                    }
                }
            }
            i = i + 1;
        }
        proof {
            assert forall|j: int| 0 <= j < dests@.len() implies !g.occ(#[trigger] dests@[j])
                && in_range(dests@[j]) && dests@[j] != location by {
                assert(dests@.contains(dests@[j]));
                let jj = choose|jj: int|
                    #![trigger slid1@[jj]]
                    0 <= jj < slid1@.len() && spider_tail(s1, location, slid1@[jj], dests@[j]);
                let bb = choose|bb: HexLocation|
                    #[trigger] contact_slidable_spec(s1, slid1@[jj], bb) && bb != location
                        && contact_slidable_spec(s1, bb, dests@[j]) && dests@[j] != location && dests@[j]
                        != slid1@[jj];
                lemma_contact_slidable_is_slidable(s1, bb, dests@[j]);
                assert(!s1.contains(dests@[j]));
                assert(!g.occ_set().contains(dests@[j]));
            }
        }
        let r = build_move_boards(&self.grid, location, &dests);
        proof {
            let ghost ok1 = spider_ok(self.grid().occ_set().remove(location), location);
            assert forall|dest: HexLocation|
                #[trigger] dests@.contains(dest) <==> ok1(dest) && in_range(dest) by {
                if dests@.contains(dest) {
                    let jj = choose|jj: int|
                        #![trigger slid1@[jj]]
                        0 <= jj < slid1@.len() && spider_tail(s1, location, slid1@[jj], dest);
                    assert(slid1@.contains(slid1@[jj]));
                    let aa = slid1@[jj];
                    let bb = choose|bb: HexLocation|
                        #[trigger] contact_slidable_spec(s1, aa, bb) && bb != location && contact_slidable_spec(
                            s1,
                            bb,
                            dest,
                        ) && dest != location && dest != aa;
                    assert(spider_dest(s1, location, dest));
                }
                if ok1(dest) && in_range(dest) {
                    assert(spider_dest(s1, location, dest));
                    let (aa, bb) = choose|aa: HexLocation, bb: HexLocation|
                        #![trigger contact_slidable_spec(s1, location, aa), contact_slidable_spec(s1, aa, bb)]
                        contact_slidable_spec(s1, location, aa) && contact_slidable_spec(s1, aa, bb)
                            && contact_slidable_spec(s1, bb, dest) && bb != location && dest != location
                            && dest != aa;
                    assert(slid1@.contains(aa));
                    let jj = choose|jj: int| 0 <= jj < slid1@.len() && slid1@[jj] == aa;
                    assert(spider_tail(s1, location, aa, dest));
                }
            }
            assert(moves_match(self.grid(), location, dests@, r@, ok1));
            assert(!pinned_spec(g, location));
            assert(hive_connected(s1)) by {
                assert(occ_set_after_lift(g, location) == s1);
            }
            assert forall|j: int| 0 <= j < r@.len() implies hive_connected(
                (#[trigger] r@[j]).occ_set(),
            ) by {
                let dest = dests@[j];
                assert(dests@.contains(dest));
                let jj = choose|jj: int|
                    #![trigger slid1@[jj]]
                    0 <= jj < slid1@.len() && spider_tail(s1, location, slid1@[jj], dest);
                let aa = slid1@[jj];
                assert(slid1@.contains(aa));
                lemma_contact_slidable_is_slidable(s1, location, aa);
                lemma_slid_target(s1, location, aa);
                let bb = choose|bb: HexLocation|
                    #[trigger] contact_slidable_spec(s1, aa, bb) && bb != location
                        && contact_slidable_spec(s1, bb, dest) && dest != location && dest != aa;
                lemma_contact_slidable_is_slidable(s1, aa, bb);
                lemma_slid_target(s1, aa, bb);
                let dd = choose|dd: Direction|
                    dest == #[trigger] spec_apply(bb, dd) && crate::hex_grid::contact_slide_ok(
                        s1,
                        bb,
                        dd,
                    );
                lemma_contact_slide_touches(s1, bb, dd);
                assert forall|l: HexLocation| s1.contains(l) implies in_range(l) by {
                    removed.lemma_occ_in_range(l);
                }
                lemma_lift_occ_set(g, location, dest, r@[j]);
                lemma_move_keeps_hive(s1, dest);
                assert(r@[j].occ_set() == s1.insert(dest));
            }
        }
        r
    }
}

} // verus!
