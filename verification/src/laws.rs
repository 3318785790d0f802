//! The central board-game laws, stated and proved once and for all over
//! the specifications that the board and the move generator carry.

use vstd::prelude::*;

use crate::connectivity::is_chain;
use crate::connectivity::linked;
use crate::hex_grid::HexLocation;
use crate::hex_grid::Direction;
use crate::hex_grid::spec_apply;
use crate::move_generator::gh_dest;
use crate::move_generator::gh_run;
use crate::move_generator::lemma_gh_unique;
use crate::move_generator::lemma_ray_step;
use crate::move_generator::lifts_to;
use crate::move_generator::queen_dest;
use crate::move_generator::ray_fits;
use crate::move_generator::ray_loc;
use crate::move_generator::slide_edge;
use crate::move_generator::spider_dest;

verus! {

/// Output boards are deduplicated by value: boards built for distinct
/// destinations differ on some cell, so a generator's result list never
/// holds the same position twice.
pub proof fn law_moves_deduplicated(
    g: crate::hex_grid::HexGrid,
    from: HexLocation,
    ds: Seq<HexLocation>,
    results: Seq<crate::hex_grid::HexGrid>,
)
    requires
        ds.len() == results.len(),
        ds.no_duplicates(),
        forall|j: int|
            0 <= j < ds.len() ==> crate::move_generator::lifts_to(
                g,
                from,
                #[trigger] ds[j],
                results[j],
            ),
        forall|j: int| 0 <= j < ds.len() ==> !g.occ(#[trigger] ds[j]) && ds[j] != from,
    ensures
        forall|i: int, j: int|
            0 <= i < j < results.len() ==> !crate::hex_grid::grids_equal(results[i], results[j]),
{
    assert forall|i: int, j: int|
        0 <= i < j < results.len() implies !crate::hex_grid::grids_equal(
        results[i],
        results[j],
    ) by {
        assert(lifts_to(g, from, ds[i], results[i]) && lifts_to(g, from, ds[j], results[j]));
        assert(ds[i] != ds[j]);
        assert(results[i].slots_at(ds[i])[0] is Some);
        assert(results[j].slots_at(ds[i]) == g.slots_at(ds[i]));
        assert(!crate::hex_grid::has_piece(g.slots_at(ds[i])));
        if crate::hex_grid::grids_equal(results[i], results[j]) {
            assert(results[i].slots_at(ds[i]) == results[j].slots_at(ds[i]));
            assert(crate::hex_grid::has_piece(results[j].slots_at(ds[i])));
        }
    }
}

/// Gate symmetry at one edge. The cell one step from `a` in direction
/// `d` is slidable-to exactly when it is unoccupied and the edge's two
/// flanking cells are not both occupied: two occupied flanks are a gate
/// the piece cannot squeeze through.
pub proof fn law_gate_symmetry(s: Set<HexLocation>, a: HexLocation, d: Direction)
    requires
        -100 <= a.x <= 100,
        -100 <= a.y <= 100,
    ensures
        crate::hex_grid::slidable_spec(s, a, spec_apply(a, d)) <==> {
            let target = spec_apply(a, d);
            let cw = spec_apply(a, crate::hex_grid::dir_cw(d));
            let ccw = spec_apply(a, crate::hex_grid::dir_ccw(d));
            &&& !s.contains(target)
            &&& !(s.contains(cw) && s.contains(ccw))
        },
{
    if crate::hex_grid::slidable_spec(s, a, spec_apply(a, d)) {
        let d2 = choose|d2: Direction|
            spec_apply(a, d) == #[trigger] spec_apply(a, d2) && crate::hex_grid::slide_ok(
                s,
                a,
                d2,
            );
        assert(d2 == d) by {
            assert(a.x + crate::hex_grid::dir_dx(d2) == a.x + crate::hex_grid::dir_dx(d)
                && a.y + crate::hex_grid::dir_dy(d2) == a.y + crate::hex_grid::dir_dy(d));
            match d {
                Direction::NW => {},
                Direction::NE => {},
                Direction::E => {},
                Direction::SE => {},
                Direction::SW => {},
                Direction::W => {},
            }
        }
    }
}

/// Spider path length: every spider destination is the end of a path of
/// exactly three contact-keeping slides through pairwise distinct cells,
/// none of them the starting cell.
pub proof fn law_spider_path_distinct(s: Set<HexLocation>, from: HexLocation, x: HexLocation)
    requires
        spider_dest(s, from, x),
        -100 <= from.x <= 100,
        -100 <= from.y <= 100,
    ensures
        exists|a: HexLocation, b: HexLocation|
            #![trigger crate::hex_grid::contact_slidable_spec(s, from, a), crate::hex_grid::contact_slidable_spec(
                s,
                a,
                b,
            )]
            crate::hex_grid::contact_slidable_spec(s, from, a) && crate::hex_grid::contact_slidable_spec(s, a, b)
                && crate::hex_grid::contact_slidable_spec(s, b, x) && a != from && b != from && b != a
                && x != from && x != a && x != b,
{
    let (a, b) = choose|a: HexLocation, b: HexLocation|
        #![trigger crate::hex_grid::contact_slidable_spec(s, from, a), crate::hex_grid::contact_slidable_spec(
            s,
            a,
            b,
        )]
        crate::hex_grid::contact_slidable_spec(s, from, a) && crate::hex_grid::contact_slidable_spec(s, a, b)
            && crate::hex_grid::contact_slidable_spec(s, b, x) && b != from && x != from && x != a;
    crate::hex_grid::lemma_contact_slidable_is_slidable(s, from, a);
    crate::hex_grid::lemma_contact_slidable_is_slidable(s, a, b);
    crate::hex_grid::lemma_contact_slidable_is_slidable(s, b, x);
    crate::move_generator::lemma_slid_target(s, from, a);
    crate::move_generator::lemma_slid_target(s, a, b);
    crate::move_generator::lemma_slid_target(s, b, x);
}

/// Grasshopper directionality: over a straight line of exactly `k`
/// occupied cells followed by one empty cell, the one and only landing in
/// that direction is the cell just past the `k`-th occupied one.
pub proof fn law_grasshopper_directionality(
    s: Set<HexLocation>,
    from: HexLocation,
    d: Direction,
    k: int,
)
    requires
        1 <= k,
        gh_run(s, from, d, k),
        ray_fits(from, d, k + 1),
        !s.contains(ray_loc(from, d, k + 1)),
    ensures
        forall|land: HexLocation|
            #[trigger] gh_dest(s, from, d, land) <==> land == ray_loc(from, d, k + 1),
{
    assert(gh_dest(s, from, d, ray_loc(from, d, k + 1)));
    assert forall|land: HexLocation| #[trigger] gh_dest(s, from, d, land) implies land == ray_loc(
        from,
        d,
        k + 1,
    ) by {
        lemma_gh_unique(s, from, d, land, ray_loc(from, d, k + 1));
    }
}

/// Different directions give different grasshopper landings: a landing
/// lies a positive number of steps along its direction's ray, and no two
/// of the six unit deltas share a sign pattern. With per-direction
/// uniqueness this makes exactly one candidate per qualifying direction.
pub proof fn law_grasshopper_landings_distinct(
    s: Set<HexLocation>,
    from: HexLocation,
    d1: Direction,
    d2: Direction,
    l1: HexLocation,
    l2: HexLocation,
)
    requires
        gh_dest(s, from, d1, l1),
        gh_dest(s, from, d2, l2),
        d1 != d2,
    ensures
        l1 != l2,
{
    let k1 = choose|k: int|
        1 <= k && #[trigger] gh_run(s, from, d1, k) && ray_fits(from, d1, k + 1) && l1 == ray_loc(
            from,
            d1,
            k + 1,
        ) && !s.contains(l1);
    let k2 = choose|k: int|
        1 <= k && #[trigger] gh_run(s, from, d2, k) && ray_fits(from, d2, k + 1) && l2 == ray_loc(
            from,
            d2,
            k + 1,
        ) && !s.contains(l2);
    let n1 = k1 + 1;
    let n2 = k2 + 1;
    let dx1 = crate::hex_grid::dir_dx(d1);
    let dy1 = crate::hex_grid::dir_dy(d1);
    let dx2 = crate::hex_grid::dir_dx(d2);
    let dy2 = crate::hex_grid::dir_dy(d2);
    if l1 == l2 {
        assert(from.x + n1 * dx1 == from.x + n2 * dx2 && from.y + n1 * dy1 == from.y + n2
            * dy2);
        assert((dx1 > 0 <==> dx2 > 0) && (dx1 < 0 <==> dx2 < 0) && (dy1 > 0 <==> dy2 > 0) && (
        dy1 < 0 <==> dy2 < 0)) by (nonlinear_arith)
            requires
                n1 >= 2,
                n2 >= 2,
                n1 * dx1 == n2 * dx2,
                n1 * dy1 == n2 * dy2,
        ;
        assert(d1 == d2);
    }
}

/// A direction with no piece immediately adjacent yields no grasshopper
/// landing: every jump crosses the very first cell of the ray.
pub proof fn law_grasshopper_needs_neighbor(
    s: Set<HexLocation>,
    from: HexLocation,
    d: Direction,
    land: HexLocation,
)
    requires
        gh_dest(s, from, d, land),
        -100 <= from.x <= 100,
        -100 <= from.y <= 100,
    ensures
        s.contains(spec_apply(from, d)),
{
    let k = choose|k: int|
        1 <= k && #[trigger] gh_run(s, from, d, k) && ray_fits(from, d, k + 1) && land == ray_loc(
            from,
            d,
            k + 1,
        ) && !s.contains(land);
    assert(s.contains(ray_loc(from, d, 1)));
    assert(0 * crate::hex_grid::dir_dx(d) == 0 && 0 * crate::hex_grid::dir_dy(d) == 0)
        by (nonlinear_arith);
    lemma_ray_step(from, d, 0);
    assert(ray_loc(from, d, 1) == spec_apply(from, d));
}

/// The ant's destinations, restricted to cells reachable in exactly one
/// slide, are exactly the queen's destinations on the same lifted board:
/// both are single hive-contact-keeping slides.
pub proof fn law_ant_single_slide_is_queen(
    s: Set<HexLocation>,
    from: HexLocation,
    dest: HexLocation,
)
    ensures
        queen_dest(s, from, dest) <==> exists|p: Seq<HexLocation>|
            #[trigger] is_chain(slide_edge(s), p) && p.len() == 2 && p.first() == from && p.last()
                == dest,
{
    let e = slide_edge(s);
    if queen_dest(s, from, dest) {
        let p = seq![from, dest];
        assert(e(p[0], p[1]));
        assert(is_chain(e, p) && p.len() == 2 && p.first() == from && p.last() == dest);
    }
    if exists|p: Seq<HexLocation>|
        #[trigger] is_chain(e, p) && p.len() == 2 && p.first() == from && p.last() == dest {
        let p = choose|p: Seq<HexLocation>|
            #[trigger] is_chain(e, p) && p.len() == 2 && p.first() == from && p.last() == dest;
        crate::connectivity::lemma_chain_index(e, p, 0);
        assert(e(from, dest));
    }
}

/// One slide of the ant is also one step of its reachability relation:
/// a single-slide destination is an ant destination whenever it is not
/// the starting cell itself.
pub proof fn law_queen_dest_is_ant_dest(
    s: Set<HexLocation>,
    from: HexLocation,
    dest: HexLocation,
)
    requires
        queen_dest(s, from, dest),
        dest != from,
    ensures
        crate::move_generator::ant_dest(s, from, dest),
{
    let e = slide_edge(s);
    let p = seq![from, dest];
    assert(e(p[0], p[1]));
    assert(is_chain(e, p) && p.len() >= 1 && p.first() == from && p.last() == dest);
    assert(linked(e, from, dest));
}

} // verus!
