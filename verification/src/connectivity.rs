//! Connectivity of the hive: reachability along an edge relation, the
//! single-cluster predicate, and the pinned (articulation) cells.

use vstd::prelude::*;

use crate::hex_grid::HexGrid;
use crate::hex_grid::loc_vec_contains;
use crate::hex_grid::HexLocation;
use crate::hex_grid::adjacent;
use crate::hex_grid::coords_wrap;
use crate::hex_grid::in_range;
use crate::hex_grid::lemma_adjacent_symmetric;
use crate::hex_grid::lemma_all_directions;
use crate::hex_grid::spec_apply;
use crate::hex_grid::Direction;

verus! {

broadcast use vstd::seq_lib::group_seq_properties;

/// A chain along the edge relation `e`: every consecutive pair is linked.
pub open spec fn is_chain(e: spec_fn(HexLocation, HexLocation) -> bool, p: Seq<HexLocation>) -> bool {
    forall|i: int| 0 <= i < p.len() - 1 ==> #[trigger] e(p[i], p[i + 1])
}

/// `b` is reachable from `a` along edges of `e` (in zero or more steps).
pub open spec fn linked(
    e: spec_fn(HexLocation, HexLocation) -> bool,
    a: HexLocation,
    b: HexLocation,
) -> bool {
    exists|p: Seq<HexLocation>|
        #[trigger] is_chain(e, p) && p.len() >= 1 && p.first() == a && p.last() == b
}

/// The edge relation of the hive graph over the occupied set `s`:
/// adjacency between occupied cells.
pub open spec fn occ_edge(s: Set<HexLocation>) -> spec_fn(HexLocation, HexLocation) -> bool {
    |a: HexLocation, b: HexLocation| s.contains(a) && s.contains(b) && adjacent(a, b)
}

/// The connectivity rule: all occupied cells form one cluster. Holds
/// trivially of an empty or single-cell hive.
pub open spec fn hive_connected(s: Set<HexLocation>) -> bool {
    forall|a: HexLocation, b: HexLocation|
        s.contains(a) && s.contains(b) ==> #[trigger] linked(occ_edge(s), a, b)
}

/// One edge of a chain.
pub proof fn lemma_chain_index(
    e: spec_fn(HexLocation, HexLocation) -> bool,
    p: Seq<HexLocation>,
    i: int,
)
    requires
        is_chain(e, p),
        0 <= i < p.len() - 1,
    ensures
        e(p[i], p[i + 1]),
{
}

/// Reachability is reflexive: the one-cell chain.
pub proof fn lemma_linked_refl(e: spec_fn(HexLocation, HexLocation) -> bool, a: HexLocation)
    ensures
        linked(e, a, a),
{
    let p = seq![a];
    assert(is_chain(e, p) && p.len() >= 1 && p.first() == a && p.last() == a);
}

/// Reachability extends by one edge.
pub proof fn lemma_linked_step(
    e: spec_fn(HexLocation, HexLocation) -> bool,
    a: HexLocation,
    b: HexLocation,
    c: HexLocation,
)
    requires
        linked(e, a, b),
        e(b, c),
    ensures
        linked(e, a, c),
{
    let p = choose|p: Seq<HexLocation>|
        #[trigger] is_chain(e, p) && p.len() >= 1 && p.first() == a && p.last() == b;
    let q = p.push(c);
    assert forall|i: int| 0 <= i < q.len() - 1 implies #[trigger] e(q[i], q[i + 1]) by {
        if i < p.len() - 1 {
            assert(e(p[i], p[i + 1]));
            assert(q[i] == p[i] && q[i + 1] == p[i + 1]);
        } else {
            assert(q[i] == b && q[i + 1] == c);
        }
    }
    assert(is_chain(e, q) && q.len() >= 1 && q.first() == a && q.last() == c);
}

/// Reachability is transitive: chains concatenate.
pub proof fn lemma_linked_trans(
    e: spec_fn(HexLocation, HexLocation) -> bool,
    a: HexLocation,
    b: HexLocation,
    c: HexLocation,
)
    requires
        linked(e, a, b),
        linked(e, b, c),
    ensures
        linked(e, a, c),
{
    let q = choose|q: Seq<HexLocation>|
        #[trigger] is_chain(e, q) && q.len() >= 1 && q.first() == b && q.last() == c;
    lemma_linked_chain_extend(e, a, b, q);
}

proof fn lemma_linked_chain_extend(
    e: spec_fn(HexLocation, HexLocation) -> bool,
    a: HexLocation,
    b: HexLocation,
    q: Seq<HexLocation>,
)
    requires
        linked(e, a, b),
        is_chain(e, q),
        q.len() >= 1,
        q.first() == b,
    ensures
        linked(e, a, q.last()),
    decreases q.len(),
{
    if q.len() == 1 {
    } else {
        lemma_chain_index(e, q, 0);
        lemma_linked_step(e, a, b, q[1]);
        let q2 = q.drop_first();
        assert(is_chain(e, q2)) by {
            assert forall|i: int| 0 <= i < q2.len() - 1 implies #[trigger] e(q2[i], q2[i + 1]) by {
                lemma_chain_index(e, q, i + 1);
                assert(q2[i] == q[i + 1] && q2[i + 1] == q[i + 2]);
            }
        }
        lemma_linked_chain_extend(e, a, q[1], q2);
        assert(q2.last() == q.last());
    }
}

/// Along a symmetric edge relation, reachability is symmetric: the chain
/// reversed.
pub proof fn lemma_linked_reverse(
    e: spec_fn(HexLocation, HexLocation) -> bool,
    a: HexLocation,
    b: HexLocation,
)
    requires
        linked(e, a, b),
        forall|x: HexLocation, y: HexLocation| #[trigger] e(x, y) ==> e(y, x),
    ensures
        linked(e, b, a),
{
    let p = choose|p: Seq<HexLocation>|
        #[trigger] is_chain(e, p) && p.len() >= 1 && p.first() == a && p.last() == b;
    let n = p.len() as int;
    let q = Seq::new(p.len(), |i: int| p[n - 1 - i]);
    assert forall|i: int| 0 <= i < q.len() - 1 implies #[trigger] e(q[i], q[i + 1]) by {
        lemma_chain_index(e, p, n - 2 - i);
        assert(q[i] == p[n - 1 - i] && q[i + 1] == p[n - 2 - i]);
        assert(e(p[n - 2 - i], p[n - 1 - i]));
    }
    assert(is_chain(e, q) && q.len() >= 1 && q.first() == b && q.last() == a);
}

/// Nothing leaves a set that is closed under the edge relation: the last
/// cell of a chain that starts inside is inside.
pub proof fn lemma_closed_under_edges(
    e: spec_fn(HexLocation, HexLocation) -> bool,
    vs: Set<HexLocation>,
    p: Seq<HexLocation>,
)
    requires
        is_chain(e, p),
        p.len() >= 1,
        vs.contains(p.first()),
        forall|x: HexLocation, y: HexLocation|
            vs.contains(x) && #[trigger] e(x, y) ==> vs.contains(y),
    ensures
        vs.contains(p.last()),
    decreases p.len(),
{
    if p.len() > 1 {
        let q = p.drop_last();
        assert(is_chain(e, q)) by {
            assert forall|i: int| 0 <= i < q.len() - 1 implies #[trigger] e(q[i], q[i + 1]) by {
                lemma_chain_index(e, p, i);
                assert(q[i] == p[i] && q[i + 1] == p[i + 1]);
            }
        }
        lemma_closed_under_edges(e, vs, q);
        lemma_chain_index(e, p, p.len() - 2);
    }
}

/// Chains survive growing the occupied set.
pub proof fn lemma_chain_monotone(
    s1: Set<HexLocation>,
    s2: Set<HexLocation>,
    p: Seq<HexLocation>,
)
    requires
        is_chain(occ_edge(s1), p),
        forall|l: HexLocation| s1.contains(l) ==> s2.contains(l),
    ensures
        is_chain(occ_edge(s2), p),
{
    assert forall|i: int| 0 <= i < p.len() - 1 implies #[trigger] occ_edge(s2)(p[i], p[i + 1]) by {
        assert(occ_edge(s1)(p[i], p[i + 1]));
    }
}

/// The occupied set after lifting the top piece off `l`: the cell empties
/// only when a single piece was there.
pub open spec fn occ_set_after_lift(g: HexGrid, l: HexLocation) -> Set<HexLocation> {
    if g.pieces_at(l).len() == 1 {
        g.occ_set().remove(l)
    } else {
        g.occ_set()
    }
}

/// A pinned cell: occupied, and lifting its top piece leaves the remaining
/// occupied cells disconnected.
pub open spec fn pinned_spec(g: HexGrid, l: HexLocation) -> bool {
    g.occ(l) && !hive_connected(occ_set_after_lift(g, l))
}

/// Appending a fresh element keeps a sequence duplicate-free.
pub proof fn lemma_push_no_duplicates<A>(s: Seq<A>, x: A)
    requires
        s.no_duplicates(),
        !s.contains(x),
    ensures
        s.push(x).no_duplicates(),
{
    assert forall|a: int, b: int| 0 <= a < b < s.push(x).len() implies s.push(x)[a] != s.push(
        x,
    )[b] by {
        if b == s.len() as int {
            assert(s.contains(s[a]));
        }
    }
}

impl HexGrid {
    /// Whether all occupied cells form a single adjacency-connected
    /// cluster (trivially true of an empty or one-cell board).
    pub fn is_connected(&self) -> (r: bool)
        requires
            self.wf(),
        ensures
            r == hive_connected(self.occ_set()),
    {
        let ghost s = self.occ_set();
        let ghost e = occ_edge(s);
        let locs = self.occupied_locations();
        if locs.len() == 0 {
            proof {
                assert forall|a: HexLocation, b: HexLocation|
                    s.contains(a) && s.contains(b) implies #[trigger] linked(e, a, b) by {
                    assert(locs@.contains(a));
                }
            }
            return true;
        }
        let root = locs[0];
        proof {
            assert(locs@.contains(root));
            lemma_linked_refl(e, root);
        }
        let mut visited: Vec<HexLocation> = Vec::new();
        visited.push(root);
        let mut todo: Vec<HexLocation> = Vec::new();
        todo.push(root);
        while todo.len() > 0
            invariant
                self.wf(),
                s == self.occ_set(),
                e == occ_edge(s),
                locs@.no_duplicates(),
                forall|l: HexLocation| #[trigger] locs@.contains(l) <==> self.occ(l),
                forall|l: HexLocation| #[trigger] locs@.contains(l) ==> in_range(l),
                visited@.no_duplicates(),
                todo@.no_duplicates(),
                visited@.contains(root),
                forall|v: HexLocation| #[trigger] visited@.contains(v) ==> self.occ(v),
                forall|v: HexLocation| #[trigger] todo@.contains(v) ==> visited@.contains(v),
                forall|v: HexLocation| #[trigger] visited@.contains(v) ==> linked(e, root, v),
                forall|v: HexLocation, d: Direction|
                    visited@.contains(v) && !todo@.contains(v) && !coords_wrap(v, d) && self.occ(
                        #[trigger] spec_apply(v, d),
                    ) ==> visited@.contains(spec_apply(v, d)),
                visited@.len() <= locs@.len(),
            decreases 2 * (locs@.len() - visited@.len()) + todo@.len(),
        {
            let ghost todo_before = todo@;
            let ghost m0_visited = visited@.len() as int;
            let ghost m0_todo = todo@.len() as int;
            let v = todo.pop().unwrap();
            proof {
                assert(todo_before.contains(v));
                assert forall|w: HexLocation| #[trigger] todo@.contains(w) implies todo_before.contains(
                    w,
                ) && w != v by {
                    let j = choose|j: int| 0 <= j < todo@.len() && todo@[j] == w;
                    assert(todo_before[j] == w);
                    if w == v {
                        assert(todo_before[todo_before.len() - 1] == v);
                    }
                }
            }
            let dirs = Direction::all();
            let mut t: usize = 0;
            while t < 6
                invariant
                    self.wf(),
                    s == self.occ_set(),
                    e == occ_edge(s),
                    locs@.no_duplicates(),
                    forall|l: HexLocation| #[trigger] locs@.contains(l) <==> self.occ(l),
                    forall|l: HexLocation| #[trigger] locs@.contains(l) ==> in_range(l),
                    t <= 6,
                    dirs@ == crate::hex_grid::all_directions(),
                    visited@.no_duplicates(),
                    todo@.no_duplicates(),
                    visited@.contains(root),
                    visited@.contains(v),
                    self.occ(v),
                    !todo@.contains(v),
                    forall|w: HexLocation| #[trigger] visited@.contains(w) ==> self.occ(w),
                    forall|w: HexLocation| #[trigger] todo@.contains(w) ==> visited@.contains(w),
                    forall|w: HexLocation| #[trigger] visited@.contains(w) ==> linked(e, root, w),
                    forall|w: HexLocation, d: Direction|
                        visited@.contains(w) && !todo@.contains(w) && w != v && !coords_wrap(w, d)
                            && self.occ(#[trigger] spec_apply(w, d)) ==> visited@.contains(
                            spec_apply(w, d),
                        ),
                    forall|j: int|
                        0 <= j < t && !coords_wrap(v, #[trigger] dirs@[j]) && self.occ(
                            spec_apply(v, dirs@[j]),
                        ) ==> visited@.contains(spec_apply(v, dirs@[j])),
                    visited@.len() <= locs@.len(),
                    2 * (locs@.len() - visited@.len()) + todo@.len() <= 2 * (locs@.len()
                        - m0_visited) + m0_todo - 1,
                decreases 6 - t,
            {
                let ghost visited_before = visited@;
                let ghost todo_in = todo@;
                proof {
                    assert(locs@.contains(v));
                    assert(in_range(v));
                }
                let n = v.apply(dirs[t]);
                if self.occupied(n) && !loc_vec_contains(&visited, n) {
                    proof {
                        assert(e(v, n));
                        lemma_linked_step(e, root, v, n);
                    }
                    proof {
                        assert(!todo@.contains(n));
                        lemma_push_no_duplicates(visited@, n);
                        lemma_push_no_duplicates(todo@, n);
                    }
                    visited.push(n);
                    todo.push(n);
                    proof {
                        visited@.unique_seq_to_set();
                        locs@.unique_seq_to_set();
                        assert(visited@.to_set().subset_of(locs@.to_set())) by {
                            assert forall|w: HexLocation|
                                visited@.to_set().contains(w) implies locs@.to_set().contains(
                                w,
                            ) by {
                                assert(visited@.contains(w));
                                assert(locs@.contains(w));
                            }
                        }
                        vstd::set_lib::lemma_len_subset(visited@.to_set(), locs@.to_set());
                    }
                }
                proof {
                    assert forall|w: HexLocation, d: Direction|
                        visited@.contains(w) && !todo@.contains(w) && w != v && !coords_wrap(w, d)
                            && self.occ(#[trigger] spec_apply(w, d)) implies visited@.contains(
                        spec_apply(w, d),
                    ) by {
                        if visited_before.contains(w) {
                            assert(!todo_in.contains(w));
                            assert(visited_before.contains(spec_apply(w, d)));
                        } else {
                            assert(w == n);
                            assert(todo@.contains(n));
                        }
                    }
                    assert forall|j: int|
                        0 <= j < t + 1 && !coords_wrap(v, #[trigger] dirs@[j]) && self.occ(
                            spec_apply(v, dirs@[j]),
                        ) implies visited@.contains(spec_apply(v, dirs@[j])) by {
                        if j < t {
                            assert(visited_before.contains(spec_apply(v, dirs@[j])));
                        } else {
                            assert(spec_apply(v, dirs@[j]) == n);
                        }
                    }
                }
                t = t + 1;
            }
            proof {
                assert forall|w: HexLocation, d: Direction|
                    visited@.contains(w) && !todo@.contains(w) && !coords_wrap(w, d) && self.occ(
                        #[trigger] spec_apply(w, d),
                    ) implies visited@.contains(spec_apply(w, d)) by {
                    if w == v {
                        lemma_all_directions(d);
                        let j = choose|j: int|
                            0 <= j < crate::hex_grid::all_directions().len()
                                && crate::hex_grid::all_directions()[j] == d;
                        assert(dirs@[j] == d);
                    }
                }
            }
        }
        let r = visited.len() == locs.len();
        proof {
            let vset = visited@.to_set();
            visited@.unique_seq_to_set();
            locs@.unique_seq_to_set();
            assert(vset.subset_of(locs@.to_set())) by {
                assert forall|w: HexLocation| vset.contains(w) implies locs@.to_set().contains(
                    w,
                ) by {
                    assert(visited@.contains(w));
                    assert(locs@.contains(w));
                }
            }
            if r {
                vstd::set_lib::lemma_subset_equality(vset, locs@.to_set());
                assert forall|w: HexLocation| s.contains(w) implies visited@.contains(w) by {
                    assert(locs@.contains(w));
                    assert(locs@.to_set().contains(w));
                    assert(vset.contains(w));
                }
                assert forall|x: HexLocation, y: HexLocation| #[trigger] e(x, y) implies e(
                    y,
                    x,
                ) by {
                    if e(x, y) {
                        assert(locs@.contains(x));
                        lemma_adjacent_symmetric(x, y);
                    }
                }
                assert forall|a: HexLocation, b: HexLocation|
                    s.contains(a) && s.contains(b) implies #[trigger] linked(e, a, b) by {
                    assert(linked(e, root, a) && linked(e, root, b));
                    lemma_linked_reverse(e, root, a);
                    lemma_linked_trans(e, a, root, b);
                }
            } else {
                assert(visited@.len() < locs@.len());
                assert(!forall|j: int|
                    0 <= j < locs@.len() ==> visited@.contains(#[trigger] locs@[j])) by {
                    if forall|j: int|
                        0 <= j < locs@.len() ==> visited@.contains(#[trigger] locs@[j]) {
                        assert(locs@.to_set().subset_of(vset)) by {
                            assert forall|w: HexLocation|
                                locs@.to_set().contains(w) implies vset.contains(w) by {
                                assert(locs@.contains(w));
                                let j = choose|j: int|
                                    0 <= j < locs@.len() && locs@[j] == w;
                                assert(visited@.contains(locs@[j]));
                            }
                        }
                        vstd::set_lib::lemma_len_subset(locs@.to_set(), vset);
                    }
                }
                let j = choose|j: int|
                    0 <= j < locs@.len() && !visited@.contains(#[trigger] locs@[j]);
                let w = locs@[j];
                assert(locs@.contains(w));
                assert(s.contains(w) && s.contains(root));
                if linked(e, root, w) {
                    let p = choose|p: Seq<HexLocation>|
                        #[trigger] is_chain(e, p) && p.len() >= 1 && p.first() == root && p.last()
                            == w;
                    assert forall|x: HexLocation, y: HexLocation|
                        vset.contains(x) && #[trigger] e(x, y) implies vset.contains(y) by {
                        assert(visited@.contains(x));
                        assert(adjacent(x, y));
                        let d = choose|d: Direction|
                            #[trigger] spec_apply(x, d) == y && !coords_wrap(x, d);
                        assert(self.occ(spec_apply(x, d)));
                        assert(visited@.contains(spec_apply(x, d)));
                    }
                    lemma_closed_under_edges(e, vset, p);
                    assert(vset.contains(w));
                    assert(visited@.contains(w));
                    assert(false);
                }
                assert(!hive_connected(s));
            }
        }
        r
    }

    /// Every pinned cell: simulate lifting the top piece off each occupied
    /// cell in turn and re-check connectivity of the remainder.
    pub fn pinned(&self) -> (r: Vec<HexLocation>)
        requires
            self.wf(),
        ensures
            r@.no_duplicates(),
            forall|l: HexLocation| #[trigger] r@.contains(l) <==> pinned_spec(*self, l),
    {
        let locs = self.occupied_locations();
        let mut r: Vec<HexLocation> = Vec::new();
        let mut i: usize = 0;
        while i < locs.len()
            invariant
                self.wf(),
                i <= locs@.len(),
                locs@.no_duplicates(),
                forall|l: HexLocation| #[trigger] locs@.contains(l) <==> self.occ(l),
                r@.no_duplicates(),
                forall|l: HexLocation|
                    #[trigger] r@.contains(l) <==> exists|j: int|
                        0 <= j < i && l == locs@[j] && pinned_spec(*self, l),
            decreases locs@.len() - i,
        {
            let ghost r_before = r@;
            let location = locs[i];
            proof {
                assert(locs@.contains(location));
            }
            let mut trial = self.clone();
            let removed = trial.remove(location);
            proof {
                crate::hex_grid::lemma_somes_len(self.slots_at(location));
                assert(trial.occ_set() =~= occ_set_after_lift(*self, location)) by {
                    assert forall|l: HexLocation|
                        trial.occ_set().contains(l) <==> occ_set_after_lift(
                            *self,
                            location,
                        ).contains(l) by {
                        if l != location {
                            assert(trial.slots_at(l) == self.slots_at(l));
                        } else {
                            assert(trial.pieces_at(location) == self.pieces_at(
                                location,
                            ).drop_first());
                            crate::hex_grid::lemma_somes_len(trial.slots_at(location));
                        }
                    }
                }
            }
            if !trial.is_connected() {
                proof {
                    assert(!r@.contains(location)) by {
                        if r@.contains(location) {
                            let j = choose|j: int|
                                0 <= j < i && location == locs@[j] && pinned_spec(*self, location);
                            assert(locs@[j] != locs@[i as int]);
                        }
                    }
                    lemma_push_no_duplicates(r@, location);
                }
                r.push(location);
            }
            proof {
                assert forall|l: HexLocation| #[trigger] r@.contains(l) implies exists|j: int|
                    0 <= j < i + 1 && l == locs@[j] && pinned_spec(*self, l) by {
                    if r_before.contains(l) {
                        let j = choose|j: int|
                            0 <= j < i && l == locs@[j] && pinned_spec(*self, l);
                    } else {
                        assert(l == location && locs@[i as int] == l);
                    }
                }
                assert forall|l: HexLocation|
                    (exists|j: int| 0 <= j < i + 1 && l == locs@[j] && pinned_spec(*self, l))
                    implies #[trigger] r@.contains(l) by {
                    let j = choose|j: int|
                        0 <= j < i + 1 && l == locs@[j] && pinned_spec(*self, l);
                    if j < i {
                        assert(r_before.contains(l));
                    } else {
                        assert(l == location);
                    }
                }
            }
            i = i + 1;
        }
        proof {
            assert forall|l: HexLocation| #[trigger] r@.contains(l) implies pinned_spec(
                *self,
                l,
            ) by {
                let j = choose|j: int|
                    0 <= j < locs@.len() && l == locs@[j] && pinned_spec(*self, l);
            }
            assert forall|l: HexLocation| pinned_spec(*self, l) implies #[trigger] r@.contains(
                l,
            ) by {
                assert(locs@.contains(l));
                let j = choose|j: int| 0 <= j < locs@.len() && locs@[j] == l;
            }
        }
        r
    }
}

} // verus!
