//! Paths through the grid and the regions they connect, with the lemmas that
//! make regions behave as equivalence classes.
use vstd::prelude::*;

use crate::board::{at, in_bounds, Grid, Tile};

verus! {

/// `a` and `b` are orthogonal neighbours on the board.
pub open spec fn adjacent(a: Tile, b: Tile) -> bool {
    &&& in_bounds(a)
    &&& in_bounds(b)
    &&& {
        ||| a.0 == b.0 && a.1 + 1 == b.1
        ||| a.0 == b.0 && b.1 + 1 == a.1
        ||| a.1 == b.1 && a.0 + 1 == b.0
        ||| a.1 == b.1 && b.0 + 1 == a.0
    }
}

/// One step of a region: two non-empty neighbours, of the same phase when `same` holds.
/// With `same` this is the relation of groups, without it the relation of clusters.
pub open spec fn linked(g: Grid, same: bool, a: Tile, b: Tile) -> bool {
    &&& adjacent(a, b)
    &&& at(g, a) != 0
    &&& at(g, b) != 0
    &&& (same ==> at(g, a) == at(g, b))
}

/// `p` is a walk over non-empty tiles whose consecutive members are linked.
pub open spec fn is_path(g: Grid, same: bool, p: Seq<Tile>) -> bool {
    &&& p.len() >= 1
    &&& in_bounds(p[0])
    &&& at(g, p[0]) != 0
    &&& forall|i: int| 0 <= i < p.len() - 1 ==> #[trigger] linked(g, same, p[i], p[i + 1])
}

/// Some path leads from `a` to `b`.
pub open spec fn connected(g: Grid, same: bool, a: Tile, b: Tile) -> bool {
    exists|p: Seq<Tile>| #[trigger] is_path(g, same, p) && p[0] == a && p.last() == b
}

/// Every tile that a path from `a` reaches; empty when `a` is empty.
pub open spec fn region(g: Grid, same: bool, a: Tile) -> Set<Tile> {
    Set::new(|b: Tile| connected(g, same, a, b))
}

/// `a` has at least one linked neighbour.
pub open spec fn has_link(g: Grid, same: bool, a: Tile) -> bool {
    exists|b: Tile| #[trigger] linked(g, same, a, b)
}

/// The region of `a` when it holds two tiles or more, else nothing.
pub open spec fn part_of(g: Grid, same: bool, a: Tile) -> Set<Tile> {
    if has_link(g, same, a) {
        region(g, same, a)
    } else {
        Set::empty()
    }
}

/// The group of `a`: its same-phase region when that holds two tiles or more, else nothing.
pub open spec fn group_of(g: Grid, a: Tile) -> Set<Tile> {
    part_of(g, true, a)
}

/// The cluster of `a`: its region of non-empty tiles when that holds two tiles or more,
/// else nothing.
pub open spec fn cluster_of(g: Grid, a: Tile) -> Set<Tile> {
    part_of(g, false, a)
}

pub proof fn lemma_single_path(g: Grid, same: bool, a: Tile)
    requires
        in_bounds(a),
        at(g, a) != 0,
    ensures
        is_path(g, same, seq![a]),
        connected(g, same, a, a),
{
    let p = seq![a];
    assert(is_path(g, same, p));
}

pub proof fn lemma_path_push(g: Grid, same: bool, p: Seq<Tile>, b: Tile)
    requires
        is_path(g, same, p),
        linked(g, same, p.last(), b),
    ensures
        is_path(g, same, p.push(b)),
        p.push(b)[0] == p[0],
        p.push(b).last() == b,
{
    let q = p.push(b);
    assert forall|i: int| 0 <= i < q.len() - 1 implies #[trigger] linked(g, same, q[i], q[i + 1]) by {
        if i < p.len() - 1 {
            assert(linked(g, same, p[i], p[i + 1]));
        }
    }
}

pub proof fn lemma_connected_step(g: Grid, same: bool, a: Tile, b: Tile, c: Tile)
    requires
        connected(g, same, a, b),
        linked(g, same, b, c),
    ensures
        connected(g, same, a, c),
{
    let p = choose|p: Seq<Tile>| #[trigger] is_path(g, same, p) && p[0] == a && p.last() == b;
    lemma_path_push(g, same, p, c);
}

pub proof fn lemma_path_reverse(g: Grid, same: bool, p: Seq<Tile>)
    requires
        is_path(g, same, p),
    ensures
        is_path(g, same, p.reverse()),
        p.reverse()[0] == p.last(),
        p.reverse().last() == p[0],
{
    let q = p.reverse();
    if p.len() > 1 {
        assert(linked(g, same, p[p.len() - 2], p[(p.len() - 2) + 1]));
    }
    assert forall|i: int| 0 <= i < q.len() - 1 implies #[trigger] linked(g, same, q[i], q[i + 1]) by {
        let j = p.len() - 2 - i;
        assert(linked(g, same, p[j], p[j + 1]));
        assert(q[i] == p[j + 1]);
        assert(q[i + 1] == p[j]);
    }
}

pub proof fn lemma_connected_symmetric(g: Grid, same: bool, a: Tile, b: Tile)
    requires
        connected(g, same, a, b),
    ensures
        connected(g, same, b, a),
{
    let p = choose|p: Seq<Tile>| #[trigger] is_path(g, same, p) && p[0] == a && p.last() == b;
    lemma_path_reverse(g, same, p);
}

pub proof fn lemma_connected_transitive(g: Grid, same: bool, a: Tile, b: Tile, c: Tile)
    requires
        connected(g, same, a, b),
        connected(g, same, b, c),
    ensures
        connected(g, same, a, c),
{
    let p = choose|p: Seq<Tile>| #[trigger] is_path(g, same, p) && p[0] == a && p.last() == b;
    let q = choose|q: Seq<Tile>| #[trigger] is_path(g, same, q) && q[0] == b && q.last() == c;
    let r = p + q.drop_first();
    assert forall|i: int| 0 <= i < r.len() - 1 implies #[trigger] linked(g, same, r[i], r[i + 1]) by {
        if i < p.len() - 1 {
            assert(linked(g, same, p[i], p[i + 1]));
        } else {
            let j = i - p.len() + 1;
            assert(linked(g, same, q[j], q[j + 1]));
        }
    }
    assert(is_path(g, same, r));
}

/// Two tiles of one region have the same region.
pub proof fn lemma_region_shared(g: Grid, same: bool, a: Tile, b: Tile)
    requires
        connected(g, same, a, b),
    ensures
        region(g, same, a) == region(g, same, b),
{
    assert forall|c: Tile| region(g, same, a).contains(c) == region(g, same, b).contains(c) by {
        lemma_connected_symmetric(g, same, a, b);
        if connected(g, same, a, c) {
            lemma_connected_transitive(g, same, b, a, c);
        }
        if connected(g, same, b, c) {
            lemma_connected_transitive(g, same, a, b, c);
        }
    }
    assert(region(g, same, a) =~= region(g, same, b));
}

proof fn lemma_closed_holds_path(g: Grid, same: bool, s: Set<Tile>, p: Seq<Tile>, k: int)
    requires
        is_path(g, same, p),
        s.contains(p[0]),
        forall|u: Tile, v: Tile| s.contains(u) && #[trigger] linked(g, same, u, v) ==> s.contains(v),
        0 <= k < p.len(),
    ensures
        s.contains(p[k]),
    decreases k,
{
    if k > 0 {
        lemma_closed_holds_path(g, same, s, p, k - 1);
        assert(linked(g, same, p[k - 1], p[(k - 1) + 1]));
    }
}

/// A set that holds `a` and is closed under `linked` holds the whole region of `a`.
pub proof fn lemma_closed_holds_region(g: Grid, same: bool, s: Set<Tile>, a: Tile, b: Tile)
    requires
        s.contains(a),
        forall|u: Tile, v: Tile| s.contains(u) && #[trigger] linked(g, same, u, v) ==> s.contains(v),
        connected(g, same, a, b),
    ensures
        s.contains(b),
{
    let p = choose|p: Seq<Tile>| #[trigger] is_path(g, same, p) && p[0] == a && p.last() == b;
    lemma_closed_holds_path(g, same, s, p, p.len() - 1);
}

/// A path that leaves its first tile starts with a linked neighbour of it.
pub proof fn lemma_connected_other_has_link(g: Grid, same: bool, a: Tile, b: Tile)
    requires
        connected(g, same, a, b),
        a != b,
    ensures
        has_link(g, same, a),
{
    let p = choose|p: Seq<Tile>| #[trigger] is_path(g, same, p) && p[0] == a && p.last() == b;
    assert(p.len() > 1);
    assert(linked(g, same, p[0int], p[0int + 1]));
}

/// Every member of a region of two tiles or more has a linked neighbour.
pub proof fn lemma_region_member_has_link(g: Grid, same: bool, a: Tile, b: Tile)
    requires
        has_link(g, same, a),
        connected(g, same, a, b),
    ensures
        has_link(g, same, b),
{
    let n = choose|n: Tile| #[trigger] linked(g, same, a, n);
    lemma_single_path(g, same, a);
    lemma_connected_step(g, same, a, a, n);
    lemma_connected_symmetric(g, same, a, b);
    if b != a {
        lemma_connected_other_has_link(g, same, b, a);
    } else {
        assert(linked(g, same, b, n));
    }
}

/// Regions hold non-empty tiles of the board only.
pub proof fn lemma_connected_end(g: Grid, same: bool, a: Tile, b: Tile)
    requires
        connected(g, same, a, b),
    ensures
        in_bounds(b),
        at(g, b) != 0,
        in_bounds(a),
        at(g, a) != 0,
{
    let p = choose|p: Seq<Tile>| #[trigger] is_path(g, same, p) && p[0] == a && p.last() == b;
    if p.len() > 1 {
        assert(linked(g, same, p[p.len() - 2], p[(p.len() - 2) + 1]));
    }
}

} // verus!
