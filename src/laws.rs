//! Laws of the move engine: phase cycling, clicks that change nothing, clicks that
//! remove a group, and the bound on the length of any play.
use vstd::prelude::*;

use crate::board::{at, click_grid, clicked_phase, in_bounds, next_phase, occupied_tiles,
    scan_index, scan_order, scan_tile, touches, wf_grid, Grid, Tile, HEIGHT, WIDTH};
use crate::connectivity::{adjacent, cluster_of, group_of, has_link, is_path, lemma_connected_end,
    lemma_connected_step, lemma_single_path, linked};

verus! {

/// The grid after the clicks of `moves`, in order.
pub open spec fn after(g: Grid, moves: Seq<Tile>) -> Grid
    decreases moves.len(),
{
    if moves.len() == 0 {
        g
    } else {
        click_grid(after(g, moves.drop_last()), moves.last())
    }
}

/// Every click of `moves` hits a group of the grid it is made on.
pub open spec fn valid_play(g: Grid, moves: Seq<Tile>) -> bool
    decreases moves.len(),
{
    if moves.len() == 0 {
        true
    } else {
        valid_play(g, moves.drop_last()) && in_bounds(moves.last()) && has_link(
            after(g, moves.drop_last()),
            true,
            moves.last(),
        )
    }
}

/// No tile of `g` has a neighbour of its own phase: no click changes anything.
pub open spec fn is_terminal(g: Grid) -> bool {
    forall|t: Tile| in_bounds(t) ==> !#[trigger] has_link(g, true, t)
}

/// Advancing walks the cycle 1 -> 2 -> 3 -> 4 -> 1, and an empty tile stays empty.
pub proof fn law_advance_cycles(v: u8)
    requires
        v <= 4,
    ensures
        next_phase(0) == 0,
        next_phase(1) == 2,
        next_phase(2) == 3,
        next_phase(3) == 4,
        next_phase(4) == 1,
        v != 0 ==> next_phase(v) != 0 && next_phase(v) != v && next_phase(v) <= 4,
        next_phase(next_phase(next_phase(next_phase(v)))) == v,
{
}

/// A click keeps the grid's shape and its phases in range.
pub proof fn lemma_click_wf(g: Grid, p: Tile)
    requires
        wf_grid(g),
    ensures
        wf_grid(click_grid(g, p)),
        forall|q: Tile| in_bounds(q) ==> #[trigger] at(click_grid(g, p), q) == clicked_phase(g, p, q),
{
    let c = click_grid(g, p);
    assert forall|q: Tile| in_bounds(q) implies #[trigger] at(c, q) == clicked_phase(g, p, q) by {
        assert(c[q.1 as int][q.0 as int] == clicked_phase(g, p, ((q.0 as int) as usize, (q.1 as int) as usize)));
    }
    assert forall|q: Tile| in_bounds(q) implies #[trigger] at(c, q) <= 4 by {
        assert(at(g, q) <= 4);
    }
}

/// A click on a tile without a group leaves the grid as it was.
pub proof fn law_click_without_group_changes_nothing(g: Grid, p: Tile)
    requires
        wf_grid(g),
        group_of(g, p) == Set::<Tile>::empty(),
    ensures
        click_grid(g, p) == g,
{
    let c = click_grid(g, p);
    assert forall|y: int| 0 <= y < HEIGHT implies #[trigger] c[y] =~= g[y] by {
        assert forall|x: int| 0 <= x < WIDTH implies c[y][x] == g[y][x] by {
            let q: Tile = (x as usize, y as usize);
            assert(!group_of(g, p).contains(q));
            assert(!touches(group_of(g, p), q));
            assert(at(g, q) == g[y][x]);
        }
    }
    assert(c =~= g);
}

proof fn lemma_filter_split(s: Seq<Tile>, f: spec_fn(Tile) -> bool, h: spec_fn(Tile) -> bool)
    ensures
        s.filter(f).len() == s.filter(|t: Tile| f(t) && h(t)).len() + s.filter(|t: Tile| f(t) && !h(t)).len(),
    decreases s.len(),
{
    reveal(Seq::filter);
    if s.len() > 0 {
        lemma_filter_split(s.drop_last(), f, h);
    }
}

proof fn lemma_filter_congruent(s: Seq<Tile>, f1: spec_fn(Tile) -> bool, f2: spec_fn(Tile) -> bool)
    requires
        forall|i: int| 0 <= i < s.len() ==> f1(#[trigger] s[i]) == f2(s[i]),
    ensures
        s.filter(f1) == s.filter(f2),
    decreases s.len(),
{
    reveal(Seq::filter);
    if s.len() > 0 {
        assert forall|i: int| 0 <= i < s.drop_last().len() implies f1(#[trigger] s.drop_last()[i]) == f2(
            s.drop_last()[i],
        ) by {
            assert(s.drop_last()[i] == s[i]);
        }
        lemma_filter_congruent(s.drop_last(), f1, f2);
        assert(f1(s[s.len() - 1]) == f2(s[s.len() - 1]));
    }
}

/// Membership in a filtered sequence.
pub proof fn lemma_filter_members(s: Seq<Tile>, f: spec_fn(Tile) -> bool, t: Tile)
    ensures
        s.filter(f).contains(t) <==> s.contains(t) && f(t),
    decreases s.len(),
{
    reveal(Seq::filter);
    if s.len() > 0 {
        let d = s.drop_last();
        lemma_filter_members(d, f, t);
        if s.contains(t) && t != s.last() {
            let k = choose|k: int| 0 <= k < s.len() && s[k] == t;
            assert(d[k] == t);
        }
        if d.contains(t) {
            let k = choose|k: int| 0 <= k < d.len() && d[k] == t;
            assert(s[k] == t);
        }
        if s.filter(f).contains(t) && f(s.last()) && t != s.last() {
            let fd = d.filter(f);
            let k = choose|k: int| 0 <= k < fd.push(s.last()).len() && fd.push(s.last())[k] == t;
            assert(fd[k] == t);
        }
        if f(s.last()) && t == s.last() {
            let fd = d.filter(f);
            assert(fd.push(s.last())[fd.len() as int] == t);
        }
        if f(s.last()) && d.filter(f).contains(t) {
            let fd = d.filter(f);
            let k = choose|k: int| 0 <= k < fd.len() && fd[k] == t;
            assert(fd.push(s.last())[k] == t);
        }
    }
}

proof fn lemma_filter_unique(s: Seq<Tile>, f: spec_fn(Tile) -> bool)
    requires
        s.no_duplicates(),
    ensures
        s.filter(f).no_duplicates(),
        forall|t: Tile| #[trigger] s.filter(f).contains(t) <==> s.contains(t) && f(t),
    decreases s.len(),
{
    reveal(Seq::filter);
    if s.len() > 0 {
        let d = s.drop_last();
        assert forall|i: int, j: int| 0 <= i < j < d.len() implies d[i] != d[j] by {
            assert(d[i] == s[i] && d[j] == s[j]);
        }
        lemma_filter_unique(d, f);
        assert forall|t: Tile| #[trigger] s.contains(t) <==> d.contains(t) || t == s.last() by {
            if s.contains(t) && t != s.last() {
                let k = choose|k: int| 0 <= k < s.len() && s[k] == t;
                assert(d[k] == t);
            }
            if d.contains(t) {
                let k = choose|k: int| 0 <= k < d.len() && d[k] == t;
                assert(s[k] == t);
            }
        }
        assert(!d.contains(s.last())) by {
            if d.contains(s.last()) {
                let k = choose|k: int| 0 <= k < d.len() && d[k] == s.last();
                assert(s[k] == s[s.len() - 1]);
            }
        }
        let fd = d.filter(f);
        if f(s.last()) {
            let r = fd.push(s.last());
            assert forall|t: Tile| #[trigger] r.contains(t) <==> fd.contains(t) || t == s.last() by {
                if r.contains(t) && t != s.last() {
                    let k = choose|k: int| 0 <= k < r.len() && r[k] == t;
                    assert(fd[k] == t);
                }
                if fd.contains(t) {
                    let k = choose|k: int| 0 <= k < fd.len() && fd[k] == t;
                    assert(r[k] == t);
                }
                if t == s.last() {
                    assert(r[fd.len() as int] == t);
                }
            }
            assert forall|i: int, j: int| 0 <= i < j < r.len() implies r[i] != r[j] by {
                if j == r.len() - 1 {
                    assert(fd.contains(r[i]));
                }
            }
        }
    }
}

/// The scan visits every position of the board once.
pub proof fn lemma_scan_order()
    ensures
        scan_order().no_duplicates(),
        forall|t: Tile| #[trigger] scan_order().contains(t) <==> in_bounds(t),
{
    let s = scan_order();
    assert forall|i: int, j: int| 0 <= i < j < s.len() implies s[i] != s[j] by {
        assert(scan_index(scan_tile(i)) == i);
        assert(scan_index(scan_tile(j)) == j);
    }
    assert forall|t: Tile| #[trigger] s.contains(t) <==> in_bounds(t) by {
        if in_bounds(t) {
            let k = scan_index(t);
            assert(s[k] == t);
        }
    }
}

/// A click on a tile with a group empties exactly the group's tiles: the number of
/// non-empty tiles drops by the group's size, which is at least two.
pub proof fn law_click_removes_group(g: Grid, p: Tile)
    requires
        wf_grid(g),
        in_bounds(p),
        has_link(g, true, p),
    ensures
        group_of(g, p).finite(),
        group_of(g, p).len() >= 2,
        occupied_tiles(click_grid(g, p)).len() + group_of(g, p).len() == occupied_tiles(g).len(),
{
    let c = click_grid(g, p);
    let gs = group_of(g, p);
    let s = scan_order();
    lemma_scan_order();
    lemma_click_wf(g, p);
    let occ_old = |t: Tile| at(g, t) != 0;
    let occ_new = |t: Tile| at(c, t) != 0;
    let in_g = |t: Tile| gs.contains(t);
    assert forall|t: Tile| #[trigger] gs.contains(t) implies in_bounds(t) && at(g, t) != 0 by {
        lemma_connected_end(g, true, p, t);
    }
    lemma_filter_split(s, occ_old, in_g);
    assert forall|i: int| 0 <= i < s.len() implies occ_new(#[trigger] s[i]) == (occ_old(s[i]) && !in_g(s[i])) by {
        assert(s.contains(s[i]));
        assert(at(g, s[i]) <= 4);
    }
    lemma_filter_congruent(s, occ_new, |t: Tile| occ_old(t) && !in_g(t));
    assert forall|i: int| 0 <= i < s.len() implies in_g(#[trigger] s[i]) == (occ_old(s[i]) && in_g(s[i])) by {}
    lemma_filter_congruent(s, in_g, |t: Tile| occ_old(t) && in_g(t));
    lemma_filter_unique(s, in_g);
    let fg = s.filter(in_g);
    assert(fg.to_set() =~= gs);
    fg.unique_seq_to_set();
    // two distinct members: p and a neighbour of its phase
    let n = choose|n: Tile| #[trigger] linked(g, true, p, n);
    lemma_single_path(g, true, p);
    crate::connectivity::lemma_connected_step(g, true, p, p, n);
    assert(gs.contains(p) && gs.contains(n) && p != n);
    assert(fg.contains(p) && fg.contains(n));
    let ip = choose|i: int| 0 <= i < fg.len() && fg[i] == p;
    let jn = choose|i: int| 0 <= i < fg.len() && fg[i] == n;
    assert(ip != jn);
}

/// Extending a play by one click.
pub proof fn lemma_play_push(g: Grid, moves: Seq<Tile>, t: Tile)
    ensures
        after(g, moves.push(t)) == click_grid(after(g, moves), t),
        valid_play(g, moves.push(t)) == (valid_play(g, moves) && in_bounds(t) && has_link(
            after(g, moves),
            true,
            t,
        )),
{
    assert(moves.push(t).drop_last() =~= moves);
}

/// The empty play.
pub proof fn lemma_play_empty(g: Grid)
    ensures
        after(g, Seq::<Tile>::empty()) == g,
        valid_play(g, Seq::<Tile>::empty()),
{
}

/// Every grid a play passes through keeps the board's shape and phases.
pub proof fn lemma_after_wf(g: Grid, moves: Seq<Tile>)
    requires
        wf_grid(g),
    ensures
        wf_grid(after(g, moves)),
    decreases moves.len(),
{
    if moves.len() > 0 {
        lemma_after_wf(g, moves.drop_last());
        lemma_click_wf(after(g, moves.drop_last()), moves.last());
    }
}

/// Each click of a play removes at least two tiles and no click adds one, so a play
/// from `g` has at most half as many clicks as `g` has non-empty tiles: every
/// exhaustive search over plays ends.
pub proof fn law_play_length(g: Grid, moves: Seq<Tile>)
    requires
        wf_grid(g),
        valid_play(g, moves),
    ensures
        occupied_tiles(after(g, moves)).len() + 2 * moves.len() <= occupied_tiles(g).len(),
        2 * moves.len() <= occupied_tiles(g).len(),
    decreases moves.len(),
{
    if moves.len() > 0 {
        let m = moves.drop_last();
        law_play_length(g, m);
        lemma_after_wf(g, m);
        law_click_removes_group(after(g, m), moves.last());
    }
}

/// A group lies inside the cluster of any of its tiles.
pub proof fn lemma_group_in_cluster(g: Grid, p: Tile, q: Tile)
    requires
        group_of(g, p).contains(q),
    ensures
        cluster_of(g, p).contains(q),
{
    let path = choose|path: Seq<Tile>| #[trigger] is_path(g, true, path) && path[0] == p && path.last() == q;
    assert forall|i: int| 0 <= i < path.len() - 1 implies #[trigger] linked(g, false, path[i], path[i + 1]) by {
        assert(linked(g, true, path[i], path[i + 1]));
    }
    assert(is_path(g, false, path));
    let n = choose|n: Tile| #[trigger] linked(g, true, p, n);
    assert(linked(g, false, p, n));
}

/// A click changes no tile outside the cluster of the clicked tile, so clusters are
/// independent parts of the board.
pub proof fn law_click_stays_in_cluster(g: Grid, p: Tile, q: Tile)
    requires
        wf_grid(g),
        in_bounds(q),
        !cluster_of(g, p).contains(q),
    ensures
        at(click_grid(g, p), q) == at(g, q),
{
    lemma_click_wf(g, p);
    let gs = group_of(g, p);
    if gs.contains(q) {
        lemma_group_in_cluster(g, p, q);
    }
    if touches(gs, q) && at(g, q) != 0 {
        let u = choose|u: Tile| gs.contains(u) && #[trigger] adjacent(u, q);
        lemma_group_in_cluster(g, p, u);
        lemma_connected_end(g, true, p, u);
        assert(linked(g, false, u, q));
        lemma_connected_step(g, false, p, u, q);
    }
}

} // verus!
