//! The plays that the exhaustive search walks through, and the facts that let it claim
//! the best of them.
use vstd::prelude::*;

use crate::board::{dead_tiles, in_bounds, is_group_listing, scan_index, scan_order,
    Grid, Tile};
use crate::connectivity::{group_of, has_link, lemma_connected_end, lemma_region_shared};
use crate::laws::{after, is_terminal, valid_play};

verus! {

/// `t` is the tile the search clicks for its group: it has a group and comes first in
/// scan order among the group's tiles.
pub open spec fn is_representative(g: Grid, t: Tile) -> bool {
    &&& in_bounds(t)
    &&& has_link(g, true, t)
    &&& forall|q: Tile| #[trigger] group_of(g, t).contains(q) ==> scan_index(t) <= scan_index(q)
}

/// A play that clicks representatives only and after each click leaves at most `limit`
/// dead tiles.
pub open spec fn bounded_play(g: Grid, moves: Seq<Tile>, limit: u32) -> bool
    decreases moves.len(),
{
    if moves.len() == 0 {
        true
    } else {
        &&& bounded_play(g, moves.drop_last(), limit)
        &&& is_representative(after(g, moves.drop_last()), moves.last())
        &&& dead_tiles(after(g, moves)).len() <= limit
    }
}

/// `p` is a prefix of `m`.
pub open spec fn is_prefix(p: Seq<Tile>, m: Seq<Tile>) -> bool {
    p.len() <= m.len() && m.take(p.len() as int) == p
}

/// Some bounded play from `g` ends without groups.
pub open spec fn has_bounded_finish(g: Grid, limit: u32) -> bool {
    exists|m: Seq<Tile>| #[trigger] bounded_play(g, m, limit) && is_terminal(after(g, m))
}

/// The first ceiling of 0, 5, 10, 15, 20 under which some bounded play ends without
/// groups; 20 when none does.
pub open spec fn first_ceiling(g: Grid) -> u32 {
    if has_bounded_finish(g, 0) {
        0
    } else if has_bounded_finish(g, 5) {
        5
    } else if has_bounded_finish(g, 10) {
        10
    } else if has_bounded_finish(g, 15) {
        15
    } else {
        20
    }
}

/// Bounded plays are plays.
pub proof fn lemma_bounded_is_valid(g: Grid, m: Seq<Tile>, limit: u32)
    requires
        bounded_play(g, m, limit),
    ensures
        valid_play(g, m),
    decreases m.len(),
{
    if m.len() > 0 {
        lemma_bounded_is_valid(g, m.drop_last(), limit);
    }
}

/// A play bounded by a lower ceiling is bounded by a higher one.
pub proof fn lemma_bounded_weaken(g: Grid, m: Seq<Tile>, a: u32, b: u32)
    requires
        bounded_play(g, m, a),
        a <= b,
    ensures
        bounded_play(g, m, b),
    decreases m.len(),
{
    if m.len() > 0 {
        lemma_bounded_weaken(g, m.drop_last(), a, b);
    }
}

/// Every prefix of a bounded play is bounded.
pub proof fn lemma_bounded_prefix(g: Grid, m: Seq<Tile>, limit: u32, k: int)
    requires
        bounded_play(g, m, limit),
        0 <= k <= m.len(),
    ensures
        bounded_play(g, m.take(k), limit),
    decreases m.len() - k,
{
    if k == m.len() {
        assert(m.take(k) =~= m);
    } else {
        lemma_bounded_prefix(g, m, limit, k + 1);
        assert(m.take(k + 1).drop_last() =~= m.take(k));
    }
}

/// One step along a play: the grid after `k + 1` moves, and what boundedness says of move
/// `k`.
pub proof fn lemma_bounded_step(g: Grid, m: Seq<Tile>, limit: u32, k: int)
    requires
        bounded_play(g, m, limit),
        0 <= k < m.len(),
    ensures
        is_representative(after(g, m.take(k)), m[k]),
        dead_tiles(after(g, m.take(k + 1))).len() <= limit,
        after(g, m.take(k + 1)) == crate::board::click_grid(after(g, m.take(k)), m[k]),
{
    lemma_bounded_prefix(g, m, limit, k + 1);
    assert(m.take(k + 1).drop_last() =~= m.take(k));
    assert(m.take(k + 1).last() == m[k]);
}

/// A representative is the first tile of the group of it in any listing of groups.
pub proof fn lemma_representative_listed(g: Grid, gv: Seq<Seq<Tile>>, t: Tile)
    requires
        is_group_listing(g, gv),
        is_representative(g, t),
    ensures
        exists|i: int| 0 <= i < gv.len() && #[trigger] gv[i][0] == t,
{
    let i = choose|i: int| 0 <= i < gv.len() && #[trigger] gv[i].contains(t);
    let r = gv[i][0];
    assert(gv[i].to_set().contains(t));
    assert(gv[i].contains(r));
    assert(gv[i].to_set().contains(r));
    assert(has_link(g, true, r));
    lemma_region_shared(g, true, r, t);
    assert(group_of(g, t) == gv[i].to_set());
    assert(group_of(g, t).contains(r));
    lemma_connected_end(g, true, r, t);
    lemma_connected_end(g, true, r, r);
    assert(scan_index(t) == scan_index(r));
}

/// The first tiles of a listing of groups are representatives.
pub proof fn lemma_listed_representative(g: Grid, gv: Seq<Seq<Tile>>, i: int)
    requires
        is_group_listing(g, gv),
        0 <= i < gv.len(),
    ensures
        is_representative(g, gv[i][0]),
{
    let r = gv[i][0];
    assert(gv[i].contains(r));
    assert(gv[i].to_set().contains(r));
    lemma_connected_end(g, true, r, r);
    assert forall|q: Tile| #[trigger] group_of(g, r).contains(q) implies scan_index(r) <= scan_index(q) by {
        assert(gv[i].to_set().contains(q));
    }
}

/// The representatives of `g`, in scan order: the tiles the search clicks.
pub open spec fn representatives(g: Grid) -> Seq<Tile> {
    scan_order().filter(|t: Tile| is_representative(g, t))
}

/// The first tile of each group of a listing.
pub open spec fn firsts(gv: Seq<Seq<Tile>>) -> Seq<Tile> {
    gv.map_values(|v: Seq<Tile>| v[0])
}

/// `s` holds tiles of the board in strictly increasing scan order.
pub open spec fn scan_sorted(s: Seq<Tile>) -> bool {
    &&& forall|i: int| 0 <= i < s.len() ==> in_bounds(#[trigger] s[i])
    &&& forall|i: int, j: int| 0 <= i < j < s.len() ==> scan_index(#[trigger] s[i]) < scan_index(#[trigger] s[j])
}

proof fn lemma_filter_scan_sorted(s: Seq<Tile>, f: spec_fn(Tile) -> bool)
    requires
        scan_sorted(s),
    ensures
        scan_sorted(s.filter(f)),
    decreases s.len(),
{
    reveal(Seq::filter);
    if s.len() > 0 {
        let d = s.drop_last();
        assert forall|i: int, j: int| 0 <= i < j < d.len() implies scan_index(#[trigger] d[i]) < scan_index(#[trigger] d[j]) by {
            assert(d[i] == s[i] && d[j] == s[j]);
        }
        assert forall|i: int| 0 <= i < d.len() implies in_bounds(#[trigger] d[i]) by {
            assert(d[i] == s[i]);
        }
        lemma_filter_scan_sorted(d, f);
        let fd = d.filter(f);
        if f(s.last()) {
            assert forall|i: int| 0 <= i < fd.len() implies scan_index(#[trigger] fd[i]) < scan_index(s.last()) by {
                assert(fd.contains(fd[i]));
                crate::laws::lemma_filter_members(d, f, fd[i]);
                let k = choose|k: int| 0 <= k < d.len() && d[k] == fd[i];
                assert(s[k] == fd[i]);
            }
        }
    }
}

/// Two scan-sorted sequences with the same members are equal.
proof fn lemma_scan_sorted_unique(a: Seq<Tile>, b: Seq<Tile>)
    requires
        scan_sorted(a),
        scan_sorted(b),
        forall|t: Tile| a.contains(t) <==> b.contains(t),
    ensures
        a == b,
    decreases a.len(),
{
    if a.len() == 0 {
        if b.len() > 0 {
            assert(b.contains(b[0]));
        }
        assert(a =~= b);
    } else if b.len() == 0 {
        assert(a.contains(a[0]));
    } else {
        let x = a.last();
        let y = b.last();
        assert(a.contains(x));
        assert(b.contains(y));
        let i = choose|i: int| 0 <= i < b.len() && b[i] == x;
        let j = choose|j: int| 0 <= j < a.len() && a[j] == y;
        if i < b.len() - 1 {
            assert(scan_index(b[i]) < scan_index(b[b.len() - 1]));
            assert(scan_index(a[j]) <= scan_index(a[a.len() - 1]));
        }
        if j < a.len() - 1 {
            assert(scan_index(a[j]) < scan_index(a[a.len() - 1]));
            assert(scan_index(b[i]) <= scan_index(b[b.len() - 1]));
        }
        assert(x == y);
        let da = a.drop_last();
        let db = b.drop_last();
        assert forall|t: Tile| da.contains(t) <==> db.contains(t) by {
            if da.contains(t) {
                let k = choose|k: int| 0 <= k < da.len() && da[k] == t;
                assert(a[k] == t);
                assert(scan_index(a[k]) < scan_index(x));
                assert(b.contains(t));
                let m = choose|m: int| 0 <= m < b.len() && b[m] == t;
                assert(m != b.len() - 1);
                assert(db[m] == t);
            }
            if db.contains(t) {
                let k = choose|k: int| 0 <= k < db.len() && db[k] == t;
                assert(b[k] == t);
                assert(scan_index(b[k]) < scan_index(y));
                assert(a.contains(t));
                let m = choose|m: int| 0 <= m < a.len() && a[m] == t;
                assert(m != a.len() - 1);
                assert(da[m] == t);
            }
        }
        assert forall|i: int, j: int| 0 <= i < j < da.len() implies scan_index(#[trigger] da[i]) < scan_index(#[trigger] da[j]) by {
            assert(da[i] == a[i] && da[j] == a[j]);
        }
        assert forall|i: int, j: int| 0 <= i < j < db.len() implies scan_index(#[trigger] db[i]) < scan_index(#[trigger] db[j]) by {
            assert(db[i] == b[i] && db[j] == b[j]);
        }
        assert forall|i: int| 0 <= i < da.len() implies in_bounds(#[trigger] da[i]) by {
            assert(da[i] == a[i]);
        }
        assert forall|i: int| 0 <= i < db.len() implies in_bounds(#[trigger] db[i]) by {
            assert(db[i] == b[i]);
        }
        lemma_scan_sorted_unique(da, db);
        assert(a =~= da.push(x));
        assert(b =~= db.push(y));
    }
}

/// The first tiles of any listing of groups are the representatives, in scan order.
pub proof fn lemma_firsts_are_representatives(g: Grid, gv: Seq<Seq<Tile>>)
    requires
        is_group_listing(g, gv),
    ensures
        firsts(gv) == representatives(g),
{
    let f = firsts(gv);
    let r = representatives(g);
    let pred = |t: Tile| is_representative(g, t);
    crate::laws::lemma_scan_order();
    assert forall|i: int, j: int| 0 <= i < j < scan_order().len() implies scan_index(
        #[trigger] scan_order()[i],
    ) < scan_index(#[trigger] scan_order()[j]) by {}
    lemma_filter_scan_sorted(scan_order(), pred);
    assert forall|i: int| 0 <= i < f.len() implies in_bounds(#[trigger] f[i]) && is_representative(g, f[i]) by {
        lemma_listed_representative(g, gv, i);
    }
    assert forall|i: int, j: int| 0 <= i < j < f.len() implies scan_index(#[trigger] f[i]) < scan_index(#[trigger] f[j]) by {
        assert(f[i] == gv[i][0] && f[j] == gv[j][0]);
    }
    assert forall|t: Tile| f.contains(t) <==> r.contains(t) by {
        crate::laws::lemma_filter_members(scan_order(), pred, t);
        if f.contains(t) {
            let k = choose|k: int| 0 <= k < f.len() && f[k] == t;
            assert(is_representative(g, f[k]));
        }
        if r.contains(t) {
            lemma_representative_listed(g, gv, t);
            let k = choose|k: int| 0 <= k < gv.len() && #[trigger] gv[k][0] == t;
            assert(f[k] == t);
        }
    }
    lemma_scan_sorted_unique(f, r);
}

} // verus!
