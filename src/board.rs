//! The board: a fixed grid of phases, its connectivity relations and the click move.
use vstd::prelude::*;

use crate::connectivity::{adjacent, cluster_of, connected, group_of, has_link, part_of, is_path, linked,
    lemma_single_path, lemma_path_push, lemma_closed_holds_region,
    lemma_connected_other_has_link, lemma_connected_step, lemma_connected_end,
    lemma_connected_symmetric, lemma_connected_transitive, lemma_region_member_has_link,
    lemma_region_shared};

verus! {

/// Number of columns of the board.
pub const WIDTH: usize = 22;

/// Number of rows of the board.
pub const HEIGHT: usize = 11;

/// A board position `(column, row)`.
pub type Tile = (usize, usize);

/// The grid as rows of phases, as seen by the specifications.
pub type Grid = Seq<Seq<u8>>;

/// The phase grid, stored row by row: `self.0[row][column]`.
/// A phase is 0 (empty) or one of 1..=4.
#[derive(Debug, PartialEq, Clone, Copy)]
pub struct MonolithMap(pub [[u8; 22]; 11]);

pub open spec fn in_bounds(t: Tile) -> bool {
    t.0 < WIDTH && t.1 < HEIGHT
}

/// The phase of `t` in `g`.
pub open spec fn at(g: Grid, t: Tile) -> u8 {
    g[t.1 as int][t.0 as int]
}

/// `g` has the board's shape and holds only the five phases.
pub open spec fn wf_grid(g: Grid) -> bool {
    &&& g.len() == HEIGHT
    &&& forall|y: int| 0 <= y < HEIGHT ==> #[trigger] g[y].len() == WIDTH
    &&& forall|t: Tile| in_bounds(t) ==> #[trigger] at(g, t) <= 4
}

/// The next phase of the cycle 1 -> 2 -> 3 -> 4 -> 1; empty stays empty.
pub open spec fn next_phase(v: u8) -> u8 {
    if v == 0 {
        0
    } else if v == 4 {
        1
    } else {
        (v + 1) as u8
    }
}


/// The non-empty neighbours of `t`, in the order above, below, left, right.
pub open spec fn neighbor_seq(g: Grid, t: Tile) -> Seq<Tile> {
    let up = (t.0, (t.1 - 1) as usize);
    let down = (t.0, (t.1 + 1) as usize);
    let left = ((t.0 - 1) as usize, t.1);
    let right = ((t.0 + 1) as usize, t.1);
    (if t.1 > 0 && at(g, up) != 0 { seq![up] } else { seq![] })
        + (if t.1 + 1 < HEIGHT && at(g, down) != 0 { seq![down] } else { seq![] })
        + (if t.0 > 0 && at(g, left) != 0 { seq![left] } else { seq![] })
        + (if t.0 + 1 < WIDTH && at(g, right) != 0 { seq![right] } else { seq![] })
}

/// Position of `t` in a row-major table of all cells.
pub open spec fn cell_index(t: Tile) -> int {
    t.1 * WIDTH + t.0
}

/// Number of `false` entries of `s`.
pub open spec fn count_false(s: Seq<bool>) -> nat
    decreases s.len(),
{
    if s.len() == 0 {
        0
    } else {
        count_false(s.drop_last()) + if s.last() { 0nat } else { 1nat }
    }
}

proof fn lemma_count_false_mark(s: Seq<bool>, i: int)
    requires
        0 <= i < s.len(),
        !s[i],
    ensures
        count_false(s.update(i, true)) + 1 == count_false(s),
    decreases s.len(),
{
    let u = s.update(i, true);
    if i == s.len() - 1 {
        assert(u.drop_last() =~= s.drop_last());
    } else {
        lemma_count_false_mark(s.drop_last(), i);
        assert(u.drop_last() =~= s.drop_last().update(i, true));
    }
}

/// Membership in `neighbor_seq` is adjacency to a non-empty tile.
#[verifier::spinoff_prover]
#[verifier::rlimit(40)]
pub proof fn lemma_neighbor_seq(g: Grid, t: Tile)
    requires
        in_bounds(t),
    ensures
        forall|v: Tile| #[trigger] neighbor_seq(g, t).contains(v) <==> (adjacent(t, v) && at(g, v) != 0),
        neighbor_seq(g, t).no_duplicates(),
        neighbor_seq(g, t).len() <= 4,
{
    let s = neighbor_seq(g, t);
    assert forall|v: Tile| #[trigger] s.contains(v) <==> (adjacent(t, v) && at(g, v) != 0) by {
        if adjacent(t, v) && at(g, v) != 0 {
            if v.0 == t.0 && v.1 + 1 == t.1 {
                assert(s[0] == v);
            } else if v.0 == t.0 && t.1 + 1 == v.1 {
                let k = if t.1 > 0 && at(g, (t.0, (t.1 - 1) as usize)) != 0 { 1int } else { 0int };
                assert(s[k] == v);
            } else if v.1 == t.1 && v.0 + 1 == t.0 {
                let k = (if t.1 > 0 && at(g, (t.0, (t.1 - 1) as usize)) != 0 { 1int } else { 0int })
                    + (if t.1 + 1 < HEIGHT && at(g, (t.0, (t.1 + 1) as usize)) != 0 { 1int } else { 0int });
                assert(s[k] == v);
            } else {
                assert(s[s.len() - 1] == v);
            }
        }
    }
}

/// `q` borders some tile of `s`.
pub open spec fn touches(s: Set<Tile>, q: Tile) -> bool {
    exists|u: Tile| s.contains(u) && #[trigger] adjacent(u, q)
}

/// The phase of `q` after a click on `p`: the group of `p` is emptied, and every tile
/// that borders it moves one phase on, once.
pub open spec fn clicked_phase(g: Grid, p: Tile, q: Tile) -> u8 {
    if group_of(g, p).contains(q) {
        0
    } else if touches(group_of(g, p), q) {
        next_phase(at(g, q))
    } else {
        at(g, q)
    }
}

/// The grid after a click on `p`.
pub open spec fn click_grid(g: Grid, p: Tile) -> Grid {
    Seq::new(
        HEIGHT as nat,
        |y: int| Seq::new(WIDTH as nat, |x: int| clicked_phase(g, p, (x as usize, y as usize))),
    )
}

/// Position of `t` in the column-major scan (columns left to right, each top to bottom).
pub open spec fn scan_index(t: Tile) -> int {
    t.0 * HEIGHT + t.1
}

/// The tile at position `i` of the column-major scan.
pub open spec fn scan_tile(i: int) -> Tile {
    ((i / HEIGHT as int) as usize, (i % HEIGHT as int) as usize)
}

/// Every board position once, in column-major order.
pub open spec fn scan_order() -> Seq<Tile> {
    Seq::new((WIDTH * HEIGHT) as nat, |i: int| scan_tile(i))
}

/// `parts` lists each part of `g` (a group with `same`, a cluster without) once, each
/// starting with its first tile in scan order, and the parts in the scan order of those
/// first tiles.
pub open spec fn is_listing(g: Grid, same: bool, groups: Seq<Seq<Tile>>) -> bool {
    &&& forall|i: int| #![trigger groups[i]] 0 <= i < groups.len() ==> {
        &&& groups[i].no_duplicates()
        &&& groups[i].len() >= 2
        &&& groups[i].to_set() == part_of(g, same, groups[i][0])
        &&& forall|q: Tile| #[trigger] groups[i].contains(q) ==> scan_index(groups[i][0]) <= scan_index(q)
    }
    &&& forall|i: int, j: int| 0 <= i < j < groups.len() ==> scan_index(#[trigger] groups[i][0]) < scan_index(
        #[trigger] groups[j][0],
    )
    &&& forall|i: int, j: int, q: Tile|
        0 <= i < groups.len() && 0 <= j < groups.len() && i != j && #[trigger] groups[i].contains(q)
            ==> !(#[trigger] groups[j].contains(q))
    &&& forall|q: Tile| in_bounds(q) ==> (has_link(g, same, q) <==> exists|i: int|
        0 <= i < groups.len() && #[trigger] groups[i].contains(q))
}

/// `groups` lists each group of `g` once, each starting with its first tile in scan
/// order, and the groups in the scan order of those first tiles.
pub open spec fn is_group_listing(g: Grid, groups: Seq<Seq<Tile>>) -> bool {
    is_listing(g, true, groups)
}

/// The cluster of `t` holds no tile that has a neighbour of its own phase, or `t` has no
/// non-empty neighbour at all: by this estimate the non-empty tile `t` can no longer be
/// cleared.
pub open spec fn is_dead(g: Grid, t: Tile) -> bool {
    &&& at(g, t) != 0
    &&& !exists|u: Tile| #[trigger] cluster_of(g, t).contains(u) && has_link(g, true, u)
}

/// The dead tiles of `g` in scan order.
pub open spec fn dead_tiles(g: Grid) -> Seq<Tile> {
    scan_order().filter(|t: Tile| is_dead(g, t))
}

/// The non-empty tiles of `g` in scan order.
pub open spec fn occupied_tiles(g: Grid) -> Seq<Tile> {
    scan_order().filter(|t: Tile| at(g, t) != 0)
}

/// The non-empty tiles of `g` that belong to no group, in scan order.
pub open spec fn single_tiles(g: Grid) -> Seq<Tile> {
    scan_order().filter(|t: Tile| at(g, t) != 0 && !has_link(g, true, t))
}

/// The non-empty tiles of `g` without any non-empty neighbour, in scan order.
pub open spec fn isolated_tiles(g: Grid) -> Seq<Tile> {
    scan_order().filter(|t: Tile| at(g, t) != 0 && !has_link(g, false, t))
}

/// Filtering a prefix one element longer.
pub proof fn lemma_filter_take_step(s: Seq<Tile>, f: spec_fn(Tile) -> bool, k: int)
    requires
        0 <= k < s.len(),
    ensures
        s.take(k + 1).filter(f) == if f(s[k]) {
            s.take(k).filter(f).push(s[k])
        } else {
            s.take(k).filter(f)
        },
{
    reveal(Seq::filter);
    assert(s.take(k + 1).drop_last() =~= s.take(k));
}

proof fn lemma_scan_tile(k: int)
    requires
        0 <= k < WIDTH * HEIGHT,
    ensures
        scan_order()[k] == scan_tile(k),
        in_bounds(scan_tile(k)),
        scan_index(scan_tile(k)) == k,
        scan_order().len() == WIDTH * HEIGHT,
{
}

impl View for MonolithMap {
    type V = Grid;

    open spec fn view(&self) -> Grid {
        Seq::new(11, |y: int| self.0@[y]@)
    }
}

impl MonolithMap {
    /// Every cell holds one of the five phases.
    pub open spec fn wf(&self) -> bool {
        wf_grid(self@)
    }

    /// The empty board.
    pub fn default() -> (r: MonolithMap)
        ensures
            r.wf(),
            forall|t: Tile| in_bounds(t) ==> #[trigger] at(r@, t) == 0,
    {
        let r = MonolithMap([[0u8; 22]; 11]);
        assert forall|t: Tile| in_bounds(t) implies #[trigger] at(r@, t) == 0 by {
            assert(r.0@[t.1 as int]@[t.0 as int] == 0);
        }
        r
    }

    /// Whether every cell holds one of the five phases.
    pub fn is_wf(&self) -> (r: bool)
        ensures
            r == self.wf(),
    {
        let mut k: usize = 0;
        while k < WIDTH * HEIGHT
            invariant
                0 <= k <= WIDTH * HEIGHT,
                forall|t: Tile| in_bounds(t) && scan_index(t) < k ==> #[trigger] at(self@, t) <= 4,
            decreases WIDTH * HEIGHT - k,
        {
            let x = k / HEIGHT;
            let y = k % HEIGHT;
            proof {
                lemma_scan_tile(k as int);
            }
            if self.get(x, y) > 4 {
                return false;
            }
            k += 1;
        }
        true
    }

    /// The phase at column `x`, row `y`.
    pub fn get(&self, x: usize, y: usize) -> (r: u8)
        requires
            x < WIDTH,
            y < HEIGHT,
        ensures
            r == at(self@, (x, y)),
    {
        self.0[y][x]
    }

    /// Writes `value` at column `x`, row `y`.
    pub fn set(&mut self, x: usize, y: usize, value: u8)
        requires
            x < WIDTH,
            y < HEIGHT,
            value <= 4,
        ensures
            final(self)@ == old(self)@.update(y as int, old(self)@[y as int].update(x as int, value)),
            forall|q: Tile| in_bounds(q) ==> #[trigger] at(final(self)@, q) == if q == (x, y) {
                value
            } else {
                at(old(self)@, q)
            },
            old(self).wf() ==> final(self).wf(),
    {
        self.0[y][x] = value;
        assert(self@ =~= old(self)@.update(y as int, old(self)@[y as int].update(x as int, value)));
        proof {
            assert forall|q: Tile| in_bounds(q) implies #[trigger] at(self@, q) == if q == (x, y) {
                value
            } else {
                at(old(self)@, q)
            } by {
                if q.1 == y && q.0 != x {
                    assert(self@[y as int][q.0 as int] == old(self)@[y as int][q.0 as int]);
                }
            }
            if old(self).wf() {
                assert forall|t: Tile| in_bounds(t) implies #[trigger] at(self@, t) <= 4 by {
                    assert(at(old(self)@, t) <= 4);
                }
            }
        }
    }

    /// The non-empty neighbours of `(x, y)`: above, below, left, right, those that exist.
    pub fn get_neighbors(&self, x: usize, y: usize) -> (r: Vec<Tile>)
        requires
            x < WIDTH,
            y < HEIGHT,
        ensures
            r@ == neighbor_seq(self@, (x, y)),
    {
        let mut neighbors: Vec<Tile> = Vec::new();
        let max_y = HEIGHT - 1;
        let max_x = WIDTH - 1;
        if y > 0 && self.get(x, y - 1) != 0 {
            neighbors.push((x, y - 1));
        }
        if y < max_y && self.get(x, y + 1) != 0 {
            neighbors.push((x, y + 1));
        }
        if x > 0 && self.get(x - 1, y) != 0 {
            neighbors.push((x - 1, y));
        }
        if x < max_x && self.get(x + 1, y) != 0 {
            neighbors.push((x + 1, y));
        }
        assert(neighbors@ =~= neighbor_seq(self@, (x, y)));
        neighbors
    }

    /// Whether the tile at `(x, y)` is non-empty and has a non-empty neighbour.
    #[verifier::spinoff_prover]
    #[verifier::rlimit(40)]
    pub fn has_neighbors(&self, x: usize, y: usize) -> (r: bool)
        requires
            x < WIDTH,
            y < HEIGHT,
        ensures
            r == has_link(self@, false, (x, y)),
    {
        proof {
            lemma_neighbor_seq(self@, (x, y));
        }
        if self.get(x, y) == 0 {
            return false;
        }
        let n = self.get_neighbors(x, y);
        proof {
            if n.len() > 0 {
                assert(n@.contains(n@[0]));
                assert(linked(self@, false, (x, y), n@[0]));
            }
        }
        n.len() > 0
    }

    /// Whether the tile at `(x, y)` is non-empty and has a neighbour of its own phase.
    pub fn has_group(&self, x: usize, y: usize) -> (r: bool)
        requires
            x < WIDTH,
            y < HEIGHT,
        ensures
            r == has_link(self@, true, (x, y)),
    {
        proof {
            lemma_neighbor_seq(self@, (x, y));
        }
        let group_type = self.get(x, y);
        if group_type == 0 {
            return false;
        }
        let n = self.get_neighbors(x, y);
        let mut i: usize = 0;
        while i < n.len()
            invariant
                x < WIDTH,
                y < HEIGHT,
                n@ == neighbor_seq(self@, (x, y)),
                group_type == at(self@, (x, y)),
                group_type != 0,
                forall|k: int| 0 <= k < i ==> #[trigger] at(self@, n@[k]) != group_type,
            decreases n.len() - i,
        {
            proof {
                lemma_neighbor_seq(self@, (x, y));
                assert(n@.contains(n@[i as int]));
            }
            if self.get(n[i].0, n[i].1) == group_type {
                proof {
                    assert(linked(self@, true, (x, y), n@[i as int]));
                }
                return true;
            }
            i += 1;
        }
        proof {
            lemma_neighbor_seq(self@, (x, y));
            assert forall|b: Tile| !linked(self@, true, (x, y), b) by {
                if linked(self@, true, (x, y), b) {
                    assert(n@.contains(b));
                }
            }
        }
        false
    }

    /// Every tile that a path from the non-empty tile `(x, y)` reaches, each once,
    /// starting with `(x, y)` itself.
    #[verifier::spinoff_prover]
    #[verifier::rlimit(60)]
    fn flood(&self, x: usize, y: usize, same: bool) -> (r: Vec<Tile>)
        requires
            x < WIDTH,
            y < HEIGHT,
            at(self@, (x, y)) != 0,
        ensures
            r@.no_duplicates(),
            r@.len() >= 1,
            r@[0] == (x, y),
            forall|t: Tile| #[trigger] r@.contains(t) <==> connected(self@, same, (x, y), t),
    {
        let ghost g = self@;
        let ghost a: Tile = (x, y);
        let mut visited: Vec<bool> = vec![false; 242];
        proof {
            assert forall|i: int| 0 <= i < 242 implies !visited@[i] by {
                assert(cloned(false, visited@[i]));
            }
            lemma_single_path(g, same, a);
        }
        visited.set(y * WIDTH + x, true);
        let mut group: Vec<Tile> = Vec::new();
        group.push((x, y));
        let mut pending: Vec<Tile> = Vec::new();
        pending.push((x, y));
        let ghost mut paths: Map<Tile, Seq<Tile>> = map![a => seq![a]];
        proof {
            assert forall|t: Tile| in_bounds(t) implies (visited@[cell_index(t)] <==> group@.contains(t)) by {
                if t != a {
                    assert(cell_index(t) != cell_index(a));
                }
                if group@.contains(t) {
                    assert(group@[0] == t);
                }
            }
        }
        while pending.len() > 0
            invariant
                g == self@,
                a == (x, y),
                in_bounds(a),
                at(g, a) != 0,
                visited@.len() == 242,
                forall|t: Tile| in_bounds(t) ==> (visited@[cell_index(t)] <==> #[trigger] group@.contains(t)),
                group@.no_duplicates(),
                group@.len() >= 1,
                group@[0] == a,
                pending@.no_duplicates(),
                forall|t: Tile| #[trigger] pending@.contains(t) ==> group@.contains(t),
                forall|t: Tile| #[trigger] group@.contains(t) ==> {
                    &&& in_bounds(t)
                    &&& at(g, t) != 0
                    &&& paths.contains_key(t)
                    &&& is_path(g, same, paths[t])
                    &&& paths[t][0] == a
                    &&& paths[t].last() == t
                },
                forall|u: Tile, v: Tile|
                    group@.contains(u) && !pending@.contains(u) && #[trigger] linked(g, same, u, v)
                        ==> group@.contains(v),
            decreases 2 * count_false(visited@) + pending@.len(),
        {
            let ghost measure = 2 * count_false(visited@) + pending@.len();
            let ghost pending_before = pending@;
            let t = pending.pop().unwrap();
            proof {
                assert(pending_before =~= pending@.push(t));
                assert(pending_before.contains(t));
                assert forall|u: Tile| #[trigger] pending@.contains(u) implies pending_before.contains(u) && u != t by {
                    let k = choose|k: int| 0 <= k < pending@.len() && pending@[k] == u;
                    assert(pending_before[k] == u);
                    assert(pending_before[pending_before.len() - 1] == t);
                }
                lemma_neighbor_seq(g, t);
            }
            let ns = self.get_neighbors(t.0, t.1);
            let phase = self.get(t.0, t.1);
            let mut j: usize = 0;
            while j < ns.len()
                invariant
                    g == self@,
                    a == (x, y),
                    in_bounds(a),
                    at(g, a) != 0,
                    in_bounds(t),
                    phase == at(g, t),
                    group@.contains(t),
                    !pending@.contains(t),
                    ns@ == neighbor_seq(g, t),
                    0 <= j <= ns@.len(),
                    visited@.len() == 242,
                    forall|v: Tile| in_bounds(v) ==> (visited@[cell_index(v)] <==> #[trigger] group@.contains(v)),
                    group@.no_duplicates(),
                    group@.len() >= 1,
                    group@[0] == a,
                    pending@.no_duplicates(),
                    forall|v: Tile| #[trigger] pending@.contains(v) ==> group@.contains(v),
                    forall|v: Tile| #[trigger] group@.contains(v) ==> {
                        &&& in_bounds(v)
                        &&& at(g, v) != 0
                        &&& paths.contains_key(v)
                        &&& is_path(g, same, paths[v])
                        &&& paths[v][0] == a
                        &&& paths[v].last() == v
                    },
                    forall|u: Tile, v: Tile|
                        group@.contains(u) && !pending@.contains(u) && u != t && #[trigger] linked(g, same, u, v)
                            ==> group@.contains(v),
                    forall|k: int| 0 <= k < j && linked(g, same, t, #[trigger] ns@[k]) ==> group@.contains(ns@[k]),
                    2 * count_false(visited@) + pending@.len() < measure,
                decreases ns@.len() - j,
            {
                let n = ns[j];
                proof {
                    lemma_neighbor_seq(g, t);
                    assert(ns@.contains(n));
                }
                if (!same || self.get(n.0, n.1) == phase) && !visited[n.1 * WIDTH + n.0] {
                    let ghost vis_before = visited@;
                    let ghost group_before = group@;
                    let ghost pending_before2 = pending@;
                    visited.set(n.1 * WIDTH + n.0, true);
                    group.push(n);
                    pending.push(n);
                    proof {
                        lemma_count_false_mark(vis_before, cell_index(n));
                        assert(linked(g, same, t, n));
                        lemma_path_push(g, same, paths[t], n);
                        paths = paths.insert(n, paths[t].push(n));
                        assert forall|v: Tile| #[trigger] group@.contains(v) implies group_before.contains(v) || v == n by {
                            let k = choose|k: int| 0 <= k < group@.len() && group@[k] == v;
                            if k < group_before.len() {
                                assert(group_before[k] == v);
                            }
                        }
                        assert forall|v: Tile| #[trigger] pending@.contains(v) implies pending_before2.contains(v) || v == n by {
                            let k = choose|k: int| 0 <= k < pending@.len() && pending@[k] == v;
                            if k < pending_before2.len() {
                                assert(pending_before2[k] == v);
                            }
                        }
                        assert forall|v: Tile| group_before.contains(v) implies #[trigger] group@.contains(v) by {
                            let k = choose|k: int| 0 <= k < group_before.len() && group_before[k] == v;
                            assert(group@[k] == v);
                        }
                        assert forall|v: Tile| pending_before2.contains(v) implies #[trigger] pending@.contains(v) by {
                            let k = choose|k: int| 0 <= k < pending_before2.len() && pending_before2[k] == v;
                            assert(pending@[k] == v);
                        }
                        assert forall|v: Tile| in_bounds(v) implies (visited@[cell_index(v)] <==> #[trigger] group@.contains(v)) by {
                            if v != n {
                                assert(cell_index(v) != cell_index(n));
                                assert(group@.contains(v) <==> group_before.contains(v));
                            } else {
                                assert(group@[group@.len() - 1] == n);
                            }
                        }
                        assert(group@.contains(n)) by {
                            assert(group@[group@.len() - 1] == n);
                        }
                        assert(pending@.contains(n)) by {
                            assert(pending@[pending@.len() - 1] == n);
                        }
                        assert(!group_before.contains(n));
                        assert(!pending_before2.contains(n));
                        assert(group@[0] == a);
                    }
                }
                j += 1;
            }
            proof {
                assert forall|v: Tile| #[trigger] linked(g, same, t, v) implies group@.contains(v) by {
                    assert(ns@.contains(v));
                    let k = choose|k: int| 0 <= k < ns@.len() && ns@[k] == v;
                }
            }
        }
        proof {
            assert forall|t: Tile| #[trigger] group@.contains(t) <==> connected(g, same, a, t) by {
                if group@.contains(t) {
                    assert(is_path(g, same, paths[t]));
                }
                if connected(g, same, a, t) {
                    assert(group@.contains(a));
                    lemma_closed_holds_region(g, same, group@.to_set(), a, t);
                }
            }
        }
        group
    }

    /// The tiles of a flood from `(x, y)` form a removable set exactly when it holds two
    /// tiles or more.
    fn trimmed_region(&self, x: usize, y: usize, same: bool) -> (r: Vec<Tile>)
        requires
            x < WIDTH,
            y < HEIGHT,
        ensures
            r@.no_duplicates(),
            r@.len() == 0 || r@.len() >= 2,
            r@.len() > 0 ==> r@[0] == (x, y),
            r@.len() > 0 <==> has_link(self@, same, (x, y)),
            r@.to_set() == part_of(self@, same, (x, y)),
    {
        let ghost g = self@;
        let ghost a: Tile = (x, y);
        if self.get(x, y) == 0 {
            let e: Vec<Tile> = Vec::new();
            proof {
                assert(!has_link(g, same, a));
                assert(e@.to_set() =~= part_of(g, same, a));
            }
            return e;
        }
        let r = self.flood(x, y, same);
        proof {
            if has_link(g, same, a) {
                let b = choose|b: Tile| #[trigger] linked(g, same, a, b);
                lemma_single_path(g, same, a);
                lemma_connected_step(g, same, a, a, b);
                assert(r@.contains(b));
                if r@.len() == 1 {
                    assert(r@[0] == a);
                    assert(false);
                }
            }
            if r@.len() >= 2 {
                assert(r@.contains(r@[1]));
                lemma_connected_other_has_link(g, same, a, r@[1]);
            }
        }
        if r.len() == 1 {
            let e: Vec<Tile> = Vec::new();
            assert(e@.to_set() =~= part_of(g, same, a));
            e
        } else {
            assert(r@.to_set() =~= part_of(g, same, a));
            r
        }
    }

    /// The group that a click on `(x, y)` would remove: every tile that a path of
    /// same-phase neighbours links to it, each once and `(x, y)` first; empty when the
    /// tile is empty or has no neighbour of its phase.
    pub fn get_group(&self, x: usize, y: usize) -> (r: Vec<Tile>)
        requires
            x < WIDTH,
            y < HEIGHT,
        ensures
            r@.no_duplicates(),
            r@.len() == 0 || r@.len() >= 2,
            r@.len() > 0 ==> r@[0] == (x, y),
            r@.len() > 0 <==> has_link(self@, true, (x, y)),
            r@.to_set() == group_of(self@, (x, y)),
    {
        self.trimmed_region(x, y, true)
    }

    /// The cluster of `(x, y)`: every tile that a path of non-empty neighbours links to
    /// it, each once and `(x, y)` first; empty when the tile is empty or isolated.
    pub fn get_tile_cluster(&self, x: usize, y: usize) -> (r: Vec<Tile>)
        requires
            x < WIDTH,
            y < HEIGHT,
        ensures
            r@.no_duplicates(),
            r@.len() == 0 || r@.len() >= 2,
            r@.len() > 0 ==> r@[0] == (x, y),
            r@.len() > 0 <==> has_link(self@, false, (x, y)),
            r@.to_set() == cluster_of(self@, (x, y)),
    {
        self.trimmed_region(x, y, false)
    }

    /// Every part of the board once (groups with `same`, clusters without), found by a
    /// column-major scan.
    #[verifier::spinoff_prover]
    #[verifier::rlimit(100)]
    fn all_parts(&self, same: bool) -> (r: Vec<Vec<Tile>>)
        ensures
            is_listing(self@, same, r@.map_values(|v: Vec<Tile>| v@)),
    {
        let ghost g = self@;
        let mut groups: Vec<Vec<Tile>> = Vec::new();
        let mut visited: Vec<bool> = vec![false; 242];
        proof {
            assert forall|i: int| 0 <= i < 242 implies !visited@[i] by {
                assert(cloned(false, visited@[i]));
            }
        }
        let mut k: usize = 0;
        while k < WIDTH * HEIGHT
            invariant
                g == self@,
                0 <= k <= WIDTH * HEIGHT,
                visited@.len() == 242,
                forall|q: Tile| in_bounds(q) && #[trigger] visited@[cell_index(q)] ==> exists|i: int|
                    0 <= i < groups@.len() && #[trigger] groups@[i]@.contains(q),
                forall|i: int, q: Tile| 0 <= i < groups@.len() && #[trigger] groups@[i]@.contains(q) ==> in_bounds(q)
                    && visited@[cell_index(q)],
                forall|i: int| #![trigger groups@[i]] 0 <= i < groups@.len() ==> {
                    &&& groups@[i]@.no_duplicates()
                    &&& groups@[i]@.len() >= 2
                    &&& groups@[i]@.to_set() == part_of(g, same, groups@[i]@[0])
                    &&& has_link(g, same, groups@[i]@[0])
                    &&& scan_index(groups@[i]@[0]) < k
                    &&& forall|q: Tile| #[trigger] groups@[i]@.contains(q) ==> scan_index(groups@[i]@[0]) <= scan_index(q)
                },
                forall|i: int, j: int| 0 <= i < j < groups@.len() ==> scan_index(#[trigger] groups@[i]@[0]) < scan_index(
                    #[trigger] groups@[j]@[0],
                ),
                forall|i: int, j: int, q: Tile|
                    0 <= i < groups@.len() && 0 <= j < groups@.len() && i != j && #[trigger] groups@[i]@.contains(q)
                        ==> !(#[trigger] groups@[j]@.contains(q)),
                forall|q: Tile| in_bounds(q) && scan_index(q) < k && has_link(g, same, q) ==> #[trigger] visited@[cell_index(q)],
            decreases WIDTH * HEIGHT - k,
        {
            let x = k / HEIGHT;
            let y = k % HEIGHT;
            let ghost t: Tile = (x, y);
            assert(scan_index(t) == k);
            if self.get(x, y) != 0 && !visited[y * WIDTH + x] {
                let group = self.trimmed_region(x, y, same);
                if group.len() > 0 {
                    let ghost old_groups = groups@;
                    proof {
                        assert(group@.contains(group@[0]));
                        assert(group@.to_set().contains(t));
                        assert(has_link(g, same, t));
                        assert forall|j: int, q: Tile| 0 <= j < old_groups.len() && #[trigger] old_groups[j]@.contains(q)
                            implies !group@.contains(q) by {
                            if group@.contains(q) {
                                assert(group@.to_set().contains(q));
                                let rj = old_groups[j]@[0];
                                assert(old_groups[j]@.to_set().contains(q));
                                lemma_connected_symmetric(g, same, t, q);
                                lemma_connected_transitive(g, same, rj, q, t);
                                assert(old_groups[j]@.to_set().contains(t));
                                assert(old_groups[j]@.contains(t));
                            }
                        }
                        assert forall|q: Tile| #[trigger] group@.contains(q) implies in_bounds(q) && k <= scan_index(q) by {
                            assert(group@.to_set().contains(q));
                            lemma_connected_end(g, same, t, q);
                            if scan_index(q) < k {
                                lemma_region_member_has_link(g, same, t, q);
                                assert(visited@[cell_index(q)]);
                                let j = choose|j: int| 0 <= j < old_groups.len() && #[trigger] old_groups[j]@.contains(q);
                                assert(!group@.contains(q));
                            }
                        }
                    }
                    let mut m: usize = 0;
                    while m < group.len()
                        invariant
                            0 <= m <= group@.len(),
                            visited@.len() == 242,
                            forall|q: Tile| #[trigger] group@.contains(q) ==> in_bounds(q),
                            forall|q: Tile| in_bounds(q) && #[trigger] visited@[cell_index(q)] ==> (exists|i: int|
                                0 <= i < groups@.len() && #[trigger] groups@[i]@.contains(q)) || group@.contains(q),
                            forall|i: int, q: Tile| 0 <= i < groups@.len() && #[trigger] groups@[i]@.contains(q)
                                ==> in_bounds(q) && visited@[cell_index(q)],
                            forall|j: int| 0 <= j < m ==> #[trigger] visited@[cell_index(group@[j])],
                            forall|q: Tile| in_bounds(q) && scan_index(q) < k && has_link(g, same, q) ==> #[trigger] visited@[cell_index(q)],
                        decreases group@.len() - m,
                    {
                        let q = group[m];
                        proof {
                            assert(group@.contains(q));
                        }
                        let ghost vis_before = visited@;
                        visited.set(q.1 * WIDTH + q.0, true);
                        proof {
                            assert forall|v: Tile| in_bounds(v) && v != q implies visited@[cell_index(v)] == vis_before[cell_index(v)] by {
                                assert(cell_index(v) != cell_index(q));
                            }
                            assert forall|j: int| 0 <= j < m + 1 implies #[trigger] visited@[cell_index(group@[j])] by {
                                assert(group@.contains(group@[j]));
                                if group@[j] != q {
                                    assert(vis_before[cell_index(group@[j])]);
                                }
                            }
                        }
                        m += 1;
                    }
                    groups.push(group);
                    proof {
                        let n = groups@.len() - 1;
                        assert(groups@[n] == group);
                        assert forall|j: int| 0 <= j < old_groups.len() implies #[trigger] groups@[j] == old_groups[j] by {}
                        assert forall|q: Tile| #[trigger] group@.contains(q) implies visited@[cell_index(q)] by {
                            let j = choose|j: int| 0 <= j < group@.len() && group@[j] == q;
                            assert(visited@[cell_index(group@[j])]);
                        }
                        assert forall|q: Tile| in_bounds(q) && #[trigger] visited@[cell_index(q)] implies exists|i: int|
                            0 <= i < groups@.len() && #[trigger] groups@[i]@.contains(q) by {
                            if group@.contains(q) {
                                assert(groups@[n]@.contains(q));
                            } else {
                                let i = choose|i: int| 0 <= i < old_groups.len() && #[trigger] old_groups[i]@.contains(q);
                                assert(groups@[i]@.contains(q));
                            }
                        }
                    }
                }
            }
            proof {
                assert forall|q: Tile| in_bounds(q) && scan_index(q) < k + 1 && has_link(g, same, q) implies #[trigger] visited@[cell_index(q)] by {
                    if scan_index(q) == k {
                        assert(q == t);
                        if !visited@[cell_index(q)] {
                            assert(part_of(g, same, t).contains(t)) by {
                                lemma_single_path(g, same, t);
                            }
                        }
                    }
                }
            }
            k += 1;
        }
        proof {
            let gv = groups@.map_values(|v: Vec<Tile>| v@);
            assert forall|i: int| 0 <= i < gv.len() implies #[trigger] gv[i] == groups@[i]@ by {}
            assert forall|q: Tile| in_bounds(q) implies (has_link(g, same, q) <==> exists|i: int|
                0 <= i < gv.len() && #[trigger] gv[i].contains(q)) by {
                if has_link(g, same, q) {
                    assert(visited@[cell_index(q)]);
                    let i = choose|i: int| 0 <= i < groups@.len() && #[trigger] groups@[i]@.contains(q);
                    assert(gv[i].contains(q));
                }
                if exists|i: int| 0 <= i < gv.len() && #[trigger] gv[i].contains(q) {
                    let i = choose|i: int| 0 <= i < gv.len() && #[trigger] gv[i].contains(q);
                    assert(groups@[i]@.contains(q));
                    assert(groups@[i]@.to_set().contains(q));
                    lemma_region_member_has_link(g, same, groups@[i]@[0], q);
                }
            }
        }
        groups
    }

    /// Every group of the board once, found by a column-major scan: each group starts
    /// with its first tile in that scan and the groups come in the order of those tiles.
    /// The groups are disjoint and together hold exactly the tiles that have a
    /// neighbour of their own phase.
    pub fn all_groups(&self) -> (r: Vec<Vec<Tile>>)
        ensures
            is_group_listing(self@, r@.map_values(|v: Vec<Tile>| v@)),
    {
        self.all_parts(true)
    }

    /// Every cluster of the board once, found by a column-major scan as `all_groups`
    /// finds groups. The clusters are disjoint and together hold exactly the tiles that
    /// have a non-empty neighbour.
    pub fn all_tile_clusters(&self) -> (r: Vec<Vec<Tile>>)
        ensures
            is_listing(self@, false, r@.map_values(|v: Vec<Tile>| v@)),
    {
        self.all_parts(false)
    }

    /// The non-empty tiles, in column-major scan order.
    pub fn get_all_tiles(&self) -> (r: Vec<Tile>)
        ensures
            r@ == occupied_tiles(self@),
    {
        let ghost f = |t: Tile| at(self@, t) != 0;
        let mut result: Vec<Tile> = Vec::new();
        let mut k: usize = 0;
        while k < WIDTH * HEIGHT
            invariant
                0 <= k <= WIDTH * HEIGHT,
                f == (|t: Tile| at(self@, t) != 0),
                result@ == scan_order().take(k as int).filter(f),
            decreases WIDTH * HEIGHT - k,
        {
            let x = k / HEIGHT;
            let y = k % HEIGHT;
            proof {
                lemma_scan_tile(k as int);
                lemma_filter_take_step(scan_order(), f, k as int);
            }
            if self.get(x, y) != 0 {
                result.push((x, y));
            }
            k += 1;
        }
        assert(scan_order().take(WIDTH * HEIGHT) =~= scan_order());
        result
    }

    /// The non-empty tiles that belong to no group, in column-major scan order.
    pub fn get_single_tiles(&self) -> (r: Vec<Tile>)
        ensures
            r@ == single_tiles(self@),
    {
        let ghost f = |t: Tile| at(self@, t) != 0 && !has_link(self@, true, t);
        let mut result: Vec<Tile> = Vec::new();
        let mut k: usize = 0;
        while k < WIDTH * HEIGHT
            invariant
                0 <= k <= WIDTH * HEIGHT,
                f == (|t: Tile| at(self@, t) != 0 && !has_link(self@, true, t)),
                result@ == scan_order().take(k as int).filter(f),
            decreases WIDTH * HEIGHT - k,
        {
            let x = k / HEIGHT;
            let y = k % HEIGHT;
            proof {
                lemma_scan_tile(k as int);
                lemma_filter_take_step(scan_order(), f, k as int);
            }
            if self.get(x, y) != 0 {
                let group = self.get_group(x, y);
                if group.len() == 0 {
                    result.push((x, y));
                }
                proof {
                    if group@.len() == 0 {
                        lemma_single_path(self@, true, (x, y));
                        assert(!group_of(self@, (x, y)).contains((x, y)));
                    } else {
                        assert(group@.to_set().contains(group@[0]));
                    }
                }
            }
            k += 1;
        }
        assert(scan_order().take(WIDTH * HEIGHT) =~= scan_order());
        result
    }

    /// How many non-empty tiles have no non-empty neighbour.
    pub fn get_isolated_tiles_count(&self) -> (r: u32)
        ensures
            r == isolated_tiles(self@).len(),
    {
        let ghost f = |t: Tile| at(self@, t) != 0 && !has_link(self@, false, t);
        let mut count: u32 = 0;
        let mut k: usize = 0;
        while k < WIDTH * HEIGHT
            invariant
                0 <= k <= WIDTH * HEIGHT,
                f == (|t: Tile| at(self@, t) != 0 && !has_link(self@, false, t)),
                count == scan_order().take(k as int).filter(f).len(),
                count <= k,
            decreases WIDTH * HEIGHT - k,
        {
            let x = k / HEIGHT;
            let y = k % HEIGHT;
            proof {
                lemma_scan_tile(k as int);
                lemma_filter_take_step(scan_order(), f, k as int);
            }
            if self.get(x, y) != 0 && !self.has_neighbors(x, y) {
                count += 1;
            }
            k += 1;
        }
        assert(scan_order().take(WIDTH * HEIGHT) =~= scan_order());
        count
    }

    /// Deadness is shared by every tile of a cluster.
    proof fn lemma_dead_shared(g: Grid, t: Tile, u: Tile)
        requires
            has_link(g, false, t),
            cluster_of(g, t).contains(u),
        ensures
            cluster_of(g, u) == cluster_of(g, t),
            is_dead(g, u) == is_dead(g, t),
            at(g, u) != 0,
    {
        lemma_region_member_has_link(g, false, t, u);
        lemma_region_shared(g, false, t, u);
        lemma_connected_end(g, false, t, u);
    }

    /// The heuristic count of dead tiles: non-empty tiles that have no non-empty
    /// neighbour, or whose cluster holds no tile with a neighbour of its own phase.
    #[verifier::spinoff_prover]
    #[verifier::rlimit(60)]
    pub fn get_dead_tiles_count(&self) -> (r: u32)
        ensures
            r == dead_tiles(self@).len(),
    {
        let ghost g = self@;
        let ghost f = |t: Tile| is_dead(self@, t);
        // 0: not looked at yet, 1: dead, 2: alive
        let mut status: Vec<u8> = vec![0u8; 242];
        proof {
            assert forall|i: int| 0 <= i < 242 implies status@[i] == 0 by {
                assert(cloned(0u8, status@[i]));
            }
        }
        let mut count: u32 = 0;
        let mut k: usize = 0;
        while k < WIDTH * HEIGHT
            invariant
                g == self@,
                0 <= k <= WIDTH * HEIGHT,
                f == (|t: Tile| is_dead(self@, t)),
                status@.len() == 242,
                forall|q: Tile| in_bounds(q) && #[trigger] status@[cell_index(q)] != 0 ==> at(g, q) != 0
                    && (status@[cell_index(q)] == 1 <==> is_dead(g, q)),
                count == scan_order().take(k as int).filter(f).len(),
                count <= k,
            decreases WIDTH * HEIGHT - k,
        {
            let x = k / HEIGHT;
            let y = k % HEIGHT;
            let ghost t: Tile = (x, y);
            proof {
                lemma_scan_tile(k as int);
                lemma_filter_take_step(scan_order(), f, k as int);
            }
            if self.get(x, y) != 0 && status[y * WIDTH + x] == 0 {
                let cluster = self.get_tile_cluster(x, y);
                if cluster.len() == 0 {
                    status.set(y * WIDTH + x, 1);
                    proof {
                        assert(!has_link(g, false, t));
                        assert(cluster_of(g, t) =~= Set::empty());
                        assert forall|q: Tile| in_bounds(q) && #[trigger] status@[cell_index(q)] != 0 implies at(g, q) != 0
                            && (status@[cell_index(q)] == 1 <==> is_dead(g, q)) by {
                            if q != t {
                                assert(cell_index(q) != cell_index(t));
                            }
                        }
                    }
                } else {
                    proof {
                        assert(has_link(g, false, t));
                        assert forall|u: Tile| #[trigger] cluster@.contains(u) <==> cluster_of(g, t).contains(u) by {
                            assert(cluster@.to_set().contains(u) == cluster@.contains(u));
                        }
                    }
                    let mut alive = false;
                    let mut m: usize = 0;
                    while m < cluster.len()
                        invariant
                            g == self@,
                            0 <= m <= cluster@.len(),
                            forall|u: Tile| #[trigger] cluster@.contains(u) <==> cluster_of(g, t).contains(u),
                            has_link(g, false, t),
                            alive <==> exists|j: int| 0 <= j < m && has_link(g, true, #[trigger] cluster@[j]),
                        decreases cluster@.len() - m,
                    {
                        let u = cluster[m];
                        proof {
                            assert(cluster@.contains(u));
                            lemma_connected_end(g, false, t, u);
                        }
                        if self.has_group(u.0, u.1) {
                            alive = true;
                        }
                        m += 1;
                    }
                    proof {
                        if alive {
                            let j = choose|j: int| 0 <= j < cluster@.len() && has_link(g, true, #[trigger] cluster@[j]);
                            assert(cluster@.contains(cluster@[j]));
                            assert(!is_dead(g, t));
                        } else {
                            assert forall|u: Tile| #[trigger] cluster_of(g, t).contains(u) implies !has_link(g, true, u) by {
                                assert(cluster@.contains(u));
                                let j = choose|j: int| 0 <= j < cluster@.len() && cluster@[j] == u;
                            }
                            assert(is_dead(g, t));
                        }
                    }
                    let mark: u8 = if alive { 2 } else { 1 };
                    let mut m: usize = 0;
                    while m < cluster.len()
                        invariant
                            g == self@,
                            0 <= m <= cluster@.len(),
                            status@.len() == 242,
                            forall|u: Tile| #[trigger] cluster@.contains(u) <==> cluster_of(g, t).contains(u),
                            has_link(g, false, t),
                            at(g, t) != 0,
                            mark == 1 <==> is_dead(g, t),
                            mark != 0,
                            forall|q: Tile| in_bounds(q) && #[trigger] status@[cell_index(q)] != 0 ==> at(g, q) != 0
                                && (status@[cell_index(q)] == 1 <==> is_dead(g, q)),
                            cluster@.len() > 0,
                            cluster@[0] == t,
                            in_bounds(t),
                            m > 0 ==> status@[cell_index(t)] != 0,
                        decreases cluster@.len() - m,
                    {
                        let u = cluster[m];
                        proof {
                            assert(cluster@.contains(u));
                            lemma_connected_end(g, false, t, u);
                            Self::lemma_dead_shared(g, t, u);
                        }
                        let ghost before = status@;
                        status.set(u.1 * WIDTH + u.0, mark);
                        proof {
                            assert forall|q: Tile| in_bounds(q) && #[trigger] status@[cell_index(q)] != 0 implies at(g, q) != 0
                                && (status@[cell_index(q)] == 1 <==> is_dead(g, q)) by {
                                if q != u {
                                    assert(cell_index(q) != cell_index(u));
                                    assert(status@[cell_index(q)] == before[cell_index(q)]);
                                }
                            }
                            if t != u {
                                assert(cell_index(t) != cell_index(u));
                            }
                        }
                        m += 1;
                    }
                }
            }
            proof {
                assert(at(g, t) != 0 ==> status@[cell_index(t)] != 0);
            }
            if self.get(x, y) != 0 && status[y * WIDTH + x] == 1 {
                count += 1;
            }
            k += 1;
        }
        assert(scan_order().take(WIDTH * HEIGHT) =~= scan_order());
        count
    }

    /// Clicks `(x, y)`: when its group is not empty, the group is emptied and each
    /// non-empty tile bordering it moves one phase on, once; otherwise nothing changes.
    #[verifier::spinoff_prover]
    #[verifier::rlimit(60)]
    pub fn click(&mut self, x: usize, y: usize)
        requires
            x < WIDTH,
            y < HEIGHT,
            old(self).wf(),
        ensures
            final(self).wf(),
            final(self)@ == click_grid(old(self)@, (x, y)),
    {
        let ghost g = self@;
        let ghost p: Tile = (x, y);
        let group = self.get_group(x, y);
        let ghost gs = group_of(g, p);
        proof {
            assert forall|q: Tile| #[trigger] group@.contains(q) <==> gs.contains(q) by {
                assert(group@.to_set().contains(q) == group@.contains(q));
            }
            assert forall|k: int| 0 <= k < group@.len() implies in_bounds(#[trigger] group@[k]) by {
                assert(group@.contains(group@[k]));
                lemma_connected_end(g, true, p, group@[k]);
            }
        }
        if group.len() == 0 {
            proof {
                assert forall|q: Tile| !gs.contains(q) by {
                    assert(!group@.contains(q));
                }
                assert forall|q: Tile| !touches(gs, q) by {}
                assert forall|r: int| 0 <= r < HEIGHT implies #[trigger] self@[r] =~= click_grid(g, p)[r] by {
                    assert forall|c: int| 0 <= c < WIDTH implies self@[r][c] == click_grid(g, p)[r][c] by {
                        assert(at(g, (c as usize, r as usize)) == g[r][c]);
                    }
                }
                assert(self@ =~= click_grid(g, p));
            }
            return;
        }
        let mut i: usize = 0;
        while i < group.len()
            invariant
                self.wf(),
                0 <= i <= group@.len(),
                forall|q: Tile| #[trigger] group@.contains(q) <==> gs.contains(q),
                forall|k: int| 0 <= k < group@.len() ==> in_bounds(#[trigger] group@[k]),
                forall|q: Tile| in_bounds(q) ==> #[trigger] at(self@, q) == if group@.take(i as int).contains(q) {
                    0
                } else {
                    at(g, q)
                },
            decreases group@.len() - i,
        {
            proof {
                assert(group@.contains(group@[i as int]));
                assert(gs.contains(group@[i as int]));
            }
            let t = group[i];
            self.set(t.0, t.1, 0);
            proof {
                assert forall|q: Tile| in_bounds(q) implies #[trigger] at(self@, q) == if group@.take(i + 1).contains(q) {
                    0
                } else {
                    at(g, q)
                } by {
                    assert(group@.take(i + 1) =~= group@.take(i as int).push(t));
                    assert(group@.take(i as int).push(t).contains(q) <==> (group@.take(i as int).contains(q) || q == t)) by {
                        if group@.take(i as int).push(t).contains(q) && q != t {
                            let k = choose|k: int| 0 <= k < i + 1 && group@.take(i as int).push(t)[k] == q;
                            assert(group@.take(i as int)[k] == q);
                        }
                        if group@.take(i as int).contains(q) {
                            let k = choose|k: int| 0 <= k < i && group@.take(i as int)[k] == q;
                            assert(group@.take(i as int).push(t)[k] == q);
                        }
                        if q == t {
                            assert(group@.take(i as int).push(t)[i as int] == q);
                        }
                    }
                }
            }
            i += 1;
        }
        proof {
            assert(group@.take(group@.len() as int) =~= group@);
        }
        let mut advanced: Vec<bool> = vec![false; 242];
        proof {
            assert forall|k: int| 0 <= k < 242 implies !advanced@[k] by {
                assert(cloned(false, advanced@[k]));
            }
        }
        let mut i: usize = 0;
        while i < group.len()
            invariant
                self.wf(),
                wf_grid(g),
                0 <= i <= group@.len(),
                advanced@.len() == 242,
                forall|q: Tile| #[trigger] group@.contains(q) <==> gs.contains(q),
                forall|k: int| 0 <= k < group@.len() ==> in_bounds(#[trigger] group@[k]),
                forall|q: Tile| in_bounds(q) ==> #[trigger] at(self@, q) == if gs.contains(q) {
                    0
                } else if advanced@[cell_index(q)] {
                    next_phase(at(g, q))
                } else {
                    at(g, q)
                },
                forall|q: Tile| in_bounds(q) && #[trigger] advanced@[cell_index(q)] ==> !gs.contains(q)
                    && at(g, q) != 0 && touches(gs, q),
                forall|k: int, q: Tile| 0 <= k < i && #[trigger] adjacent(group@[k], q) && !gs.contains(q)
                    && at(g, q) != 0 ==> advanced@[cell_index(q)],
            decreases group@.len() - i,
        {
            let t = group[i];
            proof {
                assert(group@.contains(t));
                lemma_neighbor_seq(self@, t);
            }
            let ns = self.get_neighbors(t.0, t.1);
            let ghost before = self@;
            proof {
                assert forall|q: Tile| in_bounds(q) implies (#[trigger] at(before, q) != 0 <==> (!gs.contains(q) && at(g, q) != 0)) by {
                    assert(at(g, q) <= 4);
                }
            }
            let mut j: usize = 0;
            while j < ns.len()
                invariant
                    self.wf(),
                    0 <= i < group@.len(),
                    t == group@[i as int],
                    gs.contains(t),
                    in_bounds(t),
                    0 <= j <= ns@.len(),
                    ns@ == neighbor_seq(before, t),
                    advanced@.len() == 242,
                    forall|q: Tile| #[trigger] group@.contains(q) <==> gs.contains(q),
                    forall|k: int| 0 <= k < group@.len() ==> in_bounds(#[trigger] group@[k]),
                    forall|q: Tile| #[trigger] neighbor_seq(before, t).contains(q) <==> (adjacent(t, q) && at(before, q) != 0),
                    forall|q: Tile| in_bounds(q) ==> (#[trigger] at(before, q) != 0 <==> (!gs.contains(q) && at(g, q) != 0)),
                    forall|q: Tile| in_bounds(q) ==> #[trigger] at(self@, q) == if gs.contains(q) {
                        0
                    } else if advanced@[cell_index(q)] {
                        next_phase(at(g, q))
                    } else {
                        at(g, q)
                    },
                    forall|q: Tile| in_bounds(q) && #[trigger] advanced@[cell_index(q)] ==> !gs.contains(q)
                        && at(g, q) != 0 && touches(gs, q),
                    forall|k: int, q: Tile| 0 <= k < i && #[trigger] adjacent(group@[k], q) && !gs.contains(q)
                        && at(g, q) != 0 ==> advanced@[cell_index(q)],
                    forall|k: int| 0 <= k < j ==> #[trigger] advanced@[cell_index(ns@[k])],
                decreases ns@.len() - j,
            {
                let n = ns[j];
                proof {
                    assert(ns@.contains(n));
                    assert(adjacent(t, n));
                }
                if !advanced[n.1 * WIDTH + n.0] {
                    let ghost adv_before = advanced@;
                    self.advance(n.0, n.1);
                    advanced.set(n.1 * WIDTH + n.0, true);
                    proof {
                        assert(touches(gs, n));
                        assert forall|q: Tile| in_bounds(q) && q != n implies advanced@[cell_index(q)] == adv_before[cell_index(q)] by {
                            assert(cell_index(q) != cell_index(n));
                        }
                    }
                }
                j += 1;
            }
            proof {
                assert forall|k: int, q: Tile| 0 <= k < i + 1 && #[trigger] adjacent(group@[k], q) && !gs.contains(q)
                    && at(g, q) != 0 implies advanced@[cell_index(q)] by {
                    if k == i {
                        assert(at(before, q) != 0);
                        assert(neighbor_seq(before, t).contains(q));
                        let m = choose|m: int| 0 <= m < ns@.len() && ns@[m] == q;
                        assert(advanced@[cell_index(ns@[m])]);
                    }
                }
            }
            i += 1;
        }
        proof {
            assert forall|q: Tile| in_bounds(q) implies #[trigger] at(self@, q) == clicked_phase(g, p, q) by {
                if !gs.contains(q) && touches(gs, q) && at(g, q) != 0 {
                    let u = choose|u: Tile| gs.contains(u) && #[trigger] adjacent(u, q);
                    assert(group@.contains(u));
                    let k = choose|k: int| 0 <= k < group@.len() && group@[k] == u;
                    assert(adjacent(group@[k], q));
                }
            }
            assert forall|r: int| 0 <= r < HEIGHT implies #[trigger] self@[r] =~= click_grid(g, p)[r] by {
                assert forall|c: int| 0 <= c < WIDTH implies self@[r][c] == click_grid(g, p)[r][c] by {
                    assert(at(self@, (c as usize, r as usize)) == self@[r][c]);
                }
            }
            assert(self@ =~= click_grid(g, p));
        }
    }

    /// Moves the tile at `(x, y)` one phase further along its cycle.
    pub fn advance(&mut self, x: usize, y: usize)
        requires
            x < WIDTH,
            y < HEIGHT,
            old(self).wf(),
        ensures
            final(self).wf(),
            final(self)@ == old(self)@.update(
                y as int,
                old(self)@[y as int].update(x as int, next_phase(at(old(self)@, (x, y)))),
            ),
            forall|q: Tile| in_bounds(q) ==> #[trigger] at(final(self)@, q) == if q == (x, y) {
                next_phase(at(old(self)@, q))
            } else {
                at(old(self)@, q)
            },
    {
        let v = self.get(x, y);
        if v == 0 {
            assert(old(self)@[y as int].update(x as int, 0) =~= old(self)@[y as int]);
            assert(old(self)@.update(y as int, old(self)@[y as int]) =~= old(self)@);
        } else if v == 4 {
            self.set(x, y, 1);
        } else {
            self.set(x, y, v + 1);
        }
    }
}

} // verus!
