//! The single-threaded steps of the multi-threaded strategies: expanding a queued
//! position, branch and bound against a shared best, goal-directed random plays, and
//! the split of a board into independent clusters.
use vstd::prelude::*;

use std::sync::atomic::{AtomicBool, AtomicU32, Ordering};

use crate::board::{at, click_grid, dead_tiles, in_bounds, is_group_listing, is_listing,
    occupied_tiles, Grid, MonolithMap, Tile, HEIGHT, WIDTH};
use crate::connectivity::{cluster_of, has_link};
use crate::laws::{after, is_terminal, law_click_removes_group, lemma_play_empty, lemma_play_push,
    valid_play};
use crate::optimality::{bounded_play, firsts, is_prefix, lemma_firsts_are_representatives,
    representatives, lemma_bounded_step, lemma_bounded_weaken,
    lemma_representative_listed};
use crate::search::{copy_path, is_finished_play, lemma_listing_firsts, lemma_listing_moves,
    lemma_shuffled_all, random_play, random_rollout, shuffle_groups, SolvedPath};

verus! {

/// What a worker does with a queued position.
pub enum JobOutcome {
    /// The position has no group: its dead-tile count.
    Finished(u32),
    /// One new position per group: the moves so far plus a click on the group's first
    /// tile, and the board after that click.
    Branches(Vec<(Vec<Tile>, MonolithMap)>),
}

/// The children of a queued position `(steps, map)`: one per group of `map`, in the
/// order of `all_groups`, or the dead-tile count when `map` has no group.
#[verifier::rlimit(80)]
pub fn expand_job(steps: &Vec<Tile>, map: &MonolithMap) -> (r: JobOutcome)
    requires
        map.wf(),
    ensures
        match r {
            JobOutcome::Finished(c) => is_terminal(map@) && c == dead_tiles(map@).len(),
            JobOutcome::Branches(v) => {
                &&& !is_terminal(map@)
                &&& exists|gv: Seq<Seq<Tile>>| #[trigger] is_group_listing(map@, gv) && gv.len() == v@.len()
                    && forall|i: int| 0 <= i < v@.len() ==> #[trigger] v@[i].0@ == steps@.push(gv[i][0])
                    && v@[i].1@ == click_grid(map@, gv[i][0]) && v@[i].1.wf() && has_link(map@, true, gv[i][0])
            },
        },
{
    let groups = map.all_groups();
    let ghost gv = groups@.map_values(|v: Vec<Tile>| v@);
    proof {
        lemma_listing_moves(map@, gv);
    }
    if groups.len() == 0 {
        return JobOutcome::Finished(map.get_dead_tiles_count());
    }
    let mut children: Vec<(Vec<Tile>, MonolithMap)> = Vec::new();
    let mut i: usize = 0;
    while i < groups.len()
        invariant
            map.wf(),
            0 <= i <= groups@.len(),
            gv == groups@.map_values(|v: Vec<Tile>| v@),
            is_group_listing(map@, gv),
            forall|k: int| 0 <= k < gv.len() ==> in_bounds(#[trigger] gv[k][0]) && has_link(map@, true, gv[k][0]),
            children@.len() == i,
            forall|k: int| 0 <= k < i ==> #[trigger] children@[k].0@ == steps@.push(gv[k][0])
                && children@[k].1@ == click_grid(map@, gv[k][0]) && children@[k].1.wf(),
        decreases groups@.len() - i,
    {
        proof {
            assert(gv[i as int] == groups@[i as int]@);
            assert(gv[i as int].len() >= 2);
        }
        let t = groups[i][0];
        let mut next = *map;
        next.click(t.0, t.1);
        let mut path = crate::search::copy_path(steps);
        path.push(t);
        let ghost before = children@;
        children.push((path, next));
        proof {
            assert forall|k: int| 0 <= k < i + 1 implies #[trigger] children@[k].0@ == steps@.push(gv[k][0])
                && children@[k].1@ == click_grid(map@, gv[k][0]) && children@[k].1.wf() by {
                if k < i {
                    assert(children@[k] == before[k]);
                } else {
                    assert(gv[k][0] == t);
                    assert(children@[k].0@ == steps@.push(t));
                    assert(children@[k].1@ == next@);
                }
            }
        }
        i += 1;
    }
    JobOutcome::Branches(children)
}

/// Every entry of `found` is a finished play from `g`.
pub open spec fn all_finished(g: Grid, found: Seq<SolvedPath>) -> bool {
    forall|i: int| 0 <= i < found.len() ==> is_finished_play(g, #[trigger] found[i].0, found[i].1@)
}

/// Every entry of `found` is a play that starts with `base`.
pub open spec fn all_start_with(found: Seq<SolvedPath>, base: Seq<Tile>) -> bool {
    forall|i: int| 0 <= i < found.len() ==> is_prefix(base, #[trigger] found[i].1@)
}

/// Whether a click after which `dead` tiles are dead is worth searching below, against
/// the shared best as it was read, `loaded`.
pub fn worth_descending(dead: u32, loaded: u32) -> (r: bool)
    ensures
        r == (dead < loaded),
{
    dead < loaded
}

/// Records `candidate` when it leaves fewer dead tiles than `loaded`, the shared best as
/// it was read; says whether it did.
pub fn keep_if_better(found: &mut Vec<SolvedPath>, candidate: SolvedPath, loaded: u32) -> (r: bool)
    ensures
        r == (candidate.0 < loaded),
        final(found)@ == if r {
            old(found)@.push(candidate)
        } else {
            old(found)@
        },
{
    if candidate.0 < loaded {
        found.push(candidate);
        true
    } else {
        false
    }
}

/// Records `candidate` when it frees more targets than `loaded`, the shared best as it
/// was read; says whether it did.
pub fn keep_if_higher(found: &mut Vec<SolvedPath>, candidate: SolvedPath, loaded: u32) -> (r: bool)
    ensures
        r == (candidate.0 > loaded),
        final(found)@ == if r {
            old(found)@.push(candidate)
        } else {
            old(found)@
        },
{
    if candidate.0 > loaded {
        found.push(candidate);
        true
    } else {
        false
    }
}

/// The stop rule of the timer of the shared-best strategies: a minute has passed, or
/// the shared best is a play without dead tiles.
pub fn timer_should_stop(elapsed_secs: u64, best: u32) -> (r: bool)
    ensures
        r == (elapsed_secs > 60 || best == 0),
{
    elapsed_secs > 60 || best == 0
}

/// Whether the queue-draining strategy keeps a finished position's result: when the
/// result queue is empty, or the position leaves fewer than twenty dead tiles.
pub fn accept_finished(results_empty: bool, count: u32) -> (r: bool)
    ensures
        r == (results_empty || count < 20),
{
    results_empty || count < 20
}

/// Keeps `candidate` when it frees more targets than `best` (or `best` is empty).
pub fn keep_higher(best: Option<SolvedPath>, candidate: SolvedPath) -> (r: Option<SolvedPath>)
    ensures
        r == (match best {
            None => Some(candidate),
            Some(b) => if candidate.0 > b.0 {
                Some(candidate)
            } else {
                Some(b)
            },
        }),
{
    match best {
        None => Some(candidate),
        Some(b) => if candidate.0 > b.0 {
            Some(candidate)
        } else {
            Some(b)
        },
    }
}

/// Branch and bound against a best count shared with other workers: a click after which
/// at least `best` tiles are dead is skipped, a finished play with fewer dead tiles than
/// `best` is recorded and lowers `best`, and the search returns as soon as `stop` is
/// set. With `shuffle` the groups of each position are tried in random order.
fn shared_best_search(
    board: &MonolithMap,
    steps: &mut Vec<Tile>,
    best: &AtomicU32,
    stop: &AtomicBool,
    shuffle: bool,
    found: &mut Vec<SolvedPath>,
    Ghost(root): Ghost<Grid>,
    Ghost(base): Ghost<Seq<Tile>>,
)
    requires
        board.wf(),
        board@ == after(root, old(steps)@),
        valid_play(root, old(steps)@),
        all_finished(root, old(found)@),
        is_prefix(base, old(steps)@),
        all_start_with(old(found)@, base),
    ensures
        final(steps)@ == old(steps)@,
        all_finished(root, final(found)@),
        all_start_with(final(found)@, base),
    decreases occupied_tiles(board@).len(),
{
    if stop.load(Ordering::Acquire) {
        return;
    }
    let mut groups = board.all_groups();
    proof {
        lemma_listing_moves(board@, groups@.map_values(|v: Vec<Tile>| v@));
        lemma_listing_firsts(board@, groups@);
    }
    if groups.len() == 0 {
        let count = board.get_dead_tiles_count();
        let path = copy_path(steps);
        let loaded = best.load(Ordering::Acquire);
        if keep_if_better(found, (count, path), loaded) {
            best.store(count, Ordering::Release);
        }
        proof {
            assert forall|i: int| 0 <= i < found@.len() implies is_finished_play(root, #[trigger] found@[i].0, found@[i].1@)
                && is_prefix(base, found@[i].1@) by {
                if i < old(found)@.len() {
                    assert(found@[i] == old(found)@[i]);
                }
            }
        }
        return;
    }
    if shuffle {
        let ghost listed = groups@;
        shuffle_groups(&mut groups);
        proof {
            lemma_shuffled_all(listed, groups@);
            assert forall|k: int| 0 <= k < groups@.len() implies #[trigger] groups@[k]@.len() >= 2 && in_bounds(
                groups@[k]@[0],
            ) && has_link(board@, true, groups@[k]@[0]) by {
                assert(listed.contains(groups@[k]));
                let i = choose|i: int| 0 <= i < listed.len() && listed[i] == groups@[k];
                assert(listed[i]@.len() >= 2);
            }
        }
    }
    let mut i: usize = 0;
    while i < groups.len()
        invariant
            board.wf(),
            board@ == after(root, steps@),
            valid_play(root, steps@),
            steps@ == old(steps)@,
            all_finished(root, found@),
            is_prefix(base, steps@),
            all_start_with(found@, base),
            forall|k: int| 0 <= k < groups@.len() ==> #[trigger] groups@[k]@.len() >= 2 && in_bounds(
                groups@[k]@[0],
            ) && has_link(board@, true, groups@[k]@[0]),
        decreases groups@.len() - i,
    {
        proof {
            assert(groups@[i as int]@.len() >= 2);
        }
        let t = groups[i][0];
        let mut next = *board;
        next.click(t.0, t.1);
        proof {
            law_click_removes_group(board@, t);
            lemma_play_push(root, steps@, t);
            assert(steps@.push(t).take(base.len() as int) =~= steps@.take(base.len() as int));
        }
        let loaded = best.load(Ordering::Acquire);
        if worth_descending(next.get_dead_tiles_count(), loaded) {
            steps.push(t);
            shared_best_search(&next, steps, best, stop, shuffle, found, Ghost(root), Ghost(base));
            steps.pop();
            assert(steps@ =~= old(steps)@);
        }
        i += 1;
    }
}

/// One worker of the shared-best branch and bound: searches from `root`, or from the
/// board after a click on `first` when given (nothing when `first` has no group), and
/// returns the finished plays it recorded, each from `root` and starting with `first`
/// when given, in the order found.
pub fn search_shared_best(
    root: &MonolithMap,
    first: Option<Tile>,
    best: &AtomicU32,
    stop: &AtomicBool,
    shuffle: bool,
) -> (r: Vec<SolvedPath>)
    requires
        root.wf(),
        first is Some ==> in_bounds(first->Some_0),
    ensures
        all_finished(root@, r@),
        first matches Some(t) ==> forall|i: int| 0 <= i < r@.len() ==> (#[trigger] r@[i]).1@.len() > 0
            && r@[i].1@[0] == t,
        first matches Some(t) && !has_link(root@, true, t) ==> r@.len() == 0,
{
    let mut found: Vec<SolvedPath> = Vec::new();
    let mut steps: Vec<Tile> = Vec::new();
    let mut board = *root;
    proof {
        lemma_play_empty(root@);
        assert(steps@ =~= Seq::<Tile>::empty());
    }
    match first {
        Some(t) => {
            if !root.has_group(t.0, t.1) {
                return found;
            }
            proof {
                lemma_play_push(root@, steps@, t);
            }
            board.click(t.0, t.1);
            steps.push(t);
        },
        None => {},
    }
    let ghost base = steps@;
    proof {
        assert(steps@.take(base.len() as int) =~= base);
    }
    shared_best_search(&board, &mut steps, best, stop, shuffle, &mut found, Ghost(root@), Ghost(base));
    proof {
        if first is Some {
            assert forall|i: int| 0 <= i < found@.len() implies (#[trigger] found@[i]).1@.len() > 0
                && found@[i].1@[0] == first->Some_0 by {
                assert(is_prefix(base, found@[i].1@));
                assert(found@[i].1@.take(1)[0] == base[0]);
            }
        }
    }
    found
}

/// Strict lexicographic order on tiles: by column, then by row.
pub open spec fn tile_before(a: Tile, b: Tile) -> bool {
    a.0 < b.0 || (a.0 == b.0 && a.1 < b.1)
}

/// `s` is strictly increasing, so sorted and without repeats.
pub open spec fn strictly_sorted(s: Seq<Tile>) -> bool {
    forall|i: int, j: int| 0 <= i < j < s.len() ==> tile_before(#[trigger] s[i], #[trigger] s[j])
}

/// The target tiles sorted by column, then row, each once.
pub fn normalize_targets(tiles: Vec<Tile>) -> (r: Vec<Tile>)
    ensures
        strictly_sorted(r@),
        r@.to_set() == tiles@.to_set(),
{
    let mut result: Vec<Tile> = Vec::new();
    let mut i: usize = 0;
    while i < tiles.len()
        invariant
            0 <= i <= tiles@.len(),
            strictly_sorted(result@),
            result@.to_set() == tiles@.take(i as int).to_set(),
        decreases tiles@.len() - i,
    {
        let t = tiles[i];
        let mut j: usize = 0;
        while j < result.len() && (result[j].0 < t.0 || (result[j].0 == t.0 && result[j].1 < t.1))
            invariant
                0 <= j <= result@.len(),
                forall|k: int| 0 <= k < j ==> tile_before(#[trigger] result@[k], t),
            decreases result@.len() - j,
        {
            j += 1;
        }
        let ghost before = result@;
        proof {
            assert(tiles@.take(i + 1) =~= tiles@.take(i as int).push(t));
        }
        if j < result.len() && result[j].0 == t.0 && result[j].1 == t.1 {
            proof {
                assert(before.to_set().contains(t));
                assert(before.to_set() =~= before.to_set().insert(t));
            }
        } else {
            result.insert(j, t);
            proof {
                assert(result@ =~= before.take(j as int).push(t) + before.skip(j as int));
                assert forall|a: int, b: int| 0 <= a < b < result@.len() implies tile_before(
                    #[trigger] result@[a],
                    #[trigger] result@[b],
                ) by {
                    if a < j && b > j {
                        assert(tile_before(before[a], t));
                    }
                    if a == j {
                        assert(!tile_before(before[b - 1], t));
                        assert(before[b - 1] != t);
                    }
                }
                assert(result@.to_set() =~= before.to_set().insert(t)) by {
                    assert forall|v: Tile| result@.to_set().contains(v) <==> before.to_set().insert(t).contains(v) by {
                        if result@.contains(v) {
                            let k = choose|k: int| 0 <= k < result@.len() && result@[k] == v;
                            if k < j {
                                assert(before[k] == v);
                            } else if k > j {
                                assert(before[k - 1] == v);
                            }
                        }
                        if before.contains(v) {
                            let k = choose|k: int| 0 <= k < before.len() && before[k] == v;
                            if k < j {
                                assert(result@[k] == v);
                            } else {
                                assert(result@[k + 1] == v);
                            }
                        }
                        if v == t {
                            assert(result@[j as int] == v);
                        }
                    }
                }
            }
        }
        proof {
            let p = tiles@.take(i as int);
            assert forall|v: Tile| #[trigger] p.push(t).to_set().contains(v) == p.to_set().insert(t).contains(v) by {
                assert(p.push(t).to_set().contains(v) == p.push(t).contains(v));
                assert(p.to_set().contains(v) == p.contains(v));
                if p.push(t).contains(v) && v != t {
                    let k = choose|k: int| 0 <= k < p.push(t).len() && p.push(t)[k] == v;
                    assert(p[k] == v);
                }
                if p.contains(v) {
                    let k = choose|k: int| 0 <= k < p.len() && p[k] == v;
                    assert(p.push(t)[k] == v);
                }
                if v == t {
                    assert(p.push(t)[p.len() as int] == v);
                }
            }
            assert(p.push(t).to_set() =~= p.to_set().insert(t));
        }
        i += 1;
    }
    assert(tiles@.take(tiles@.len() as int) =~= tiles@);
    result
}

/// The targets of `targets` that are empty in `g`.
pub open spec fn freed_targets(g: Grid, targets: Seq<Tile>) -> Seq<Tile> {
    targets.filter(|t: Tile| at(g, t) == 0)
}

/// How many of `targets` are empty on `map`.
pub fn get_map_diff_score(map: &MonolithMap, targets: &Vec<Tile>) -> (r: u32)
    requires
        forall|k: int| 0 <= k < targets@.len() ==> in_bounds(#[trigger] targets@[k]),
        targets@.len() <= u32::MAX,
    ensures
        r == freed_targets(map@, targets@).len(),
{
    let ghost f = |t: Tile| at(map@, t) == 0;
    let mut score: u32 = 0;
    let mut i: usize = 0;
    while i < targets.len()
        invariant
            0 <= i <= targets@.len(),
            targets@.len() <= u32::MAX,
            forall|k: int| 0 <= k < targets@.len() ==> in_bounds(#[trigger] targets@[k]),
            f == (|t: Tile| at(map@, t) == 0),
            score == targets@.take(i as int).filter(f).len(),
            score <= i,
        decreases targets@.len() - i,
    {
        proof {
            crate::board::lemma_filter_take_step(targets@, f, i as int);
        }
        let t = targets[i];
        if map.get(t.0, t.1) == 0 {
            score += 1;
        }
        i += 1;
    }
    assert(targets@.take(targets@.len() as int) =~= targets@);
    score
}

/// `(score, moves)` is a play from `g` that frees `score` of `targets`.
pub open spec fn is_scored_play(g: Grid, targets: Seq<Tile>, score: u32, moves: Seq<Tile>) -> bool {
    &&& valid_play(g, moves)
    &&& score == freed_targets(after(g, moves), targets).len()
}

/// One worker of the goal-directed search: random plays (see `random_play`) scored by
/// the targets they free, until `stop` is set. A play that frees more targets than the
/// shared `best` is recorded and raises `best`; one that frees them all sets `stop`.
/// When every target is empty from the start, the empty play is the one result and
/// `stop` is set.
pub fn target_worker(map: &MonolithMap, targets: &Vec<Tile>, best: &AtomicU32, stop: &AtomicBool) -> (r: Vec<SolvedPath>)
    requires
        map.wf(),
        forall|k: int| 0 <= k < targets@.len() ==> in_bounds(#[trigger] targets@[k]),
        targets@.len() <= u32::MAX,
    ensures
        forall|i: int| 0 <= i < r@.len() ==> is_scored_play(map@, targets@, #[trigger] r@[i].0, r@[i].1@),
        freed_targets(map@, targets@).len() == targets@.len() ==> r@.len() == 1 && r@[0].1@.len() == 0
            && r@[0].0 == targets@.len(),
        freed_targets(map@, targets@).len() != targets@.len() ==> forall|i: int| 0 <= i < r@.len() ==> is_terminal(
            after(map@, (#[trigger] r@[i]).1@),
        ) && r@[i].0 > 0,
{
    let target_len = targets.len() as u32;
    let mut found: Vec<SolvedPath> = Vec::new();
    let initial = get_map_diff_score(map, targets);
    if initial == target_len {
        let empty: Vec<Tile> = Vec::new();
        proof {
            lemma_play_empty(map@);
            assert(empty@ =~= Seq::<Tile>::empty());
        }
        found.push((initial, empty));
        stop.store(true, Ordering::Release);
        return found;
    }
    let mut rounds: u64 = 0;
    while rounds < u64::MAX
        invariant
            map.wf(),
            forall|k: int| 0 <= k < targets@.len() ==> in_bounds(#[trigger] targets@[k]),
            targets@.len() <= u32::MAX,
            forall|i: int| 0 <= i < found@.len() ==> is_scored_play(map@, targets@, #[trigger] found@[i].0, found@[i].1@),
            forall|i: int| 0 <= i < found@.len() ==> is_terminal(after(map@, (#[trigger] found@[i]).1@))
                && found@[i].0 > 0,
        decreases u64::MAX - rounds,
    {
        if stop.load(Ordering::Acquire) {
            break;
        }
        let (board, steps) = random_play(map);
        let count = get_map_diff_score(&board, targets);
        let loaded = best.load(Ordering::Acquire);
        let ghost before = found@;
        if keep_if_higher(&mut found, (count, steps), loaded) {
            best.store(count, Ordering::Release);
            proof {
                assert forall|i: int| 0 <= i < found@.len() implies is_scored_play(map@, targets@, #[trigger] found@[i].0, found@[i].1@)
                    && is_terminal(after(map@, found@[i].1@)) && found@[i].0 > 0 by {
                    if i < before.len() {
                        assert(found@[i] == before[i]);
                    }
                }
            }
            if count == target_len {
                stop.store(true, Ordering::Release);
                break;
            }
        }
        rounds += 1;
    }
    found
}

/// `g` with every tile outside `s` emptied.
pub open spec fn restricted(g: Grid, s: Set<Tile>) -> Grid {
    Seq::new(
        HEIGHT as nat,
        |y: int| Seq::new(WIDTH as nat, |x: int| if s.contains((x as usize, y as usize)) {
            g[y][x]
        } else {
            0
        }),
    )
}

impl MonolithMap {
    /// A board that holds the tiles of `cluster` as they are here, and nothing else.
    pub fn create_map_from_cluster(&self, cluster: &Vec<Tile>) -> (r: MonolithMap)
        requires
            self.wf(),
            forall|k: int| 0 <= k < cluster@.len() ==> in_bounds(#[trigger] cluster@[k]),
        ensures
            r.wf(),
            r@ == restricted(self@, cluster@.to_set()),
    {
        let mut r = MonolithMap::default();
        let mut i: usize = 0;
        while i < cluster.len()
            invariant
                self.wf(),
                r.wf(),
                0 <= i <= cluster@.len(),
                forall|k: int| 0 <= k < cluster@.len() ==> in_bounds(#[trigger] cluster@[k]),
                forall|q: Tile| in_bounds(q) ==> #[trigger] at(r@, q) == if cluster@.take(i as int).contains(q) {
                    at(self@, q)
                } else {
                    0
                },
            decreases cluster@.len() - i,
        {
            let t = cluster[i];
            let v = self.get(t.0, t.1);
            r.set(t.0, t.1, v);
            proof {
                let p = cluster@.take(i as int);
                assert(cluster@.take(i + 1) =~= p.push(t));
                assert forall|q: Tile| in_bounds(q) implies #[trigger] at(r@, q) == if cluster@.take(i + 1).contains(q) {
                    at(self@, q)
                } else {
                    0
                } by {
                    if p.push(t).contains(q) && q != t {
                        let k = choose|k: int| 0 <= k < p.push(t).len() && p.push(t)[k] == q;
                        assert(p[k] == q);
                    }
                    if p.contains(q) {
                        let k = choose|k: int| 0 <= k < p.len() && p[k] == q;
                        assert(p.push(t)[k] == q);
                    }
                    if q == t {
                        assert(p.push(t)[p.len() as int] == q);
                    }
                }
            }
            i += 1;
        }
        proof {
            assert(cluster@.take(cluster@.len() as int) =~= cluster@);
            let e = restricted(self@, cluster@.to_set());
            assert forall|y: int| 0 <= y < HEIGHT implies #[trigger] r@[y] =~= e[y] by {
                assert forall|x: int| 0 <= x < WIDTH implies r@[y][x] == e[y][x] by {
                    let q: Tile = (x as usize, y as usize);
                    assert(at(r@, q) == r@[y][x]);
                    assert(cluster@.to_set().contains(q) == cluster@.contains(q));
                }
            }
            assert(r@ =~= e);
        }
        r
    }

    /// The number of non-empty tiles.
    pub fn get_all_tiles_count(&self) -> (r: u32)
        ensures
            r == occupied_tiles(self@).len(),
    {
        let tiles = self.get_all_tiles();
        proof {
            crate::board::scan_order().lemma_filter_len(|t: Tile| at(self@, t) != 0);
        }
        tiles.len() as u32
    }
}

/// The sub-board of cluster `c`: the tiles of `c` as they are in `g`, nothing else.
pub open spec fn sub_board(g: Grid, c: Seq<Tile>) -> Grid {
    restricted(g, c.to_set())
}

/// The sub-board of `c` has twelve groups or more.
pub open spec fn crowded(g: Grid, c: Seq<Tile>) -> bool {
    representatives(sub_board(g, c)).len() >= 12
}

/// The sub-boards of the clusters `cl` that have a group, in the order of `cl`.
pub open spec fn plan_boards(g: Grid, cl: Seq<Seq<Tile>>) -> Seq<Grid>
    decreases cl.len(),
{
    if cl.len() == 0 {
        Seq::empty()
    } else {
        let rest = plan_boards(g, cl.drop_last());
        if representatives(sub_board(g, cl.last())).len() > 0 {
            rest.push(sub_board(g, cl.last()))
        } else {
            rest
        }
    }
}

/// The tiles of a listed part lie on the board.
proof fn lemma_listed_in_bounds(g: Grid, cv: Seq<Seq<Tile>>, i: int)
    requires
        is_listing(g, false, cv),
        0 <= i < cv.len(),
    ensures
        forall|k: int| 0 <= k < cv[i].len() ==> in_bounds(#[trigger] cv[i][k]),
{
    let c = cv[i];
    let q = c[0];
    assert(c.contains(q));
    assert(c.to_set().contains(q));
    assert forall|k: int| 0 <= k < c.len() implies in_bounds(#[trigger] c[k]) by {
        assert(c.contains(c[k]));
        assert(c.to_set().contains(c[k]));
        crate::connectivity::lemma_connected_end(g, false, q, c[k]);
    }
}

/// The sub-boards of the decomposition strategy: one per cluster that has a group, in
/// the order of `all_tile_clusters`; `None` exactly when some cluster's sub-board has
/// twelve groups or more.
#[verifier::spinoff_prover]
#[verifier::rlimit(100)]
pub fn cluster_boards(map: &MonolithMap) -> (r: Option<Vec<MonolithMap>>)
    requires
        map.wf(),
    ensures
        exists|cl: Seq<Seq<Tile>>| {
            &&& #[trigger] is_listing(map@, false, cl)
            &&& (r is None <==> exists|k: int| 0 <= k < cl.len() && crowded(map@, #[trigger] cl[k]))
            &&& (r matches Some(v) ==> v@.map_values(|b: MonolithMap| b@) == plan_boards(map@, cl)
                && forall|i: int| 0 <= i < v@.len() ==> (#[trigger] v@[i]).wf())
        },
{
    let clusters = map.all_tile_clusters();
    let ghost cv = clusters@.map_values(|v: Vec<Tile>| v@);
    let mut boards: Vec<MonolithMap> = Vec::new();
    let mut i: usize = 0;
    proof {
        assert(cv.take(0) =~= Seq::<Seq<Tile>>::empty());
        assert(boards@.map_values(|b: MonolithMap| b@) =~= plan_boards(map@, cv.take(0)));
    }
    while i < clusters.len()
        invariant
            map.wf(),
            0 <= i <= clusters@.len(),
            cv == clusters@.map_values(|v: Vec<Tile>| v@),
            is_listing(map@, false, cv),
            forall|k: int| 0 <= k < i ==> !crowded(map@, #[trigger] cv[k]),
            boards@.map_values(|b: MonolithMap| b@) == plan_boards(map@, cv.take(i as int)),
            forall|k: int| 0 <= k < boards@.len() ==> (#[trigger] boards@[k]).wf(),
        decreases clusters@.len() - i,
    {
        let ghost c = cv[i as int];
        proof {
            assert(cv[i as int] == clusters@[i as int]@);
            lemma_listed_in_bounds(map@, cv, i as int);
        }
        let sub = map.create_map_from_cluster(&clusters[i]);
        let groups = sub.all_groups();
        proof {
            lemma_firsts_are_representatives(sub@, groups@.map_values(|v: Vec<Tile>| v@));
            assert(sub@ == sub_board(map@, c));
            let p = cv.take(i + 1);
            assert(p.drop_last() =~= cv.take(i as int));
            assert(p.last() == c);
        }
        if groups.len() >= 12 {
            proof {
                assert(crowded(map@, cv[i as int]));
            }
            return None;
        }
        let ghost before = boards@;
        if groups.len() > 0 {
            boards.push(sub);
            proof {
                assert(boards@.map_values(|b: MonolithMap| b@) =~= before.map_values(|b: MonolithMap| b@).push(sub@));
            }
        }
        i += 1;
    }
    proof {
        assert(cv.take(clusters@.len() as int) =~= cv);
    }
    Some(boards)
}

/// `bound` is at most the dead tiles of every play from `g` through `steps` that clicks
/// representatives, keeps fewer than `bound` dead tiles after each click, and ends
/// without groups.
pub open spec fn bound_beats_extensions(g: Grid, steps: Seq<Tile>, bound: u32) -> bool {
    forall|m: Seq<Tile>|
        #[trigger] bounded_play(g, m, (bound - 1) as u32) && bound > 0 && is_prefix(steps, m) && is_terminal(
            after(g, m),
        ) ==> bound <= dead_tiles(after(g, m)).len()
}

/// Every play from `g` through `steps` whose next click is one of `fs[..i]`, that clicks
/// representatives and keeps fewer than `bound` dead tiles after each click, and that ends
/// without groups, leaves at least `bound` dead tiles.
#[verifier::opaque]
pub open spec fn covered_through(g: Grid, steps: Seq<Tile>, bound: u32, fs: Seq<Tile>, i: int) -> bool {
    forall|m: Seq<Tile>, k: int|
        0 <= k < i && #[trigger] bounded_play(g, m, (bound - 1) as u32) && bound > 0 && is_prefix(steps, m)
            && is_terminal(after(g, m)) && m.len() > steps.len() && m[steps.len() as int] == #[trigger] fs[k]
            ==> bound <= dead_tiles(after(g, m)).len()
}

/// As `covered_through`, for the plays whose next click is `t`.
#[verifier::opaque]
pub open spec fn covered_via(g: Grid, steps: Seq<Tile>, bound: u32, t: Tile) -> bool {
    forall|m: Seq<Tile>|
        #[trigger] bounded_play(g, m, (bound - 1) as u32) && bound > 0 && is_prefix(steps, m) && is_terminal(
            after(g, m),
        ) && m.len() > steps.len() && m[steps.len() as int] == t ==> bound <= dead_tiles(after(g, m)).len()
}

proof fn lemma_covered_start(g: Grid, steps: Seq<Tile>, bound: u32, fs: Seq<Tile>)
    ensures
        covered_through(g, steps, bound, fs, 0),
{
    reveal(covered_through);
}

proof fn lemma_covered_extend(g: Grid, steps: Seq<Tile>, old_bound: u32, bound: u32, fs: Seq<Tile>, i: int)
    requires
        0 <= i < fs.len(),
        covered_through(g, steps, old_bound, fs, i),
        bound <= old_bound,
        covered_via(g, steps, bound, fs[i]),
    ensures
        covered_through(g, steps, bound, fs, i + 1),
{
    reveal(covered_through);
    reveal(covered_via);
    assert forall|m: Seq<Tile>, k: int|
        0 <= k < i + 1 && #[trigger] bounded_play(g, m, (bound - 1) as u32) && bound > 0 && is_prefix(steps, m)
            && is_terminal(after(g, m)) && m.len() > steps.len() && m[steps.len() as int] == #[trigger] fs[k]
            implies bound <= dead_tiles(after(g, m)).len() by {
        if k < i {
            lemma_bounded_weaken(g, m, (bound - 1) as u32, (old_bound - 1) as u32);
        }
    }
}

proof fn lemma_covered_via_child(g: Grid, steps: Seq<Tile>, bound: u32, t: Tile)
    requires
        bound_beats_extensions(g, steps.push(t), bound),
    ensures
        covered_via(g, steps, bound, t),
{
    reveal(covered_via);
    assert forall|m: Seq<Tile>|
        #[trigger] bounded_play(g, m, (bound - 1) as u32) && bound > 0 && is_prefix(steps, m) && is_terminal(
            after(g, m),
        ) && m.len() > steps.len() && m[steps.len() as int] == t implies bound <= dead_tiles(after(g, m)).len() by {
        assert(m.take(steps.len() + 1int) =~= steps.push(t));
    }
}

proof fn lemma_covered_via_pruned(g: Grid, steps: Seq<Tile>, bound: u32, t: Tile)
    requires
        dead_tiles(click_grid(after(g, steps), t)).len() >= bound,
    ensures
        covered_via(g, steps, bound, t),
{
    reveal(covered_via);
    assert forall|m: Seq<Tile>|
        #[trigger] bounded_play(g, m, (bound - 1) as u32) && bound > 0 && is_prefix(steps, m) && is_terminal(
            after(g, m),
        ) && m.len() > steps.len() && m[steps.len() as int] == t implies false by {
        lemma_bounded_step(g, m, (bound - 1) as u32, steps.len() as int);
    }
}

proof fn lemma_covered_all(g: Grid, steps: Seq<Tile>, bound: u32, gv: Seq<Seq<Tile>>)
    requires
        is_group_listing(after(g, steps), gv),
        gv.len() > 0,
        covered_through(g, steps, bound, firsts(gv), gv.len() as int),
    ensures
        bound_beats_extensions(g, steps, bound),
{
    reveal(covered_through);
    let n = steps.len();
    let fs = firsts(gv);
    lemma_listing_moves(after(g, steps), gv);
    assert forall|m: Seq<Tile>|
        #[trigger] bounded_play(g, m, (bound - 1) as u32) && bound > 0 && is_prefix(steps, m) && is_terminal(
            after(g, m),
        ) implies bound <= dead_tiles(after(g, m)).len() by {
        if m.len() == n {
            assert(m =~= steps);
        }
        lemma_bounded_step(g, m, (bound - 1) as u32, n as int);
        assert(m.take(n as int) == steps);
        lemma_representative_listed(after(g, steps), gv, m[n as int]);
        let k = choose|k: int| 0 <= k < gv.len() && #[trigger] gv[k][0] == m[n as int];
        assert(fs[k] == gv[k][0]);
    }
}

proof fn lemma_covered_leaf(g: Grid, steps: Seq<Tile>, bound: u32)
    requires
        is_terminal(after(g, steps)),
        bound <= dead_tiles(after(g, steps)).len(),
    ensures
        bound_beats_extensions(g, steps, bound),
{
    let n = steps.len();
    assert forall|m: Seq<Tile>|
        #[trigger] bounded_play(g, m, (bound - 1) as u32) && bound > 0 && is_prefix(steps, m) && is_terminal(
            after(g, m),
        ) implies bound <= dead_tiles(after(g, m)).len() by {
        if m.len() > n {
            lemma_bounded_step(g, m, (bound - 1) as u32, n as int);
            assert(m.take(n as int) == steps);
        }
        assert(m =~= steps);
    }
}

/// Branch and bound on one sub-board against a bound of its own: a click after which at
/// least `best` tiles are dead is skipped, and a finished play with fewer dead tiles than
/// `best` replaces `found` and lowers `best`. Afterwards `best` is at most the dead tiles
/// of every play through `steps` that the bound let through.
#[verifier::rlimit(100)]
fn cluster_search(
    board: &MonolithMap,
    steps: &mut Vec<Tile>,
    best: &mut u32,
    found: &mut Option<Vec<Tile>>,
    Ghost(root): Ghost<Grid>,
)
    requires
        board.wf(),
        board@ == after(root, old(steps)@),
        valid_play(root, old(steps)@),
        match *old(found) {
            None => true,
            Some(p) => is_finished_play(root, *old(best), p@),
        },
    ensures
        final(steps)@ == old(steps)@,
        *final(best) <= *old(best),
        *old(found) is None && *final(found) is Some ==> *final(best) < *old(best),
        match *final(found) {
            None => *final(best) == *old(best) && *old(found) is None,
            Some(p) => is_finished_play(root, *final(best), p@),
        },
        bound_beats_extensions(root, old(steps)@, *final(best)),
    decreases occupied_tiles(board@).len(),
{
    let groups = board.all_groups();
    let ghost gv = groups@.map_values(|v: Vec<Tile>| v@);
    let ghost fs = firsts(gv);
    proof {
        lemma_listing_moves(board@, gv);
        lemma_listing_firsts(board@, groups@);
    }
    if groups.len() == 0 {
        let count = board.get_dead_tiles_count();
        if count < *best {
            *found = Some(copy_path(steps));
            *best = count;
        }
        proof {
            lemma_covered_leaf(root, steps@, *best);
        }
        return;
    }
    proof {
        lemma_covered_start(root, steps@, *best, fs);
    }
    let mut i: usize = 0;
    while i < groups.len()
        invariant
            board.wf(),
            board@ == after(root, steps@),
            valid_play(root, steps@),
            steps@ == old(steps)@,
            0 <= i <= groups@.len(),
            gv == groups@.map_values(|v: Vec<Tile>| v@),
            fs == firsts(gv),
            is_group_listing(board@, gv),
            *best <= *old(best),
            *old(found) is None && *found is Some ==> *best < *old(best),
            match *found {
                None => *best == *old(best) && *old(found) is None,
                Some(p) => is_finished_play(root, *best, p@),
            },
            forall|k: int| 0 <= k < groups@.len() ==> #[trigger] groups@[k]@.len() >= 2 && in_bounds(
                groups@[k]@[0],
            ) && has_link(board@, true, groups@[k]@[0]),
            covered_through(root, steps@, *best, fs, i as int),
        decreases groups@.len() - i,
    {
        proof {
            assert(groups@[i as int]@.len() >= 2);
            assert(gv[i as int] == groups@[i as int]@);
            assert(fs[i as int] == gv[i as int][0]);
        }
        let t = groups[i][0];
        let mut next = *board;
        next.click(t.0, t.1);
        proof {
            law_click_removes_group(board@, t);
            lemma_play_push(root, steps@, t);
        }
        let ghost best_before = *best;
        if next.get_dead_tiles_count() < *best {
            steps.push(t);
            cluster_search(&next, steps, best, found, Ghost(root));
            proof {
                lemma_covered_via_child(root, old(steps)@, *best, t);
            }
            steps.pop();
            assert(steps@ =~= old(steps)@);
        } else {
            proof {
                lemma_covered_via_pruned(root, steps@, *best, t);
            }
        }
        proof {
            lemma_covered_extend(root, steps@, best_before, *best, fs, i as int);
        }
        i += 1;
    }
    proof {
        lemma_covered_all(root, steps@, *best, gv);
    }
}

/// The bound that a search on `g` ends with when it returns `r`: the dead tiles that `r`
/// leaves when it is a finished play that beats the number of tiles, else that number.
pub open spec fn cluster_bound(g: Grid, r: Seq<Tile>) -> nat {
    if valid_play(g, r) && is_terminal(after(g, r)) && dead_tiles(after(g, r)).len() < occupied_tiles(g).len() {
        dead_tiles(after(g, r)).len()
    } else {
        occupied_tiles(g).len()
    }
}

/// Solves one sub-board to exhaustion by branch and bound, starting from the number of
/// its tiles as the bound: the first found of the plays with the fewest dead tiles, or
/// nothing when no finished play leaves fewer dead tiles than there are tiles. No play
/// that clicks representatives and keeps fewer dead tiles than the final bound after each
/// click ends with fewer dead tiles than that bound.
pub fn solve_cluster(map: MonolithMap) -> (r: Vec<Tile>)
    requires
        map.wf(),
    ensures
        r@.len() > 0 ==> valid_play(map@, r@) && is_terminal(after(map@, r@)) && dead_tiles(
            after(map@, r@),
        ).len() < occupied_tiles(map@).len(),
        forall|m: Seq<Tile>|
            #[trigger] bounded_play(map@, m, (cluster_bound(map@, r@) - 1) as u32) && cluster_bound(map@, r@) > 0
                && is_terminal(after(map@, m)) ==> cluster_bound(map@, r@) <= dead_tiles(after(map@, m)).len(),
{
    let mut best = map.get_all_tiles_count();
    let mut found: Option<Vec<Tile>> = None;
    let mut steps: Vec<Tile> = Vec::new();
    proof {
        lemma_play_empty(map@);
        assert(steps@ =~= Seq::<Tile>::empty());
    }
    cluster_search(&map, &mut steps, &mut best, &mut found, Ghost(map@));
    proof {
        assert forall|m: Seq<Tile>| is_prefix(Seq::<Tile>::empty(), m) by {
            assert(m.take(0) =~= Seq::<Tile>::empty());
        }
        if found is None {
            lemma_play_empty(map@);
            let e = Seq::<Tile>::empty();
            assert(bounded_play(map@, e, (best - 1) as u32));
            assert(is_prefix(e, e));
            assert(cluster_bound(map@, e) == best);
        } else {
            let p = found->Some_0;
            assert(cluster_bound(map@, p@) == best);
        }
    }
    match found {
        Some(p) => p,
        None => Vec::new(),
    }
}

/// One worker of the parallel random plays: random plays (see `random_play`) until `stop`
/// is set; a play with fewer dead tiles than the shared `best` is recorded and lowers
/// `best`.
pub fn rollout_worker(map: &MonolithMap, best: &AtomicU32, stop: &AtomicBool) -> (r: Vec<SolvedPath>)
    requires
        map.wf(),
    ensures
        all_finished(map@, r@),
{
    let mut found: Vec<SolvedPath> = Vec::new();
    let mut rounds: u64 = 0;
    while rounds < u64::MAX
        invariant
            map.wf(),
            all_finished(map@, found@),
        decreases u64::MAX - rounds,
    {
        if stop.load(Ordering::Acquire) {
            break;
        }
        let candidate = random_rollout(map);
        let count = candidate.0;
        let loaded = best.load(Ordering::Acquire);
        let ghost before = found@;
        if keep_if_better(&mut found, candidate, loaded) {
            best.store(count, Ordering::Release);
        }
        proof {
            assert forall|i: int| 0 <= i < found@.len() implies is_finished_play(map@, #[trigger] found@[i].0, found@[i].1@) by {
                if i < before.len() {
                    assert(found@[i] == before[i]);
                }
            }
        }
        rounds += 1;
    }
    found
}

} // verus!
