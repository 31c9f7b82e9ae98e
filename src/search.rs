//! Search strategies: plays from a board to a position without groups, chosen at
//! random, exhaustively under a dead-tile ceiling, by lookahead, or greedily.
use vstd::prelude::*;

use rand::seq::SliceRandom;

use crate::board::{click_grid, dead_tiles, in_bounds, is_group_listing, occupied_tiles, Grid, MonolithMap,
    Tile};
use crate::connectivity::{has_link, lemma_connected_end};
use crate::optimality::{bounded_play, first_ceiling, firsts, has_bounded_finish, is_prefix,
    lemma_firsts_are_representatives, representatives,
    lemma_bounded_is_valid, lemma_bounded_step, lemma_bounded_weaken, lemma_listed_representative,
    lemma_representative_listed};
use crate::laws::{after, is_terminal, law_click_removes_group, lemma_play_empty,
    lemma_play_push, valid_play};

verus! {

/// A play and the number of tiles it leaves dead (or another score, where a strategy
/// says so).
pub type SolvedPath = (u32, Vec<Tile>);

/// `(count, moves)` is a play from `g` that ends without groups and leaves `count`
/// dead tiles.
pub open spec fn is_finished_play(g: Grid, count: u32, moves: Seq<Tile>) -> bool {
    &&& valid_play(g, moves)
    &&& is_terminal(after(g, moves))
    &&& count == dead_tiles(after(g, moves)).len()
}

/// What a listing of groups says of the play's next click.
pub proof fn lemma_listing_moves(g: Grid, gv: Seq<Seq<Tile>>)
    requires
        is_group_listing(g, gv),
    ensures
        gv.len() == 0 <==> is_terminal(g),
        forall|i: int| 0 <= i < gv.len() ==> in_bounds(#[trigger] gv[i][0]) && has_link(g, true, gv[i][0]),
{
    assert forall|i: int| 0 <= i < gv.len() implies in_bounds(#[trigger] gv[i][0]) && has_link(g, true, gv[i][0]) by {
        assert(gv[i].contains(gv[i][0]));
        assert(gv[i].to_set().contains(gv[i][0]));
        lemma_connected_end(g, true, gv[i][0], gv[i][0]);
    }
    if gv.len() > 0 {
        assert(has_link(g, true, gv[0][0]));
    } else {
        assert forall|t: Tile| in_bounds(t) implies !#[trigger] has_link(g, true, t) by {
            if has_link(g, true, t) {
                let i = choose|i: int| 0 <= i < gv.len() && #[trigger] gv[i].contains(t);
            }
        }
    }
}

/// Relies on rand's `SliceRandom::shuffle` with the thread-local generator, which
/// permutes the slice in place.
#[verifier::external_body]
pub(crate) fn shuffle_groups(groups: &mut Vec<Vec<Tile>>)
    ensures
        final(groups)@.to_multiset() == old(groups)@.to_multiset(),
{
    groups.shuffle(&mut rand::thread_rng());
}

/// After a shuffle every group is one of the groups before it.
pub proof fn lemma_shuffled_all(before: Seq<Vec<Tile>>, now: Seq<Vec<Tile>>)
    requires
        now.to_multiset() == before.to_multiset(),
    ensures
        now.len() == before.len(),
        forall|k: int| 0 <= k < now.len() ==> before.contains(#[trigger] now[k]),
{
    now.to_multiset_ensures();
    before.to_multiset_ensures();
    assert forall|k: int| 0 <= k < now.len() implies before.contains(#[trigger] now[k]) by {
        assert(now.contains(now[k]));
        assert(before.to_multiset().count(now[k]) > 0);
    }
}

/// After a shuffle the first group is one of the groups before it.
proof fn lemma_shuffled_first(before: Seq<Vec<Tile>>, now: Seq<Vec<Tile>>)
    requires
        now.to_multiset() == before.to_multiset(),
        before.len() > 0,
    ensures
        now.len() == before.len(),
        exists|i: int| 0 <= i < before.len() && #[trigger] before[i] == now[0],
{
    now.to_multiset_ensures();
    before.to_multiset_ensures();
    assert(now.contains(now[0]));
    assert(before.to_multiset().count(now[0]) > 0);
    assert(before.contains(now[0]));
}

/// One random play from `map` to a position without groups: at each step the groups are
/// shuffled and the first tile of the first one is clicked. Returns the final board too.
pub fn random_play(map: &MonolithMap) -> (r: (MonolithMap, Vec<Tile>))
    requires
        map.wf(),
    ensures
        r.0.wf(),
        valid_play(map@, r.1@),
        r.0@ == after(map@, r.1@),
        is_terminal(r.0@),
{
    let mut board = *map;
    let mut steps: Vec<Tile> = Vec::new();
    let mut groups = board.all_groups();
    proof {
        lemma_play_empty(map@);
        assert(steps@ =~= Seq::<Tile>::empty());
    }
    while groups.len() > 0
        invariant
            map.wf(),
            board.wf(),
            board@ == after(map@, steps@),
            valid_play(map@, steps@),
            is_group_listing(board@, groups@.map_values(|v: Vec<Tile>| v@)),
        decreases occupied_tiles(board@).len(),
    {
        let ghost listed = groups@;
        shuffle_groups(&mut groups);
        proof {
            lemma_shuffled_first(listed, groups@);
            lemma_listing_moves(board@, listed.map_values(|v: Vec<Tile>| v@));
            let i = choose|i: int| 0 <= i < listed.len() && #[trigger] listed[i] == groups@[0];
            assert(listed.map_values(|v: Vec<Tile>| v@)[i] == groups@[0]@);
        }
        let t = groups[0][0];
        let ghost before = board@;
        proof {
            law_click_removes_group(before, t);
            lemma_play_push(map@, steps@, t);
        }
        board.click(t.0, t.1);
        steps.push(t);
        groups = board.all_groups();
    }
    proof {
        lemma_listing_moves(board@, groups@.map_values(|v: Vec<Tile>| v@));
    }
    (board, steps)
}

/// One random play from `map` (see `random_play`) with the dead tiles it leaves.
pub fn random_rollout(map: &MonolithMap) -> (r: SolvedPath)
    requires
        map.wf(),
    ensures
        is_finished_play(map@, r.0, r.1@),
{
    let (board, steps) = random_play(map);
    (board.get_dead_tiles_count(), steps)
}

#[verifier::external_type_specification]
#[verifier::external_body]
pub struct ExInstant(std::time::Instant);

/// Relies on `std::time::Instant::now`: the current instant of the monotonic clock.
#[verifier::external_body]
fn now() -> std::time::Instant {
    std::time::Instant::now()
}

/// Relies on `std::time::Instant::elapsed` and `Duration::as_secs`: whole seconds
/// since `start`.
#[verifier::external_body]
fn elapsed_secs(start: &std::time::Instant) -> u64 {
    start.elapsed().as_secs()
}

/// A time budget for repeated random plays.
#[derive(Debug, Clone, Copy, PartialEq, Eq)]
pub enum RolloutBudget {
    /// After 10 s a best of under 5 dead tiles is enough, after 30 s under 8, after 60 s
    /// under 10, after 120 s under 15, and 300 s is the hard cap.
    Long,
    /// After 10 s a best of under 5 dead tiles is enough, after 20 s under 8, and 30 s is
    /// the hard cap.
    Short,
}

/// Whether the budget is spent, `elapsed` seconds in, with `best` dead tiles found.
pub open spec fn budget_spent(budget: RolloutBudget, elapsed: u64, best: u32) -> bool {
    match budget {
        RolloutBudget::Long => {
            ||| elapsed > 10 && best < 5
            ||| elapsed > 30 && best < 8
            ||| elapsed > 60 && best < 10
            ||| elapsed > 120 && best < 15
            ||| elapsed > 300
        },
        RolloutBudget::Short => {
            ||| elapsed > 10 && best < 5
            ||| elapsed > 20 && best < 8
            ||| elapsed > 30
        },
    }
}

/// Whether repeated random plays stop, `elapsed` seconds in, with `best` dead tiles found.
pub fn should_stop(budget: RolloutBudget, elapsed: u64, best: u32) -> (r: bool)
    ensures
        r == budget_spent(budget, elapsed, best),
{
    match budget {
        RolloutBudget::Long => elapsed > 10 && best < 5 || elapsed > 30 && best < 8 || elapsed > 60 && best < 10
            || elapsed > 120 && best < 15 || elapsed > 300,
        RolloutBudget::Short => elapsed > 10 && best < 5 || elapsed > 20 && best < 8 || elapsed > 30,
    }
}

/// The first of the plays of `trace` with the fewest dead tiles.
pub open spec fn first_best(trace: Seq<(u32, Seq<Tile>)>) -> (u32, Seq<Tile>)
    decreases trace.len(),
{
    if trace.len() <= 1 {
        trace[0]
    } else {
        let b = first_best(trace.drop_last());
        if trace.last().0 < b.0 {
            trace.last()
        } else {
            b
        }
    }
}

/// `r` is what repeated random plays from `g` return: for some sequence of finished
/// plays made, the first of those with the fewest dead tiles; and no play was made
/// after the best so far left no dead tile.
pub open spec fn is_rollout_result(g: Grid, r: Seq<Tile>) -> bool {
    &&& valid_play(g, r)
    &&& is_terminal(after(g, r))
    &&& exists|trace: Seq<(u32, Seq<Tile>)>| {
        &&& trace.len() >= 1
        &&& forall|k: int| 0 <= k < trace.len() ==> is_finished_play(g, (#[trigger] trace[k]).0, trace[k].1)
        &&& r == first_best(trace).1
        &&& forall|k: int| 0 <= k < trace.len() - 1 ==> #[trigger] first_best(trace.take(k + 1)).0 != 0
    }
}

/// Keeps `candidate` when it leaves fewer dead tiles than `best` (or `best` is empty).
pub fn keep_better(best: Option<SolvedPath>, candidate: SolvedPath) -> (r: Option<SolvedPath>)
    ensures
        r == (match best {
            None => Some(candidate),
            Some(b) => if candidate.0 < b.0 {
                Some(candidate)
            } else {
                Some(b)
            },
        }),
{
    match best {
        None => Some(candidate),
        Some(b) => if candidate.0 < b.0 {
            Some(candidate)
        } else {
            Some(b)
        },
    }
}

/// Random plays, repeated until one leaves no dead tile or `budget` is spent; the first
/// of the plays with the fewest dead tiles is returned.
pub fn random_rollouts(map: &MonolithMap, budget: RolloutBudget) -> (r: Vec<Tile>)
    requires
        map.wf(),
    ensures
        is_rollout_result(map@, r@),
{
    let start = now();
    let first = random_rollout(map);
    let ghost mut trace: Seq<(u32, Seq<Tile>)> = seq![(first.0, first.1@)];
    let mut best: SolvedPath = first;
    let mut rounds: u64 = 0;
    while best.0 != 0 && rounds < u64::MAX
        invariant
            map.wf(),
            trace.len() >= 1,
            forall|k: int| 0 <= k < trace.len() ==> is_finished_play(map@, (#[trigger] trace[k]).0, trace[k].1),
            best.0 == first_best(trace).0,
            best.1@ == first_best(trace).1,
            forall|k: int| 0 <= k < trace.len() - 1 ==> #[trigger] first_best(trace.take(k + 1)).0 != 0,
        decreases u64::MAX - rounds,
    {
        if should_stop(budget, elapsed_secs(&start), best.0) {
            break;
        }
        let candidate = random_rollout(map);
        let ghost old_trace = trace;
        proof {
            trace = trace.push((candidate.0, candidate.1@));
            assert(trace.drop_last() =~= old_trace);
            assert forall|k: int| 0 <= k < trace.len() - 1 implies #[trigger] first_best(trace.take(k + 1)).0 != 0 by {
                assert(trace.take(k + 1) =~= old_trace.take(k + 1));
                if k == old_trace.len() - 1 {
                    assert(old_trace.take(k + 1) =~= old_trace);
                }
            }
            assert forall|k: int| 0 <= k < trace.len() implies is_finished_play(map@, (#[trigger] trace[k]).0, trace[k].1) by {
                if k < old_trace.len() {
                    assert(trace[k] == old_trace[k]);
                }
            }
        }
        best = keep_better(Some(best), candidate).unwrap();
        rounds += 1;
    }
    proof {
        lemma_first_best_member(trace);
        let k = choose|k: int| 0 <= k < trace.len() && trace[k] == first_best(trace);
        assert(is_finished_play(map@, trace[k].0, trace[k].1));
    }
    best.1
}

/// The first best of a trace is one of its plays.
proof fn lemma_first_best_member(trace: Seq<(u32, Seq<Tile>)>)
    requires
        trace.len() >= 1,
    ensures
        exists|k: int| 0 <= k < trace.len() && trace[k] == first_best(trace),
    decreases trace.len(),
{
    if trace.len() > 1 {
        lemma_first_best_member(trace.drop_last());
        let k = choose|k: int| 0 <= k < trace.drop_last().len() && trace.drop_last()[k] == first_best(trace.drop_last());
        assert(trace[k] == trace.drop_last()[k]);
        assert(trace[trace.len() - 1] == trace.last());
    } else {
        assert(trace[0] == first_best(trace));
    }
}

/// Random plays under the long budget (see `random_rollouts`).
pub fn solve_1(map: MonolithMap) -> (r: Vec<Tile>)
    requires
        map.wf(),
    ensures
        is_rollout_result(map@, r@),
{
    random_rollouts(&map, RolloutBudget::Long)
}

/// The first tiles of a listing of groups, as the exec value holds them.
pub proof fn lemma_listing_firsts(g: Grid, groups: Seq<Vec<Tile>>)
    requires
        is_group_listing(g, groups.map_values(|v: Vec<Tile>| v@)),
    ensures
        forall|k: int| 0 <= k < groups.len() ==> #[trigger] groups[k]@.len() >= 2 && in_bounds(groups[k]@[0])
            && has_link(g, true, groups[k]@[0]),
{
    let gv = groups.map_values(|v: Vec<Tile>| v@);
    lemma_listing_moves(g, gv);
    assert forall|k: int| 0 <= k < groups.len() implies #[trigger] groups[k]@.len() >= 2 && in_bounds(groups[k]@[0])
        && has_link(g, true, groups[k]@[0]) by {
        assert(gv[k] == groups[k]@);
    }
}

/// A copy of a play.
pub fn copy_path(v: &Vec<Tile>) -> (r: Vec<Tile>)
    ensures
        r@ == v@,
{
    let mut r: Vec<Tile> = Vec::new();
    let mut i: usize = 0;
    while i < v.len()
        invariant
            0 <= i <= v@.len(),
            r@ == v@.take(i as int),
        decreases v@.len() - i,
    {
        r.push(v[i]);
        i += 1;
        assert(r@ =~= v@.take(i as int));
    }
    assert(v@.take(v@.len() as int) =~= v@);
    r
}

/// `best` is absent, or a finished bounded play from `g`.
pub open spec fn sound_best(g: Grid, limit: u32, best: Option<SolvedPath>) -> bool {
    match best {
        None => true,
        Some(b) => is_finished_play(g, b.0, b.1@) && bounded_play(g, b.1@, limit),
    }
}

/// `new` is present where `old` was, with no more dead tiles.
pub open spec fn no_worse(old: Option<SolvedPath>, new: Option<SolvedPath>) -> bool {
    match old {
        None => true,
        Some(o) => new is Some && new->Some_0.0 <= o.0,
    }
}

/// `best` is present and leaves at most `count` dead tiles.
pub open spec fn at_most(best: Option<SolvedPath>, count: nat) -> bool {
    best is Some && best->Some_0.0 <= count
}

/// `best` is at least as good as every bounded play from `g` that starts with `steps` and
/// ends without groups.
pub open spec fn beats_extensions(g: Grid, steps: Seq<Tile>, limit: u32, best: Option<SolvedPath>) -> bool {
    forall|m: Seq<Tile>|
        #[trigger] bounded_play(g, m, limit) && is_prefix(steps, m) && is_terminal(after(g, m)) ==> at_most(
            best,
            dead_tiles(after(g, m)).len(),
        )
}

/// Every bounded play from `g` through `steps` whose next click is one of `fs[..i]` and
/// that ends without groups leaves at least as many dead tiles as `best`.
#[verifier::opaque]
pub open spec fn searched_through(
    g: Grid,
    steps: Seq<Tile>,
    limit: u32,
    best: Option<SolvedPath>,
    fs: Seq<Tile>,
    i: int,
) -> bool {
    forall|m: Seq<Tile>, k: int|
        0 <= k < i && #[trigger] bounded_play(g, m, limit) && is_prefix(steps, m) && is_terminal(after(g, m))
            && m.len() > steps.len() && m[steps.len() as int] == #[trigger] fs[k] ==> at_most(
            best,
            dead_tiles(after(g, m)).len(),
        )
}

/// As `searched_through`, for the plays whose next click is `t`.
#[verifier::opaque]
pub open spec fn searched_via(g: Grid, steps: Seq<Tile>, limit: u32, best: Option<SolvedPath>, t: Tile) -> bool {
    forall|m: Seq<Tile>|
        #[trigger] bounded_play(g, m, limit) && is_prefix(steps, m) && is_terminal(after(g, m)) && m.len()
            > steps.len() && m[steps.len() as int] == t ==> at_most(best, dead_tiles(after(g, m)).len())
}

proof fn lemma_searched_start(g: Grid, steps: Seq<Tile>, limit: u32, best: Option<SolvedPath>, fs: Seq<Tile>)
    ensures
        searched_through(g, steps, limit, best, fs, 0),
{
    reveal(searched_through);
}

proof fn lemma_searched_extend(
    g: Grid,
    steps: Seq<Tile>,
    limit: u32,
    old_best: Option<SolvedPath>,
    best: Option<SolvedPath>,
    fs: Seq<Tile>,
    i: int,
)
    requires
        0 <= i < fs.len(),
        searched_through(g, steps, limit, old_best, fs, i),
        no_worse(old_best, best),
        searched_via(g, steps, limit, best, fs[i]),
    ensures
        searched_through(g, steps, limit, best, fs, i + 1),
{
    reveal(searched_through);
    reveal(searched_via);
}

proof fn lemma_searched_via_child(g: Grid, steps: Seq<Tile>, limit: u32, best: Option<SolvedPath>, t: Tile)
    requires
        beats_extensions(g, steps.push(t), limit, best),
    ensures
        searched_via(g, steps, limit, best, t),
{
    reveal(searched_via);
    assert forall|m: Seq<Tile>|
        #[trigger] bounded_play(g, m, limit) && is_prefix(steps, m) && is_terminal(after(g, m)) && m.len()
            > steps.len() && m[steps.len() as int] == t implies at_most(best, dead_tiles(after(g, m)).len()) by {
        assert(m.take(steps.len() + 1int) =~= steps.push(t));
    }
}

proof fn lemma_searched_via_pruned(g: Grid, steps: Seq<Tile>, limit: u32, best: Option<SolvedPath>, t: Tile)
    requires
        dead_tiles(click_grid(after(g, steps), t)).len() > limit,
    ensures
        searched_via(g, steps, limit, best, t),
{
    reveal(searched_via);
    assert forall|m: Seq<Tile>|
        #[trigger] bounded_play(g, m, limit) && is_prefix(steps, m) && is_terminal(after(g, m)) && m.len()
            > steps.len() && m[steps.len() as int] == t implies false by {
        lemma_bounded_step(g, m, limit, steps.len() as int);
    }
}

proof fn lemma_searched_all(g: Grid, steps: Seq<Tile>, limit: u32, best: Option<SolvedPath>, gv: Seq<Seq<Tile>>)
    requires
        is_group_listing(after(g, steps), gv),
        gv.len() > 0,
        searched_through(g, steps, limit, best, firsts(gv), gv.len() as int),
    ensures
        beats_extensions(g, steps, limit, best),
{
    reveal(searched_through);
    let n = steps.len();
    let fs = firsts(gv);
    lemma_listing_moves(after(g, steps), gv);
    assert forall|m: Seq<Tile>|
        #[trigger] bounded_play(g, m, limit) && is_prefix(steps, m) && is_terminal(after(g, m)) implies at_most(
            best,
            dead_tiles(after(g, m)).len(),
        ) by {
        if m.len() == n {
            assert(m =~= steps);
        }
        lemma_bounded_step(g, m, limit, n as int);
        assert(m.take(n as int) == steps);
        lemma_representative_listed(after(g, steps), gv, m[n as int]);
        let k = choose|k: int| 0 <= k < gv.len() && #[trigger] gv[k][0] == m[n as int];
        assert(fs[k] == gv[k][0]);
    }
}

proof fn lemma_searched_leaf(g: Grid, steps: Seq<Tile>, limit: u32, best: Option<SolvedPath>)
    requires
        is_terminal(after(g, steps)),
        at_most(best, dead_tiles(after(g, steps)).len()),
    ensures
        beats_extensions(g, steps, limit, best),
{
    let n = steps.len();
    assert forall|m: Seq<Tile>|
        #[trigger] bounded_play(g, m, limit) && is_prefix(steps, m) && is_terminal(after(g, m)) implies at_most(
            best,
            dead_tiles(after(g, m)).len(),
        ) by {
        if m.len() > n {
            lemma_bounded_step(g, m, limit, n as int);
            assert(m.take(n as int) == steps);
        }
        assert(m =~= steps);
    }
}

/// Depth-first search over every group of every position reached from `board`,
/// skipping clicks after which more than `limit` tiles are dead; a finished play is
/// kept when it leaves fewer dead tiles than the best so far. Afterwards the best is at
/// least as good as every bounded play through `steps` that ends without groups.
#[verifier::rlimit(100)]
fn bounded_search(
    board: &MonolithMap,
    steps: &mut Vec<Tile>,
    limit: u32,
    best: &mut Option<SolvedPath>,
    Ghost(root): Ghost<Grid>,
)
    requires
        board.wf(),
        board@ == after(root, old(steps)@),
        bounded_play(root, old(steps)@, limit),
        sound_best(root, limit, *old(best)),
    ensures
        final(steps)@ == old(steps)@,
        sound_best(root, limit, *final(best)),
        no_worse(*old(best), *final(best)),
        beats_extensions(root, old(steps)@, limit, *final(best)),
    decreases occupied_tiles(board@).len(),
{
    let groups = board.all_groups();
    let ghost gv = groups@.map_values(|v: Vec<Tile>| v@);
    let ghost fs = firsts(gv);
    proof {
        lemma_listing_moves(board@, gv);
        lemma_listing_firsts(board@, groups@);
        lemma_bounded_is_valid(root, steps@, limit);
    }
    if groups.len() == 0 {
        let count = board.get_dead_tiles_count();
        let better = match best {
            None => true,
            Some(b) => count < b.0,
        };
        if better {
            let path = copy_path(steps);
            *best = Some((count, path));
        }
        proof {
            lemma_searched_leaf(root, steps@, limit, *best);
        }
        return;
    }
    proof {
        lemma_searched_start(root, steps@, limit, *best, fs);
    }
    let mut i: usize = 0;
    while i < groups.len()
        invariant
            board.wf(),
            board@ == after(root, steps@),
            bounded_play(root, steps@, limit),
            valid_play(root, steps@),
            steps@ == old(steps)@,
            0 <= i <= groups@.len(),
            gv == groups@.map_values(|v: Vec<Tile>| v@),
            fs == firsts(gv),
            is_group_listing(board@, gv),
            sound_best(root, limit, *best),
            no_worse(*old(best), *best),
            forall|k: int| 0 <= k < groups@.len() ==> #[trigger] groups@[k]@.len() >= 2 && in_bounds(
                groups@[k]@[0],
            ) && has_link(board@, true, groups@[k]@[0]),
            searched_through(root, steps@, limit, *best, fs, i as int),
        decreases groups@.len() - i,
    {
        proof {
            assert(groups@[i as int]@.len() >= 2);
            assert(gv[i as int] == groups@[i as int]@);
            assert(fs[i as int] == gv[i as int][0]);
        }
        let t = groups[i][0];
        let mut next = *board;
        next.click(t.0, t.1);
        proof {
            law_click_removes_group(board@, t);
            lemma_play_push(root, steps@, t);
            lemma_listed_representative(board@, gv, i as int);
        }
        let ghost best_before = *best;
        if next.get_dead_tiles_count() <= limit {
            steps.push(t);
            proof {
                assert(steps@.drop_last() =~= old(steps)@);
            }
            bounded_search(&next, steps, limit, best, Ghost(root));
            proof {
                lemma_searched_via_child(root, old(steps)@, limit, *best, t);
            }
            steps.pop();
            assert(steps@ =~= old(steps)@);
        } else {
            proof {
                lemma_searched_via_pruned(root, steps@, limit, *best, t);
            }
        }
        proof {
            lemma_searched_extend(root, steps@, limit, best_before, *best, fs, i as int);
        }
        i += 1;
    }
    proof {
        lemma_searched_all(root, steps@, limit, *best, gv);
    }
}

/// What the escalating exhaustive search returns for `g`: when some play of
/// representatives within the ceilings ends without groups, such a play under the first
/// ceiling that has one, leaving no more dead tiles than any other of that ceiling; and
/// only a finished play, or nothing, in any case.
pub open spec fn is_escalated_best(g: Grid, r: Seq<Tile>) -> bool {
    &&& !has_bounded_finish(g, 20) ==> r.len() == 0
    &&& r.len() > 0 ==> valid_play(g, r) && is_terminal(after(g, r))
    &&& has_bounded_finish(g, 20) ==> bounded_play(g, r, first_ceiling(g)) && valid_play(g, r) && is_terminal(
        after(g, r),
    )
    &&& forall|m: Seq<Tile>|
        #[trigger] bounded_play(g, m, first_ceiling(g)) && is_terminal(after(g, m)) ==> dead_tiles(
            after(g, r),
        ).len() <= dead_tiles(after(g, m)).len()
}

impl MonolithMap {
    /// Exhaustive search under a rising ceiling of dead tiles (0, 5, 10, 15, 20): the
    /// first ceiling under which any play of representatives ends without groups gives
    /// the result, the first found of its plays with the fewest dead tiles. Empty when no
    /// ceiling gives one.
    pub fn solve_recursive_bruteforce(self) -> (r: Vec<Tile>)
        requires
            self.wf(),
        ensures
            is_escalated_best(self@, r@),
    {
        let limits: [u32; 5] = [0, 5, 10, 15, 20];
        let ghost lims = seq![0u32, 5u32, 10u32, 15u32, 20u32];
        assert(limits@ =~= lims);
        let mut best: Option<SolvedPath> = None;
        let mut k: usize = 0;
        while k < 5 && best.is_none()
            invariant
                self.wf(),
                0 <= k <= 5,
                limits@ == lims,
                lims == seq![0u32, 5u32, 10u32, 15u32, 20u32],
                best is None ==> forall|j: int| 0 <= j < k ==> !has_bounded_finish(self@, #[trigger] lims[j]),
                best is Some ==> k >= 1 && (forall|j: int| 0 <= j < k - 1 ==> !has_bounded_finish(self@, #[trigger] lims[j]))
                    && sound_best(self@, lims[k - 1], best) && beats_extensions(
                    self@,
                    Seq::<Tile>::empty(),
                    lims[k - 1],
                    best,
                ),
            decreases 5 - k,
        {
            let mut steps: Vec<Tile> = Vec::new();
            proof {
                lemma_play_empty(self@);
                assert(steps@ =~= Seq::<Tile>::empty());
            }
            let limit = limits[k];
            bounded_search(&self, &mut steps, limit, &mut best, Ghost(self@));
            proof {
                if best is None {
                    if has_bounded_finish(self@, limit) {
                        let m = choose|m: Seq<Tile>| #[trigger] bounded_play(self@, m, limit) && is_terminal(after(self@, m));
                        assert(m.take(0) =~= Seq::<Tile>::empty());
                        assert(is_prefix(Seq::<Tile>::empty(), m));
                    }
                }
            }
            k += 1;
        }
        proof {
            if best is Some {
                let b = best->Some_0;
                let limit = lims[k - 1];
                assert(bounded_play(self@, b.1@, limit) && is_terminal(after(self@, b.1@)));
                lemma_bounded_weaken(self@, b.1@, limit, 20);
                assert(has_bounded_finish(self@, 20));
                assert(has_bounded_finish(self@, limit));
                assert(first_ceiling(self@) == limit);
                assert forall|m: Seq<Tile>|
                    #[trigger] bounded_play(self@, m, first_ceiling(self@)) && is_terminal(after(self@, m))
                        implies dead_tiles(after(self@, b.1@)).len() <= dead_tiles(after(self@, m)).len() by {
                    assert(m.take(0) =~= Seq::<Tile>::empty());
                    assert(is_prefix(Seq::<Tile>::empty(), m));
                }
            } else {
                assert(!has_bounded_finish(self@, lims[4]));
                assert(first_ceiling(self@) == 20);
            }
        }
        match best {
            Some(b) => b.1,
            None => Vec::new(),
        }
    }
}

/// Extends `steps` by `t`.
fn extended(steps: &Vec<Tile>, t: Tile) -> (r: Vec<Tile>)
    ensures
        r@ == steps@.push(t),
{
    let mut r = copy_path(steps);
    r.push(t);
    r
}

/// One candidate of a lookahead of `depth` from `g`: a click on `t`, scored by the dead
/// tiles of `g` itself when no depth is left, else by the lookahead below it.
pub open spec fn lookahead_candidate(g: Grid, depth: nat, t: Tile) -> (nat, Seq<Tile>)
    decreases depth, 0nat, 0nat,
{
    if depth == 0 {
        (dead_tiles(g).len(), seq![t])
    } else {
        let sub = lookahead_result(click_grid(g, t), (depth - 1) as nat);
        (sub.0, seq![t] + sub.1)
    }
}

/// The first candidate with the fewest dead tiles among clicks on `ts`, which is not empty.
pub open spec fn lookahead_best(g: Grid, depth: nat, ts: Seq<Tile>) -> (nat, Seq<Tile>)
    decreases depth, 1nat, ts.len(),
{
    if ts.len() <= 1 {
        lookahead_candidate(g, depth, ts[0])
    } else {
        let b = lookahead_best(g, depth, ts.drop_last());
        let c = lookahead_candidate(g, depth, ts.last());
        if c.0 < b.0 {
            c
        } else {
            b
        }
    }
}

/// The lookahead of `depth` from `g`: the dead tiles and the play it settles on.
pub open spec fn lookahead_result(g: Grid, depth: nat) -> (nat, Seq<Tile>)
    decreases depth, 2nat, 0nat,
{
    if is_terminal(g) || representatives(g).len() == 0 {
        (dead_tiles(g).len(), Seq::empty())
    } else {
        lookahead_best(g, depth, representatives(g))
    }
}

/// The first of the lookaheads of depth 0 to `depth` with the fewest dead tiles.
pub open spec fn lookahead_upto(g: Grid, depth: nat) -> (nat, Seq<Tile>)
    decreases depth,
{
    if depth == 0 {
        lookahead_result(g, 0)
    } else {
        let b = lookahead_upto(g, (depth - 1) as nat);
        let c = lookahead_result(g, depth);
        if c.0 < b.0 {
            c
        } else {
            b
        }
    }
}

/// Lookahead from `board`: every group is tried; with `depth` left the search goes on
/// below each click, with none the click is scored by the dead tiles of `board` itself.
/// The first of the results with the fewest dead tiles is returned, after `steps`.
#[verifier::spinoff_prover]
#[verifier::rlimit(100)]
fn lookahead_walk(board: &MonolithMap, steps: &Vec<Tile>, depth: u32, Ghost(root): Ghost<Grid>) -> (r: SolvedPath)
    requires
        board.wf(),
        board@ == after(root, steps@),
        valid_play(root, steps@),
    ensures
        valid_play(root, r.1@),
        r.0 == lookahead_result(board@, depth as nat).0,
        r.1@ == steps@ + lookahead_result(board@, depth as nat).1,
        r.1@.len() > steps@.len() <==> !is_terminal(board@),
    decreases occupied_tiles(board@).len(),
{
    let groups = board.all_groups();
    let ghost gv = groups@.map_values(|v: Vec<Tile>| v@);
    let ghost reps = representatives(board@);
    proof {
        lemma_listing_moves(board@, gv);
        lemma_listing_firsts(board@, groups@);
        lemma_firsts_are_representatives(board@, gv);
        assert(reps.len() == gv.len());
    }
    if groups.len() == 0 {
        let r = (board.get_dead_tiles_count(), copy_path(steps));
        proof {
            assert(r.1@ =~= steps@ + lookahead_result(board@, depth as nat).1);
        }
        return r;
    }
    let mut best: Option<SolvedPath> = None;
    let mut i: usize = 0;
    while i < groups.len()
        invariant
            board.wf(),
            board@ == after(root, steps@),
            valid_play(root, steps@),
            0 <= i <= groups@.len(),
            gv == groups@.map_values(|v: Vec<Tile>| v@),
            reps == representatives(board@),
            firsts(gv) == reps,
            reps.len() == groups@.len(),
            forall|k: int| 0 <= k < groups@.len() ==> #[trigger] groups@[k]@.len() >= 2 && in_bounds(
                groups@[k]@[0],
            ) && has_link(board@, true, groups@[k]@[0]),
            i > 0 <==> best is Some,
            match best {
                None => true,
                Some(b) => {
                    &&& valid_play(root, b.1@)
                    &&& b.1@.len() > steps@.len()
                    &&& b.0 == lookahead_best(board@, depth as nat, reps.take(i as int)).0
                    &&& b.1@ == steps@ + lookahead_best(board@, depth as nat, reps.take(i as int)).1
                },
            },
        decreases groups@.len() - i,
    {
        proof {
            assert(groups@[i as int]@.len() >= 2);
            assert(gv[i as int] == groups@[i as int]@);
            assert(firsts(gv)[i as int] == gv[i as int][0]);
        }
        let t = groups[i][0];
        let ghost cand = lookahead_candidate(board@, depth as nat, t);
        let mut next = *board;
        next.click(t.0, t.1);
        proof {
            law_click_removes_group(board@, t);
            lemma_play_push(root, steps@, t);
        }
        let new_steps = extended(steps, t);
        let candidate = if depth == 0 {
            (board.get_dead_tiles_count(), new_steps)
        } else {
            lookahead_walk(&next, &new_steps, depth - 1, Ghost(root))
        };
        proof {
            assert(candidate.0 == cand.0);
            assert(candidate.1@ =~= steps@ + cand.1);
            let p = reps.take(i + 1);
            assert(p.last() == t);
            assert(p.drop_last() =~= reps.take(i as int));
            assert(lookahead_best(board@, depth as nat, p) == if i == 0 {
                cand
            } else {
                let b = lookahead_best(board@, depth as nat, reps.take(i as int));
                if cand.0 < b.0 {
                    cand
                } else {
                    b
                }
            });
        }
        best = match best {
            None => Some(candidate),
            Some(b) => if candidate.0 < b.0 {
                Some(candidate)
            } else {
                Some(b)
            },
        };
        i += 1;
    }
    proof {
        assert(reps.take(groups@.len() as int) =~= reps);
        assert(lookahead_result(board@, depth as nat) == lookahead_best(board@, depth as nat, reps));
    }
    match best {
        Some(b) => b,
        None => (0, copy_path(steps)),
    }
}

/// Lookahead searches of depth 0 to 4 from `map`; the first of their results with the
/// fewest dead tiles is returned. Empty only when `map` has no group.
pub fn solve_3(map: MonolithMap) -> (r: Vec<Tile>)
    requires
        map.wf(),
    ensures
        valid_play(map@, r@),
        r@.len() > 0 <==> !is_terminal(map@),
        r@ == lookahead_upto(map@, 4).1,
{
    let empty: Vec<Tile> = Vec::new();
    proof {
        lemma_play_empty(map@);
        assert(empty@ =~= Seq::<Tile>::empty());
    }
    let mut best = lookahead_walk(&map, &empty, 0, Ghost(map@));
    proof {
        assert(best.1@ =~= lookahead_upto(map@, 0).1);
    }
    let mut depth: u32 = 1;
    while depth <= 4
        invariant
            map.wf(),
            1 <= depth <= 5,
            empty@ == Seq::<Tile>::empty(),
            valid_play(map@, best.1@),
            best.1@.len() > 0 <==> !is_terminal(map@),
            best.0 == lookahead_upto(map@, (depth - 1) as nat).0,
            best.1@ == lookahead_upto(map@, (depth - 1) as nat).1,
        decreases 5 - depth,
    {
        let candidate = lookahead_walk(&map, &empty, depth, Ghost(map@));
        proof {
            assert(candidate.1@ =~= lookahead_result(map@, depth as nat).1);
        }
        if candidate.0 < best.0 {
            best = candidate;
        }
        depth += 1;
    }
    best.1
}

/// Exhaustive search under a rising ceiling of dead tiles; see
/// `MonolithMap::solve_recursive_bruteforce`.
pub fn solve_2(map: MonolithMap) -> (r: Vec<Tile>)
    requires
        map.wf(),
    ensures
        is_escalated_best(map@, r@),
{
    map.solve_recursive_bruteforce()
}

impl MonolithMap {
    /// Solves the board by exhaustive search under a rising dead-tile ceiling (see
    /// `solve_recursive_bruteforce`).
    pub fn solve(self) -> (r: Vec<Tile>)
        requires
            self.wf(),
        ensures
            is_escalated_best(self@, r@),
    {
        self.solve_recursive_bruteforce()
    }
}

/// A board that the strategy traits below work on: its grid, and whether its phases are
/// in range.
pub trait SolverBoard {
    spec fn solver_grid(&self) -> Grid;

    spec fn solver_ready(&self) -> bool;
}

impl SolverBoard for MonolithMap {
    open spec fn solver_grid(&self) -> Grid {
        self@
    }

    open spec fn solver_ready(&self) -> bool {
        self.wf()
    }
}

/// Exhaustive search under a rising dead-tile ceiling.
pub trait RecursiveBruteforce: SolverBoard + Sized {
    fn solve_recursive_bruteforce(self) -> (r: Vec<Tile>)
        ensures
            self.solver_ready() ==> is_escalated_best(self.solver_grid(), r@),
            !self.solver_ready() ==> r@.len() == 0,
    ;
}

/// Lookahead search of depths 0 to 4.
pub trait RecursiveLesserThanNDead: SolverBoard + Sized {
    fn solve_recursive_lesser_n_dead(self) -> (r: Vec<Tile>)
        ensures
            self.solver_ready() ==> r@ == lookahead_upto(self.solver_grid(), 4).1,
            !self.solver_ready() ==> r@.len() == 0,
    ;
}

/// Repeated random plays under the short time budget.
pub trait RecursiveRandomBruteforce: SolverBoard + Sized {
    fn solve_recursive_random_bruteforce(self) -> (r: Vec<Tile>)
        ensures
            self.solver_ready() ==> is_rollout_result(self.solver_grid(), r@),
            !self.solver_ready() ==> r@.len() == 0,
    ;
}

impl RecursiveBruteforce for MonolithMap {
    /// As `MonolithMap::solve_recursive_bruteforce`; empty for a board with a phase out
    /// of range.
    fn solve_recursive_bruteforce(self) -> (r: Vec<Tile>) {
        if self.is_wf() {
            MonolithMap::solve_recursive_bruteforce(self)
        } else {
            Vec::new()
        }
    }
}

impl RecursiveLesserThanNDead for MonolithMap {
    /// As `solve_3`; empty for a board with a phase out of range.
    fn solve_recursive_lesser_n_dead(self) -> (r: Vec<Tile>) {
        if self.is_wf() {
            solve_3(self)
        } else {
            Vec::new()
        }
    }
}

impl RecursiveRandomBruteforce for MonolithMap {
    /// Random plays under the short budget (see `random_rollouts`); empty for a board
    /// with a phase out of range.
    fn solve_recursive_random_bruteforce(self) -> (r: Vec<Tile>) {
        if self.is_wf() {
            random_rollouts(&self, RolloutBudget::Short)
        } else {
            Vec::new()
        }
    }
}

} // verus!
