//! Greedy play: at each step the click whose result keeps the largest groups on average.
use vstd::prelude::*;

use crate::board::{click_grid, in_bounds, is_group_listing, occupied_tiles, scan_order, Grid,
    MonolithMap, Tile};
use crate::connectivity::{group_of, lemma_connected_end};
use crate::laws::{after, is_terminal, law_click_removes_group, lemma_play_empty, lemma_play_push,
    valid_play};
use crate::optimality::{firsts, lemma_firsts_are_representatives, representatives};
use crate::search::{lemma_listing_firsts, lemma_listing_moves};

verus! {

/// The tiles in the groups of `reps`, summed group by group.
pub open spec fn group_total(g: Grid, reps: Seq<Tile>) -> nat
    decreases reps.len(),
{
    if reps.len() == 0 {
        0
    } else {
        group_total(g, reps.drop_last()) + group_of(g, reps.last()).len()
    }
}

/// The greedy score of a click on `t` as a fraction: the tiles in groups after the click
/// over the number of those groups, `0 / 1` when none is left.
pub open spec fn click_score(g: Grid, t: Tile) -> (nat, nat) {
    let h = click_grid(g, t);
    let reps = representatives(h);
    if reps.len() == 0 {
        (0, 1)
    } else {
        (group_total(h, reps), reps.len())
    }
}

/// The fraction `a` is at least the fraction `b`.
pub open spec fn score_at_least_spec(a: (nat, nat), b: (nat, nat)) -> bool {
    a.0 * b.1 >= b.0 * a.1
}

/// The greedy choice among clicks on `ts` (not empty): the last of the highest scores.
pub open spec fn greedy_choice(g: Grid, ts: Seq<Tile>) -> Tile
    decreases ts.len(),
{
    if ts.len() <= 1 {
        ts[0]
    } else {
        let b = greedy_choice(g, ts.drop_last());
        if score_at_least_spec(click_score(g, ts.last()), click_score(g, b)) {
            ts.last()
        } else {
            b
        }
    }
}

/// Every click of `moves` from `g` is the greedy choice among the representatives of the
/// grid it is made on.
pub open spec fn is_greedy_play(g: Grid, moves: Seq<Tile>) -> bool {
    forall|k: int|
        0 <= k < moves.len() ==> #[trigger] moves[k] == greedy_choice(
            after(g, moves.take(k)),
            representatives(after(g, moves.take(k))),
        )
}

/// The size of a group, by its listed tiles.
proof fn lemma_group_len(g: Grid, gv: Seq<Seq<Tile>>, i: int)
    requires
        is_group_listing(g, gv),
        0 <= i < gv.len(),
    ensures
        gv[i].len() == group_of(g, gv[i][0]).len(),
        gv[i].len() <= 242,
{
    gv[i].unique_seq_to_set();
    crate::laws::lemma_scan_order();
    scan_order().unique_seq_to_set();
    assert forall|q: Tile| gv[i].to_set().contains(q) implies scan_order().to_set().contains(q) by {
        assert(gv[i].contains(q));
        assert(gv[i].to_set().contains(gv[i][0]));
        assert(gv[i].contains(gv[i][0]));
        lemma_connected_end(g, true, gv[i][0], q);
    }
    vstd::set_lib::lemma_len_subset(gv[i].to_set(), scan_order().to_set());
}

/// The score of a click for the greedy strategy, as a fraction `(total, count)`: the
/// tiles in groups after the click over the number of those groups (`(0, 1)` when none
/// is left).
fn group_score(board: &MonolithMap, t: Tile) -> (r: (u64, u64))
    requires
        board.wf(),
        in_bounds(t),
    ensures
        r.0 as nat == click_score(board@, t).0,
        r.1 as nat == click_score(board@, t).1,
{
    let mut next = *board;
    next.click(t.0, t.1);
    let groups = next.all_groups();
    let ghost gv = groups@.map_values(|v: Vec<Tile>| v@);
    let ghost reps = representatives(next@);
    proof {
        lemma_firsts_are_representatives(next@, gv);
        assert(reps.len() == gv.len());
        scan_order().lemma_filter_len(|q: Tile| crate::optimality::is_representative(next@, q));
    }
    let mut total: u64 = 0;
    let mut i: usize = 0;
    while i < groups.len()
        invariant
            0 <= i <= groups@.len(),
            gv == groups@.map_values(|v: Vec<Tile>| v@),
            is_group_listing(next@, gv),
            reps == representatives(next@),
            firsts(gv) == reps,
            reps.len() == groups@.len(),
            groups@.len() <= 242,
            total as nat == group_total(next@, reps.take(i as int)),
            total <= i * 242,
        decreases groups@.len() - i,
    {
        proof {
            lemma_group_len(next@, gv, i as int);
            assert(gv[i as int] == groups@[i as int]@);
            assert(firsts(gv)[i as int] == gv[i as int][0]);
            let p = reps.take(i + 1);
            assert(p.drop_last() =~= reps.take(i as int));
            assert(p.last() == reps[i as int]);
            assert(total + groups@[i as int]@.len() <= (i + 1) * 242) by (nonlinear_arith)
                requires
                    total <= i * 242,
                    groups@[i as int]@.len() <= 242,
            ;
        }
        total = total + groups[i].len() as u64;
        i += 1;
    }
    proof {
        assert(reps.take(groups@.len() as int) =~= reps);
    }
    if groups.len() == 0 {
        (0, 1)
    } else {
        (total, groups.len() as u64)
    }
}

/// `a` scores at least as high as `b`, as fractions.
fn score_at_least(a: (u64, u64), b: (u64, u64)) -> (r: bool)
    ensures
        r == (a.0 as int * b.1 as int >= b.0 as int * a.1 as int),
{
    let x = a.0 as u128;
    let y = b.1 as u128;
    let z = b.0 as u128;
    let w = a.1 as u128;
    proof {
        assert(x * y <= u64::MAX as u128 * u64::MAX as u128) by (nonlinear_arith)
            requires
                x <= u64::MAX,
                y <= u64::MAX,
        ;
        assert(z * w <= u64::MAX as u128 * u64::MAX as u128) by (nonlinear_arith)
            requires
                z <= u64::MAX,
                w <= u64::MAX,
        ;
    }
    x * y >= z * w
}

/// The index of the group whose first tile is the greedy choice on `board`.
#[verifier::spinoff_prover]
#[verifier::rlimit(60)]
fn choose_greedy(board: &MonolithMap, groups: &Vec<Vec<Tile>>) -> (r: usize)
    requires
        board.wf(),
        groups@.len() > 0,
        is_group_listing(board@, groups@.map_values(|v: Vec<Tile>| v@)),
    ensures
        r < groups@.len(),
        groups@[r as int]@[0] == greedy_choice(board@, representatives(board@)),
{
    let ghost gv = groups@.map_values(|v: Vec<Tile>| v@);
    let ghost reps = representatives(board@);
    proof {
        lemma_listing_firsts(board@, groups@);
        lemma_firsts_are_representatives(board@, gv);
        assert(groups@[0]@.len() >= 2);
        assert(gv[0] == groups@[0]@);
        assert(firsts(gv)[0] == gv[0][0]);
        assert(reps.take(1).len() == 1);
    }
    let mut chosen: usize = 0;
    let mut best = group_score(board, groups[0][0]);
    let mut i: usize = 1;
    while i < groups.len()
        invariant
            board.wf(),
            gv == groups@.map_values(|v: Vec<Tile>| v@),
            reps == representatives(board@),
            firsts(gv) == reps,
            reps.len() == groups@.len(),
            0 <= chosen < groups@.len(),
            1 <= i <= groups@.len(),
            forall|k: int| 0 <= k < groups@.len() ==> #[trigger] groups@[k]@.len() >= 2 && in_bounds(
                groups@[k]@[0],
            ),
            groups@[chosen as int]@[0] == greedy_choice(board@, reps.take(i as int)),
            best.0 as nat == click_score(board@, groups@[chosen as int]@[0]).0,
            best.1 as nat == click_score(board@, groups@[chosen as int]@[0]).1,
        decreases groups@.len() - i,
    {
        proof {
            assert(groups@[i as int]@.len() >= 2);
            assert(gv[i as int] == groups@[i as int]@);
            assert(firsts(gv)[i as int] == gv[i as int][0]);
            let p = reps.take(i + 1);
            assert(p.drop_last() =~= reps.take(i as int));
            assert(p.last() == reps[i as int]);
        }
        let score = group_score(board, groups[i][0]);
        if score_at_least(score, best) {
            best = score;
            chosen = i;
        }
        i += 1;
    }
    proof {
        assert(reps.take(groups@.len() as int) =~= reps);
    }
    chosen
}

/// Greedy play: at each step every group is scored by the average size of the groups
/// left after clicking it, and the last of the highest-scoring groups is clicked, until
/// no group is left.
#[verifier::spinoff_prover]
#[verifier::rlimit(60)]
pub fn solve_10(map: MonolithMap) -> (r: Vec<Tile>)
    requires
        map.wf(),
    ensures
        valid_play(map@, r@),
        is_terminal(after(map@, r@)),
        is_greedy_play(map@, r@),
{
    let mut board = map;
    let mut steps: Vec<Tile> = Vec::new();
    let mut groups = board.all_groups();
    proof {
        lemma_play_empty(map@);
        assert(steps@ =~= Seq::<Tile>::empty());
    }
    while groups.len() > 0
        invariant
            board.wf(),
            board@ == after(map@, steps@),
            valid_play(map@, steps@),
            is_greedy_play(map@, steps@),
            is_group_listing(board@, groups@.map_values(|v: Vec<Tile>| v@)),
        decreases occupied_tiles(board@).len(),
    {
        let ghost gv = groups@.map_values(|v: Vec<Tile>| v@);
        proof {
            lemma_listing_firsts(board@, groups@);
        }
        let chosen = choose_greedy(&board, &groups);
        let t = groups[chosen][0];
        proof {
            assert(groups@[chosen as int]@.len() >= 2);
            law_click_removes_group(board@, t);
            lemma_play_push(map@, steps@, t);
        }
        let ghost old_steps = steps@;
        board.click(t.0, t.1);
        steps.push(t);
        proof {
            assert forall|k: int| 0 <= k < steps@.len() implies #[trigger] steps@[k] == greedy_choice(
                after(map@, steps@.take(k)),
                representatives(after(map@, steps@.take(k))),
            ) by {
                assert(steps@.take(k) =~= old_steps.take(k));
                if k == old_steps.len() {
                    assert(old_steps.take(k) =~= old_steps);
                } else {
                    assert(steps@[k] == old_steps[k]);
                }
            }
        }
        groups = board.all_groups();
    }
    proof {
        lemma_listing_moves(board@, groups@.map_values(|v: Vec<Tile>| v@));
    }
    steps
}

} // verus!
