use std::sync::atomic::{AtomicBool, AtomicU32};

use monolith::board::{MonolithMap, Tile};
use monolith::greedy::solve_10;
use monolith::methods::SolvingMethods;
use monolith::parallel::{
    accept_finished, cluster_boards, expand_job, get_map_diff_score, keep_higher, keep_if_better,
    keep_if_higher, normalize_targets, search_shared_best, solve_cluster, target_worker,
    timer_should_stop, worth_descending, JobOutcome,
};
use monolith::search::{
    random_rollout, random_rollouts, should_stop, solve_1, solve_2, solve_3, RecursiveBruteforce, RolloutBudget,
    RecursiveLesserThanNDead, RecursiveRandomBruteforce,
};

fn board_of(cells: &[(usize, usize, u8)]) -> MonolithMap {
    let mut map = MonolithMap::default();
    for &(x, y, v) in cells {
        map.set(x, y, v);
    }
    map
}

/// Replays `moves`, checking that each one hits a group, and returns the final board.
fn replay(map: &MonolithMap, moves: &[Tile]) -> MonolithMap {
    let mut board = *map;
    for &(x, y) in moves {
        assert!(!board.get_group(x, y).is_empty(), "move ({}, {}) hits no group", x, y);
        board.click(x, y);
    }
    board
}

fn chain_board() -> MonolithMap {
    board_of(&[(7, 7, 3), (8, 7, 2), (8, 8, 1), (9, 8, 1)])
}

#[test]
fn advance_walks_the_phase_cycle() {
    let mut map = board_of(&[(3, 4, 1)]);
    let mut seen = vec![];
    for _ in 0..4 {
        map.advance(3, 4);
        seen.push(map.get(3, 4));
    }
    assert_eq!(seen, vec![2, 3, 4, 1]);
    let mut empty = MonolithMap::default();
    empty.advance(0, 0);
    assert_eq!(empty, MonolithMap::default());
}

#[test]
fn group_is_never_a_single_tile() {
    let map = board_of(&[(0, 0, 1), (1, 0, 2), (5, 5, 3), (5, 6, 3), (5, 7, 3)]);
    assert!(map.get_group(0, 0).is_empty());
    assert!(map.get_group(1, 0).is_empty());
    assert!(map.get_group(10, 10).is_empty());
    let mut g = map.get_group(5, 7);
    assert_eq!(g[0], (5, 7));
    g.sort();
    assert_eq!(g, vec![(5, 5), (5, 6), (5, 7)]);
}

#[test]
fn all_groups_are_disjoint_and_cover_the_grouped_tiles() {
    let map = board_of(&[
        (0, 0, 1), (1, 0, 1), (2, 0, 1), (0, 1, 2), (1, 1, 2), (2, 1, 3), (5, 5, 4), (21, 10, 2),
        (20, 10, 2),
    ]);
    let groups = map.all_groups();
    assert_eq!(groups.len(), 3);
    assert_eq!(groups[0][0], (0, 0));
    assert_eq!(groups[1][0], (0, 1));
    assert_eq!(groups[2][0], (20, 10));
    let mut all: Vec<Tile> = groups.iter().flatten().cloned().collect();
    all.sort();
    let before = all.len();
    all.dedup();
    assert_eq!(before, all.len());
    assert_eq!(all, vec![(0, 0), (0, 1), (1, 0), (1, 1), (2, 0), (20, 10), (21, 10)]);
}

#[test]
fn click_on_a_single_tile_changes_nothing() {
    let map = board_of(&[(4, 4, 1), (4, 5, 2), (5, 4, 3)]);
    let mut clicked = map;
    clicked.click(4, 4);
    assert_eq!(clicked, map);
    clicked.click(0, 0);
    assert_eq!(clicked, map);
}

#[test]
fn click_removes_exactly_the_group() {
    let map = board_of(&[(4, 4, 1), (4, 5, 1), (4, 6, 1), (5, 5, 4), (3, 4, 2)]);
    let before = map.get_all_tiles_count();
    let group = map.get_group(4, 5);
    let mut clicked = map;
    clicked.click(4, 5);
    assert_eq!(clicked.get_all_tiles_count() + group.len() as u32, before);
    assert_eq!(clicked.get(5, 5), 1);
    assert_eq!(clicked.get(3, 4), 3);
}

#[test]
fn plays_are_at_most_half_the_tiles_long() {
    let map = chain_board();
    let tiles = map.get_all_tiles_count() as usize;
    for _ in 0..20 {
        let (_, moves) = random_rollout(&map);
        assert!(2 * moves.len() <= tiles);
        replay(&map, &moves);
    }
}

#[test]
fn vertical_line_is_solved_in_one_move() {
    let map = board_of(&[(8, 6, 1), (8, 7, 1), (8, 8, 1)]);
    for steps in [map.solve(), solve_1(map), solve_2(map), solve_3(map), solve_10(map)] {
        assert_eq!(steps.len(), 1);
        assert!(vec![(8, 6), (8, 7), (8, 8)].contains(&steps[0]));
    }
}

#[test]
fn chained_groups_are_solved_in_two_moves() {
    let map = chain_board();
    for steps in [map.solve(), solve_1(map), solve_2(map), solve_10(map)] {
        assert_eq!(steps.len(), 2);
        assert!(vec![(8, 8), (9, 8)].contains(&steps[0]));
        assert!(vec![(7, 7), (8, 7)].contains(&steps[1]));
        assert_eq!(replay(&map, &steps).get_all_tiles_count(), 0);
    }
}

#[test]
fn empty_board_is_solved_by_no_moves() {
    let map = MonolithMap::default();
    assert!(map.solve().is_empty());
    assert!(solve_1(map).is_empty());
    assert!(solve_3(map).is_empty());
    assert!(solve_10(map).is_empty());
    assert_eq!(map.get_dead_tiles_count(), 0);
}

#[test]
fn goal_already_met_returns_the_empty_play() {
    let map = chain_board();
    let targets = normalize_targets(vec![(0, 0), (3, 3), (0, 0)]);
    let best = AtomicU32::new(0);
    let stop = AtomicBool::new(false);
    let found = target_worker(&map, &targets, &best, &stop);
    assert_eq!(found.len(), 1);
    assert_eq!(found[0], (2, vec![]));
    assert!(stop.load(std::sync::atomic::Ordering::SeqCst));
}

#[test]
fn goal_directed_play_frees_the_targets() {
    let map = chain_board();
    let targets = normalize_targets(vec![(8, 8), (7, 7)]);
    let best = AtomicU32::new(0);
    let stop = AtomicBool::new(false);
    let found = target_worker(&map, &targets, &best, &stop);
    let last = found.last().unwrap();
    assert_eq!(last.0, 2);
    assert_eq!(get_map_diff_score(&replay(&map, &last.1), &targets), 2);
}

#[test]
fn targets_are_sorted_and_deduplicated() {
    let t = normalize_targets(vec![(3, 1), (0, 5), (3, 0), (0, 5), (2, 9)]);
    assert_eq!(t, vec![(0, 5), (2, 9), (3, 0), (3, 1)]);
    assert!(normalize_targets(vec![]).is_empty());
}

#[test]
fn diff_score_counts_empty_targets() {
    let map = chain_board();
    assert_eq!(get_map_diff_score(&map, &vec![(7, 7), (0, 0), (1, 1)]), 2);
    assert_eq!(get_map_diff_score(&map, &vec![]), 0);
}

#[test]
fn lookahead_scores_the_parent_at_depth_zero() {
    // Depth 0 scores its one click by the board before it, which already has no dead
    // tile: that one-click play comes first among the best and is kept.
    let map = chain_board();
    assert_eq!(solve_3(map), vec![(8, 8)]);
    let other = board_of(&[(0, 0, 1), (1, 0, 1), (2, 0, 2), (5, 5, 3), (5, 6, 3)]);
    let steps = solve_3(other);
    assert!(!steps.is_empty());
    replay(&other, &steps);
}

#[test]
fn greedy_prefers_the_click_that_leaves_bigger_groups() {
    // Clicking the pair of 2s turns the 1 between them into a 2 next to another pair.
    let map = board_of(&[(0, 0, 4), (1, 0, 4), (0, 2, 1), (1, 2, 1), (5, 5, 2), (5, 6, 2)]);
    let steps = solve_10(map);
    assert_eq!(steps.len(), 3);
    assert!(replay(&map, &steps).all_groups().is_empty());
}

#[test]
fn expanding_a_job_branches_per_group() {
    let map = board_of(&[(0, 0, 1), (1, 0, 1), (5, 5, 2), (5, 6, 2)]);
    match expand_job(&vec![(9, 9)], &map) {
        JobOutcome::Branches(children) => {
            assert_eq!(children.len(), 2);
            assert_eq!(children[0].0, vec![(9, 9), (0, 0)]);
            assert_eq!(children[1].0, vec![(9, 9), (5, 5)]);
            let mut expected = map;
            expected.click(0, 0);
            assert_eq!(children[0].1, expected);
        }
        JobOutcome::Finished(_) => panic!("board has groups"),
    }
    match expand_job(&vec![], &board_of(&[(0, 0, 1), (1, 0, 2)])) {
        JobOutcome::Finished(c) => assert_eq!(c, 2),
        JobOutcome::Branches(_) => panic!("board has no group"),
    }
}

#[test]
fn shared_best_search_records_improving_plays() {
    let map = board_of(&[(6, 7, 3), (7, 7, 3), (8, 7, 2), (8, 8, 1), (9, 8, 1), (8, 9, 3), (9, 9, 2)]);
    for shuffle in [false, true] {
        let best = AtomicU32::new(242);
        let stop = AtomicBool::new(false);
        let found = search_shared_best(&map, None, &best, &stop, shuffle);
        assert!(!found.is_empty());
        for w in found.windows(2) {
            assert!(w[1].0 < w[0].0);
        }
        let last = found.last().unwrap();
        assert_eq!(last.0, 2);
        assert_eq!(replay(&map, &last.1).get_dead_tiles_count(), 2);
    }
    let best = AtomicU32::new(242);
    let stop = AtomicBool::new(false);
    assert!(search_shared_best(&map, Some((0, 0)), &best, &stop, false).is_empty());
    let from_first = search_shared_best(&map, Some((8, 8)), &best, &stop, false);
    assert!(from_first.iter().all(|p| p.1[0] == (8, 8)));
    let fresh = AtomicU32::new(242);
    let from_other = search_shared_best(&map, Some((6, 7)), &fresh, &stop, false);
    assert!(!from_other.is_empty());
    assert!(from_other.iter().all(|p| p.1[0] == (6, 7)));
    let stopped = AtomicBool::new(true);
    assert!(search_shared_best(&map, None, &AtomicU32::new(242), &stopped, false).is_empty());
}

#[test]
fn clusters_become_separate_boards() {
    let map = board_of(&[(0, 0, 1), (1, 0, 1), (5, 5, 2), (5, 6, 3), (9, 9, 4)]);
    let boards = cluster_boards(&map).unwrap();
    assert_eq!(boards.len(), 1);
    assert_eq!(boards[0], board_of(&[(0, 0, 1), (1, 0, 1)]));
    assert_eq!(solve_cluster(boards[0]), vec![(0, 0)]);
    let clusters = map.all_tile_clusters();
    assert_eq!(clusters.len(), 2);
    assert_eq!(map.create_map_from_cluster(&clusters[1]), board_of(&[(5, 5, 2), (5, 6, 3)]));
    let two = board_of(&[(5, 5, 2), (5, 6, 2), (0, 0, 1), (1, 0, 1)]);
    let boards = cluster_boards(&two).unwrap();
    assert_eq!(boards, vec![board_of(&[(0, 0, 1), (1, 0, 1)]), board_of(&[(5, 5, 2), (5, 6, 2)])]);
}

#[test]
fn cluster_with_too_many_groups_rejects_the_board() {
    // A row of 24 pairs of alternating phases in one cluster: twelve groups or more.
    let mut map = MonolithMap::default();
    for x in 0..22 {
        let v = if (x / 2) % 2 == 0 { 1 } else { 2 };
        map.set(x, 0, v);
    }
    assert!(map.all_groups().len() >= 11);
    for x in 0..4 {
        map.set(x, 1, if (x / 2) % 2 == 0 { 3 } else { 4 });
    }
    assert!(cluster_boards(&map).is_none());
}

#[test]
fn unsolvable_cluster_gives_no_moves() {
    let map = board_of(&[(0, 0, 1), (1, 0, 2)]);
    assert!(solve_cluster(map).is_empty());
    assert!(solve_2(map).is_empty());
}

#[test]
fn exhaustive_search_escalates_its_ceiling() {
    // Any play leaves the separate 2-4-2 row dead: no solution under a ceiling of 0.
    let map = board_of(&[(0, 0, 1), (1, 0, 1), (17, 8, 2), (18, 8, 4), (19, 8, 2)]);
    let steps = solve_2(map);
    assert_eq!(steps, vec![(0, 0)]);
    assert_eq!(replay(&map, &steps).get_dead_tiles_count(), 3);
}

#[test]
fn rollout_budget_thresholds() {
    let long = RolloutBudget::Long;
    assert!(!should_stop(long, 10, 4));
    assert!(should_stop(long, 11, 4));
    assert!(!should_stop(long, 30, 7));
    assert!(should_stop(long, 31, 7));
    assert!(should_stop(long, 61, 9));
    assert!(should_stop(long, 121, 14));
    assert!(!should_stop(long, 300, 100));
    assert!(should_stop(long, 301, 100));
    let short = RolloutBudget::Short;
    assert!(!should_stop(short, 20, 7));
    assert!(should_stop(short, 21, 7));
    assert!(!should_stop(short, 30, 100));
    assert!(should_stop(short, 31, 100));
}

#[test]
fn worker_decision_rules() {
    let mut found = vec![];
    assert!(keep_if_better(&mut found, (3, vec![(1, 1)]), 4));
    assert!(!keep_if_better(&mut found, (4, vec![(2, 2)]), 4));
    assert_eq!(found, vec![(3, vec![(1, 1)])]);
    let mut freed = vec![];
    assert!(keep_if_higher(&mut freed, (2, vec![]), 1));
    assert!(!keep_if_higher(&mut freed, (1, vec![]), 1));
    assert_eq!(freed.len(), 1);
    assert!(worth_descending(2, 3));
    assert!(!worth_descending(3, 3));
    assert!(timer_should_stop(61, 5));
    assert!(timer_should_stop(1, 0));
    assert!(!timer_should_stop(60, 1));
    assert!(accept_finished(true, 50));
    assert!(accept_finished(false, 19));
    assert!(!accept_finished(false, 20));
    let best = keep_higher(None, (1, vec![(0, 0)]));
    let best = keep_higher(best, (1, vec![(5, 5)]));
    assert_eq!(best, Some((1, vec![(0, 0)])));
    assert_eq!(keep_higher(best, (2, vec![])), Some((2, vec![])));
}

#[test]
fn short_budget_rollouts_solve_the_chain() {
    let map = chain_board();
    assert_eq!(random_rollouts(&map, RolloutBudget::Short).len(), 2);
}

#[test]
fn clicks_stay_inside_their_cluster() {
    let map = board_of(&[(0, 0, 1), (1, 0, 1), (2, 0, 3), (4, 0, 2), (3, 3, 4)]);
    let mut clicked = map;
    clicked.click(0, 0);
    assert_eq!(clicked.get(2, 0), 4);
    assert_eq!(clicked.get(4, 0), 2);
    assert_eq!(clicked.get(3, 3), 4);
}

#[test]
fn trait_strategies_agree_with_the_functions() {
    let map = chain_board();
    assert_eq!(RecursiveBruteforce::solve_recursive_bruteforce(map), solve_2(map));
    assert_eq!(map.solve_recursive_lesser_n_dead(), solve_3(map));
    assert_eq!(map.solve_recursive_random_bruteforce().len(), 2);
    let bad = MonolithMap([[7; 22]; 11]);
    assert!(!bad.is_wf());
    assert!(RecursiveBruteforce::solve_recursive_bruteforce(bad).is_empty());
}

#[test]
fn methods_parse_by_name() {
    assert_eq!(SolvingMethods::default(), SolvingMethods::Method4);
    assert_eq!("Method7".parse::<SolvingMethods>(), Ok(SolvingMethods::Method7));
    assert_eq!(SolvingMethods::parse_name("Method10"), Ok(SolvingMethods::Method10));
    assert_eq!(
        SolvingMethods::parse_name("Method11"),
        Err("Unknown solving method 'Method11'".to_string())
    );
    assert_eq!(SolvingMethods::Method3.name(), "Method3");
}

#[test]
fn dead_tiles_of_a_cluster_without_groups() {
    // a 1-2-1 row is dead as a whole; the 3-3 pair beside it keeps its cluster alive
    let dead = board_of(&[(0, 0, 1), (1, 0, 2), (2, 0, 1)]);
    assert_eq!(dead.get_dead_tiles_count(), 3);
    let alive = board_of(&[(0, 0, 1), (1, 0, 2), (2, 0, 1), (2, 1, 3), (3, 1, 3)]);
    assert_eq!(alive.get_dead_tiles_count(), 0);
    assert_eq!(alive.get_isolated_tiles_count(), 0);
    assert_eq!(board_of(&[(4, 4, 2)]).get_isolated_tiles_count(), 1);
}
