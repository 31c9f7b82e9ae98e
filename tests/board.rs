use monolith::board::{MonolithMap, Tile};

/// A board holding the given `(column, row, phase)` cells, empty elsewhere.
fn board_of(cells: &[(usize, usize, u8)]) -> MonolithMap {
    let mut map = MonolithMap::default();
    for &(x, y, v) in cells {
        map.set(x, y, v);
    }
    map
}

fn fixture_1() -> MonolithMap {
    board_of(&[
        (8, 6, 1), (8, 7, 1), (8, 8, 1),
    ])
}

fn fixture_2() -> MonolithMap {
    board_of(&[
        (7, 7, 3), (8, 7, 2), (8, 8, 1), (9, 8, 1),
    ])
}

fn fixture_3() -> MonolithMap {
    board_of(&[
        (6, 7, 3), (7, 7, 3), (8, 7, 2), (8, 8, 1), (9, 8, 1), (17, 8, 2), (18, 8, 4),
        (19, 8, 2), (2, 9, 3), (8, 9, 3), (9, 9, 2), (2, 10, 4),
    ])
}

fn fixture_4() -> MonolithMap {
    board_of(&[
        (10, 5, 1),
    ])
}

fn fixture_5() -> MonolithMap {
    board_of(&[
        (10, 5, 2),
    ])
}

fn fixture_6() -> MonolithMap {
    board_of(&[
        (9, 3, 4), (10, 3, 4), (9, 4, 2), (10, 4, 1), (11, 4, 3), (9, 5, 2), (10, 5, 1),
        (11, 5, 3), (10, 6, 2),
    ])
}

fn fixture_7() -> MonolithMap {
    board_of(&[
        (9, 3, 4), (10, 3, 1), (9, 4, 3), (11, 4, 4), (9, 5, 3), (11, 5, 4), (10, 6, 3),
    ])
}

fn fixture_8() -> MonolithMap {
    board_of(&[
        (9, 3, 1), (10, 3, 1), (11, 4, 4), (11, 5, 4), (10, 6, 3),
    ])
}

fn fixture_9() -> MonolithMap {
    board_of(&[
        (0, 0, 1), (1, 0, 4), (0, 1, 4), (1, 1, 4), (9, 3, 4), (10, 3, 4), (9, 4, 2),
        (10, 4, 1), (11, 4, 3), (9, 5, 2), (10, 5, 1), (11, 5, 3), (10, 6, 2),
    ])
}

fn fixture_10() -> MonolithMap {
    board_of(&[
        (0, 0, 2), (9, 3, 4), (10, 3, 4), (9, 4, 2), (10, 4, 1), (11, 4, 3), (9, 5, 2),
        (10, 5, 1), (11, 5, 3), (10, 6, 2),
    ])
}

fn fixture_11() -> MonolithMap {
    board_of(&[
        (0, 0, 3), (1, 0, 2), (20, 0, 2), (21, 0, 1), (0, 1, 1), (21, 1, 3), (11, 6, 2),
        (10, 7, 2), (11, 7, 2), (12, 7, 2), (1, 8, 3), (11, 8, 2), (0, 9, 2), (1, 9, 1),
        (2, 9, 4), (21, 9, 1), (1, 10, 1), (14, 10, 3), (20, 10, 1), (21, 10, 1),
    ])
}

fn fixture_12() -> MonolithMap {
    board_of(&[
        (0, 0, 1), (1, 0, 1), (16, 0, 4), (17, 0, 1), (18, 0, 4), (19, 0, 4), (20, 0, 4),
        (21, 0, 4), (0, 1, 2), (16, 1, 3), (17, 1, 4), (18, 1, 4), (19, 1, 2), (20, 1, 4),
        (21, 1, 2), (16, 2, 4), (17, 2, 2), (18, 2, 4), (19, 2, 4), (20, 2, 4), (21, 2, 3),
        (18, 3, 4), (19, 3, 1), (20, 3, 4), (18, 4, 4), (19, 4, 1), (21, 4, 4), (18, 5, 2),
        (6, 8, 2), (7, 8, 2), (8, 8, 2), (5, 9, 2), (6, 9, 3), (7, 9, 3), (8, 9, 3), (9, 9, 2),
        (6, 10, 2), (7, 10, 2), (8, 10, 2),
    ])
}

fn fixture_13() -> MonolithMap {
    board_of(&[
        (0, 0, 3), (1, 0, 2), (20, 0, 2), (21, 0, 1), (0, 1, 1), (21, 1, 3), (11, 6, 2),
        (10, 7, 2), (11, 7, 2), (12, 7, 2), (1, 8, 3), (11, 8, 2), (0, 9, 2), (1, 9, 1),
        (2, 9, 4), (21, 9, 1), (1, 10, 1), (20, 10, 1), (21, 10, 1),
    ])
}

fn fixture_14() -> MonolithMap {
    board_of(&[
        (0, 0, 3), (1, 0, 2), (20, 0, 2), (21, 0, 1), (0, 1, 1), (21, 1, 3), (11, 6, 2),
        (10, 7, 2), (11, 7, 2), (12, 7, 2), (0, 8, 3), (11, 8, 2), (0, 9, 2), (1, 9, 1),
        (2, 9, 4), (21, 9, 1), (1, 10, 1), (20, 10, 1), (21, 10, 1),
    ])
}

fn fixture_15() -> MonolithMap {
    board_of(&[
        (0, 0, 3), (1, 0, 2), (20, 0, 2), (21, 0, 1), (0, 1, 1), (21, 1, 3), (11, 6, 2),
        (10, 7, 2), (11, 7, 2), (12, 7, 2), (1, 8, 3), (11, 8, 2), (1, 9, 1), (2, 9, 4),
        (21, 9, 1), (0, 10, 3), (1, 10, 1), (12, 10, 1), (20, 10, 1),
    ])
}

fn fixture_16() -> MonolithMap {
    board_of(&[
        (0, 0, 3), (1, 0, 2), (20, 0, 2), (21, 0, 1), (0, 1, 1), (21, 1, 3), (11, 6, 2),
        (10, 7, 2), (11, 7, 2), (12, 7, 2), (1, 8, 3), (11, 8, 2), (2, 9, 4), (21, 9, 1),
        (0, 10, 3), (12, 10, 1), (20, 10, 1),
    ])
}

fn fixture_17() -> MonolithMap {
    board_of(&[
        (0, 0, 1), (1, 0, 3), (16, 0, 4), (17, 0, 1), (18, 0, 4), (19, 0, 4), (20, 0, 4),
        (21, 0, 4), (0, 1, 2), (16, 1, 3), (17, 1, 4), (18, 1, 4), (19, 1, 2), (20, 1, 4),
        (21, 1, 2), (16, 2, 4), (17, 2, 2), (18, 2, 4), (19, 2, 4), (20, 2, 4), (21, 2, 3),
        (18, 3, 4), (19, 3, 1), (20, 3, 4), (18, 4, 4), (19, 4, 1), (21, 4, 4), (18, 5, 2),
        (6, 8, 2), (7, 8, 2), (8, 8, 2), (5, 9, 2), (6, 9, 3), (7, 9, 3), (8, 9, 3), (9, 9, 2),
        (6, 10, 2), (7, 10, 2), (8, 10, 2),
    ])
}

#[test]
fn monolith_map_test_solve_1_step() {
    let map = fixture_1();
    let steps = map.solve();
    assert_eq!(steps.len(), 1);
    let correct_step_1: Vec<Tile> = vec![(8, 8), (8, 7), (8, 6)];
    assert!(correct_step_1.contains(&steps[0]));
}

#[test]
fn monolith_map_test_solve_2_step() {
    let map = fixture_2();
    let steps = map.solve();
    assert_eq!(steps.len(), 2);
    let correct_step_1: Vec<Tile> = vec![(8, 8), (9, 8)];
    assert!(correct_step_1.contains(&steps[0]));
    let correct_step_2: Vec<Tile> = vec![(7, 7), (8, 7)];
    assert!(correct_step_2.contains(&steps[1]));
}

#[test]
fn monolith_map_test_solve_2_step_with_alternative() {
    let map = fixture_3();
    let steps = map.solve();
    assert_eq!(steps.len(), 2);
    let correct_step_1: Vec<Tile> = vec![(8, 8), (9, 8)];
    assert!(correct_step_1.contains(&steps[0]));
    let correct_step_2: Vec<Tile> = vec![(6, 7), (7, 7), (8, 7)];
    assert!(correct_step_2.contains(&steps[1]));
}

#[test]
fn monolith_map_test_advance_1_tile() {
    let mut map = fixture_4();

    map.advance(10, 5);

    let map_after = fixture_5();
    assert_eq!(map, map_after);
}

#[test]
fn monolith_map_test_click_tile() {
    let mut map = fixture_6();

    map.click(10, 4);

    let mut map_after = fixture_7();
    assert_eq!(map, map_after);

    map_after.click(9, 5);

    let map_after_after = fixture_8();
    assert_eq!(map_after, map_after_after);
}

#[test]
fn monolith_map_test_click_tile_corner() {
    let mut map = fixture_9();

    map.click(1, 0);

    let map_after = fixture_10();
    assert_eq!(map, map_after);
}

#[test]
fn monolith_map_test_get_neighbors() {
    let map = fixture_11();

    {
        let neighbors = map.get_neighbors(14, 10);
        assert_eq!(neighbors.len(), 0);
    }
    {
        let mut neighbors = map.get_neighbors(0, 0);
        neighbors.sort();
        assert_eq!(neighbors.len(), 2);
        assert_eq!(neighbors, vec![(0, 1), (1, 0)]);
    }
    {
        let mut neighbors = map.get_neighbors(1, 9);
        neighbors.sort();
        assert_eq!(neighbors.len(), 4);
        assert_eq!(neighbors, vec![(0, 9), (1, 8), (1, 10), (2, 9)]);
    }
    {
        let mut neighbors = map.get_neighbors(21, 10);
        neighbors.sort();
        assert_eq!(neighbors.len(), 2);
        assert_eq!(neighbors, vec![(20, 10), (21, 9)]);
    }
    {
        let mut neighbors = map.get_neighbors(21, 0);
        neighbors.sort();
        assert_eq!(neighbors.len(), 2);
        assert_eq!(neighbors, vec![(20, 0), (21, 1)]);
    }
    {
        let mut neighbors = map.get_neighbors(11, 7);
        neighbors.sort();
        assert_eq!(neighbors.len(), 4);
        assert_eq!(neighbors, vec![(10, 7), (11, 6), (11, 8), (12, 7)]);
    }
}

#[test]
fn test_has_neighbors() {
    let map = fixture_11();

    {
        let neighbors = map.has_neighbors(14, 10);
        assert_eq!(neighbors, false);
    }
    {
        let neighbors = map.has_neighbors(14, 9);
        assert_eq!(neighbors, false);
    }
    {
        let neighbors = map.has_neighbors(0, 0);
        assert_eq!(neighbors, true);
    }
    {
        let neighbors = map.has_neighbors(1, 9);
        assert_eq!(neighbors, true);
    }
    {
        let neighbors = map.has_neighbors(21, 10);
        assert_eq!(neighbors, true);
    }
    {
        let neighbors = map.has_neighbors(21, 0);
        assert_eq!(neighbors, true);
    }
    {
        let neighbors = map.has_neighbors(11, 7);
        assert_eq!(neighbors, true);
    }
}

#[test]
fn test_has_group() {
    let map = fixture_12();
    {
        let group = map.has_group(0, 0);
        assert_eq!(group, true);
    }
    {
        let group = map.has_group(0, 1);
        assert_eq!(group, false);
    }
    {
        let group = map.has_group(5, 9);
        assert_eq!(group, false);
    }
    {
        let group = map.has_group(6, 10);
        assert_eq!(group, true);
    }
    {
        let group = map.has_group(21, 0);
        assert_eq!(group, true);
    }
    {
        let group = map.has_group(21, 1);
        assert_eq!(group, false);
    }
    {
        let group = map.has_group(21, 2);
        assert_eq!(group, false);
    }
}

#[test]
fn monolith_map_test_get_group() {
    let map = fixture_12();
    {
        let mut group = map.get_group(0, 0);
        group.sort();
        assert_eq!(map.get(0, 0), 1);
        assert_eq!(group.len(), 2);
        assert_eq!(group, vec![(0, 0), (1, 0)]);
        assert!(group.iter().all(|x| map.get(x.0, x.1) == 1));
    }
    {
        let mut group = map.get_group(6, 9);
        group.sort();
        assert_eq!(map.get(6, 9), 3);
        assert_eq!(group.len(), 3);
        assert!(group.iter().all(|x| map.get(x.0, x.1) == 3));
        assert_eq!(group, vec![(6, 9), (7, 9), (8, 9)]);
    }
    {
        let mut group = map.get_group(20, 0);
        group.sort();
        assert_eq!(map.get(20, 0), 4);
        assert_eq!(group.len(), 13);
        assert!(group.iter().all(|x| map.get(x.0, x.1) == 4));
    }
}

#[test]
fn monolith_map_test_all_groups() {
    let map = fixture_13();

    let groups = map.all_groups();
    assert_eq!(groups.len(), 3);
}

#[test]
fn monolith_map_test_get_single_tiles() {
    let map = fixture_13();

    let single_tiles = map.get_single_tiles().len();
    assert_eq!(single_tiles, 9);
}

#[test]
fn monolith_map_test_get_dead_tiles_count_1() {
    let map = fixture_14();

    let dead_tiles = map.get_dead_tiles_count();
    assert_eq!(dead_tiles, 6);
}

#[test]
fn monolith_map_test_get_dead_tiles_count_2() {
    let map = fixture_15();

    let dead_tiles = map.get_dead_tiles_count();
    assert_eq!(dead_tiles, 9);
}

#[test]
fn test_get_all_tiles_count() {
    let map = fixture_16();
    let all_tiles = map.get_all_tiles();
    assert_eq!(all_tiles.len(), 17);
}

#[test]
fn test_get_tile_cluster() {
    let map = fixture_17();
    {
        let mut group = map.get_tile_cluster(0, 0);
        group.sort();
        assert_eq!(group.len(), 3);
        assert_eq!(group, vec![(0, 0), (0, 1), (1, 0),]);
    }
    {
        let mut group = map.get_tile_cluster(6, 9);
        group.sort();
        assert_eq!(group.len(), 11);
    }
    {
        let mut group = map.get_tile_cluster(20, 0);
        group.sort();
        assert_eq!(map.get(20, 0), 4);
        assert_eq!(group.len(), 24);
    }
}
