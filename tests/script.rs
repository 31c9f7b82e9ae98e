use monolith::recognition::{generate_monolith_map, get_tile_group};
use monolith::script::create_array_string;

#[test]
fn test_create_array_string() {
    let steps = vec![(1, 2), (21, 10), (0, 5)];
    let result = create_array_string(steps);
    assert_eq!(result, "[[1,2], [21,10], [0,5]]");
}

#[test]
fn array_string_of_no_steps_and_of_one() {
    assert_eq!(create_array_string(vec![]), "[]");
    assert_eq!(create_array_string(vec![(10, 0)]), "[[10,0]]");
}

#[test]
fn tile_colors_classify_into_phases() {
    assert_eq!(get_tile_group((189, 187, 187)), Some(1));
    assert_eq!(get_tile_group((236, 145, 187)), Some(2));
    assert_eq!(get_tile_group((211, 171, 110)), Some(3));
    assert_eq!(get_tile_group((99, 166, 184)), Some(4));
    assert_eq!(get_tile_group((174, 131, 93)), Some(0));
    // 15% of 174 is 26 (rounded down): 148 is outside, 149 inside
    assert_eq!(get_tile_group((149, 131, 93)), Some(0));
    assert_eq!(get_tile_group((148, 131, 93)), None);
    assert_eq!(get_tile_group((0, 0, 0)), None);
}

#[test]
fn board_from_tile_colors() {
    let empty = (174, 131, 93);
    let mut colors = vec![empty; 242];
    // column 3, row 4 sits at 3 * 11 + 4
    colors[3 * 11 + 4] = (99, 166, 184);
    let map = generate_monolith_map(&colors).unwrap();
    assert_eq!(map.get(3, 4), 4);
    assert_eq!(map.get_all_tiles(), vec![(3, 4)]);
    colors[100] = (0, 0, 0);
    assert!(generate_monolith_map(&colors).is_none());
}
