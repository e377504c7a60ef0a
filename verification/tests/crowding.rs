use rust_advent::crowding::{part1, part2};

#[test]
fn claude_day04_test_small_example() {
    let grid = vec!["..@".to_string(), ".@.".to_string(), ".@@".to_string()];
    assert_eq!(part1(&grid), 4);
}

#[test]
fn claude_day04_test_large_example() {
    let grid = vec![
        "..@@.@@@@.".to_string(),
        "@@@.@.@.@@".to_string(),
        "@@@@@.@.@@".to_string(),
        "@.@@@@..@.".to_string(),
        "@@.@@@@.@@".to_string(),
        ".@@@@@@@.@".to_string(),
        ".@.@.@.@@@".to_string(),
        "@.@@@.@@@@".to_string(),
        ".@@@@@@@@.".to_string(),
        "@.@.@@@.@.".to_string(),
    ];
    assert_eq!(part1(&grid), 13);
}

#[test]
fn claude_day04_test_empty_grid() {
    let grid: Vec<String> = vec![];
    assert_eq!(part1(&grid), 0);
}

#[test]
fn claude_day04_test_no_objects() {
    let grid = vec!["...".to_string(), "...".to_string(), "...".to_string()];
    assert_eq!(part1(&grid), 0);
}

#[test]
fn test_all_objects_qualify() {
    let grid = vec!["@.@".to_string(), "...".to_string(), "@.@".to_string()];
    assert_eq!(part1(&grid), 4);
}

#[test]
fn claude_day04_test_exactly_four_neighbors() {
    let grid = vec![
        ".@@@.".to_string(),
        ".@@@.".to_string(),
        ".@@@.".to_string(),
        ".....".to_string(),
    ];
    assert_eq!(part1(&grid), 4);
}

#[test]
fn test_more_than_four_neighbors() {
    let grid = vec!["@@@".to_string(), "@@@".to_string(), "@@@".to_string()];
    assert_eq!(part1(&grid), 4);
}

#[test]
fn claude_day04_test_single_object() {
    let grid = vec!["...".to_string(), ".@.".to_string(), "...".to_string()];
    assert_eq!(part1(&grid), 1);
}

#[test]
fn test_corner_objects() {
    let grid = vec![
        "@...@".to_string(),
        ".....".to_string(),
        ".....".to_string(),
        ".....".to_string(),
        "@...@".to_string(),
    ];
    assert_eq!(part1(&grid), 4);
}

#[test]
fn test_edge_vs_center() {
    let grid = vec![".@.".to_string(), "@@@".to_string(), ".@.".to_string()];
    assert_eq!(part1(&grid), 4);
}

#[test]
fn claude_day04_test_dense_grid() {
    let grid = vec![
        "@@@@".to_string(),
        "@@@@".to_string(),
        "@@@@".to_string(),
        "@@@@".to_string(),
    ];
    assert_eq!(part1(&grid), 4);
}

#[test]
fn claude_day04_test_part2_large_example() {
    let grid = vec![
        "..@@.@@@@.".to_string(),
        "@@@.@.@.@@".to_string(),
        "@@@@@.@.@@".to_string(),
        "@.@@@@..@.".to_string(),
        "@@.@@@@.@@".to_string(),
        ".@@@@@@@.@".to_string(),
        ".@.@.@.@@@".to_string(),
        "@.@@@.@@@@".to_string(),
        ".@@@@@@@@.".to_string(),
        "@.@.@@@.@.".to_string(),
    ];
    assert_eq!(part2(&grid), 43);
}

#[test]
fn claude_day04_test_part2_empty_grid() {
    let grid: Vec<String> = vec![];
    assert_eq!(part2(&grid), 0);
}

#[test]
fn test_part2_dense_grid_limited_removal() {
    let grid = vec![
        "@@@@".to_string(),
        "@@@@".to_string(),
        "@@@@".to_string(),
        "@@@@".to_string(),
    ];
    assert_eq!(part2(&grid), 4);
}

#[test]
fn test_part2_all_removed_one_pass() {
    let grid = vec!["@.@".to_string(), "...".to_string(), "@.@".to_string()];
    assert_eq!(part2(&grid), 4);
}

#[test]
fn test_part2_cascading_removal() {
    let grid = vec![".@.".to_string(), "@@@".to_string(), ".@.".to_string()];
    assert_eq!(part2(&grid), 5);
}

#[test]
fn claude_day04_test_part2_small_example() {
    let grid = vec!["..@".to_string(), ".@.".to_string(), ".@@".to_string()];
    assert_eq!(part2(&grid), 4);
}

#[test]
fn test_part2_line_removal() {
    let grid = vec!["@@@@@".to_string()];
    assert_eq!(part2(&grid), 5);
}

#[test]
fn test_part2_5x5_grid() {
    let grid = vec![
        "@@@@@".to_string(),
        "@@@@@".to_string(),
        "@@@@@".to_string(),
        "@@@@@".to_string(),
        "@@@@@".to_string(),
    ];
    assert_eq!(part2(&grid), 4);
}

#[test]
fn claude_day04_test_part2_single_object() {
    let grid = vec!["@".to_string()];
    assert_eq!(part2(&grid), 1);
}

#[test]
fn test_part2_2x2_grid() {
    let grid = vec!["@@".to_string(), "@@".to_string()];
    assert_eq!(part2(&grid), 4);
}

#[test]
fn test_part2_only_empty_spaces() {
    let grid = vec!["...".to_string(), "...".to_string(), "...".to_string()];
    assert_eq!(part2(&grid), 0);
}

#[test]
fn test_part2_3x3_all_objects() {
    let grid = vec!["@@@".to_string(), "@@@".to_string(), "@@@".to_string()];
    assert_eq!(part2(&grid), 9);
}
