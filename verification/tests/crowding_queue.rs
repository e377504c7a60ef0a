use rust_advent::crowding_queue::{part1, part2};

#[test]
fn antigravity_day04_test_small_example() {
    let grid = vec!["..@".to_string(), ".@.".to_string(), ".@@".to_string()];
    assert_eq!(part1(&grid), 4);
}

#[test]
fn antigravity_day04_test_larger_example() {
    let grid = vec![
        "..@@.@@@@.".to_string(),
        "@@@.@.@.@@".to_string(),
        "@@@@@.@.@@".to_string(),
        "@.@@@@..@.".to_string(),
        "@@.@@@@.@@".to_string(),
        ".@@@@@@@.@".to_string(),
        ".@.@.@.@@@".to_string(),
        "@.@@@.@@@@".to_string(),
        ".@@@@@@@@.".to_string(),
        "@.@.@@@.@.".to_string(),
    ];
    assert_eq!(part1(&grid), 13);
}

#[test]
fn antigravity_day04_test_empty_grid() {
    assert_eq!(part1(&[]), 0);
}

#[test]
fn antigravity_day04_test_no_objects() {
    let grid = vec!["...".to_string(), "...".to_string()];
    assert_eq!(part1(&grid), 0);
}

#[test]
fn antigravity_day04_test_single_object() {
    let grid = vec!["...".to_string(), ".@.".to_string(), "...".to_string()];
    assert_eq!(part1(&grid), 1);
}

#[test]
fn test_full_grid_3x3() {
    let grid = vec!["@@@".to_string(), "@@@".to_string(), "@@@".to_string()];
    assert_eq!(part1(&grid), 4);
}

#[test]
fn test_line_horizontal() {
    let grid = vec!["@@@".to_string()];
    assert_eq!(part1(&grid), 3);
}

#[test]
fn test_line_vertical() {
    let grid = vec!["@".to_string(), "@".to_string(), "@".to_string()];
    assert_eq!(part1(&grid), 3);
}

#[test]
fn antigravity_day04_test_part2_example() {
    let grid = vec![
        "..@@.@@@@.".to_string(),
        "@@@.@.@.@@".to_string(),
        "@@@@@.@.@@".to_string(),
        "@.@@@@..@.".to_string(),
        "@@.@@@@.@@".to_string(),
        ".@@@@@@@.@".to_string(),
        ".@.@.@.@@@".to_string(),
        "@.@@@.@@@@".to_string(),
        ".@@@@@@@@.".to_string(),
        "@.@.@@@.@.".to_string(),
    ];
    assert_eq!(part2(&grid), 43);
}

#[test]
fn antigravity_day04_test_part2_single_object() {
    let grid = vec!["@".to_string()];
    assert_eq!(part2(&grid), 1);
}

#[test]
fn test_part2_3x3_dense() {
    let grid = vec!["@@@".to_string(), "@@@".to_string(), "@@@".to_string()];
    assert_eq!(part2(&grid), 9);
}

#[test]
fn antigravity_day04_test_part2_empty() {
    assert_eq!(part2(&[]), 0);
}

#[test]
fn antigravity_day04_test_part2_no_objects() {
    let grid = vec!["...".to_string(), "...".to_string()];
    assert_eq!(part2(&grid), 0);
}

#[test]
fn test_part2_sparse() {
    let grid = vec!["@.@".to_string()];
    assert_eq!(part2(&grid), 2);
}

#[test]
fn test_part2_multi_step() {
    let grid = vec!["@@@".to_string(), "@@@".to_string(), "@@.".to_string()];



    assert_eq!(part2(&grid), 8);
}
