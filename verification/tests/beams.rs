use rust_advent::beams::{part1, part2};

#[test]
fn antigravity_day07_test_example_1() {
    let input = vec![
        "..S..".to_string(),
        ".....".to_string(),
        "..^..".to_string(),
        ".....".to_string(),
    ];
    assert_eq!(part1(&input), 1);
}

#[test]
fn antigravity_day07_test_example_2() {
    let input = vec![
        "...S...".to_string(),
        ".......".to_string(),
        "...^...".to_string(),
        "..^...^".to_string(),
    ];
    assert_eq!(part1(&input), 2);
}

#[test]
fn antigravity_day07_test_example_3() {
    let input = vec![
        ".......S.......".to_string(),
        "...............".to_string(),
        ".......^.......".to_string(),
        "...............".to_string(),
        "......^.^......".to_string(),
        "...............".to_string(),
        ".....^.^.^.....".to_string(),
        "...............".to_string(),
        "....^.^...^....".to_string(),
        "...............".to_string(),
        "...^.^...^.^...".to_string(),
        "...............".to_string(),
        "..^...^.....^..".to_string(),
        "...............".to_string(),
        ".^.^.^.^.^...^.".to_string(),
        "...............".to_string(),
    ];
    assert_eq!(part1(&input), 21);
}

#[test]
fn test_merging_beams() {
    let input = vec![
        "..S..".to_string(),
        "..^..".to_string(),
        ".^.^.".to_string(),
    ];
    assert_eq!(part1(&input), 3);
}

#[test]
fn test_edge_of_grid() {
    let input = vec!["S..".to_string(), "^..".to_string(), "...".to_string()];
    assert_eq!(part1(&input), 1);
}

#[test]
fn test_no_beams_hit_splitter() {
    let input = vec![
        "..S..".to_string(),
        ".....".to_string(),
        "^...^".to_string(),
    ];
    assert_eq!(part1(&input), 0);
}

#[test]
fn antigravity_day07_test_part2_example_1() {
    let input = vec![
        "..S..".to_string(),
        ".....".to_string(),
        "..^..".to_string(),
        ".....".to_string(),
    ];
    assert_eq!(part2(&input), 2);
}

#[test]
fn antigravity_day07_test_part2_example_2() {
    let input = vec![
        "...S...".to_string(),
        ".......".to_string(),
        "...^...".to_string(),
        "..^...^".to_string(),
    ];
    assert_eq!(part2(&input), 3);
}

#[test]
fn antigravity_day07_test_part2_example_3() {
    let input = vec![
        ".......S.......".to_string(),
        "...............".to_string(),
        ".......^.......".to_string(),
        "...............".to_string(),
        "......^.^......".to_string(),
        "...............".to_string(),
        ".....^.^.^.....".to_string(),
        "...............".to_string(),
        "....^.^...^....".to_string(),
        "...............".to_string(),
        "...^.^...^.^...".to_string(),
        "...............".to_string(),
        "..^...^.....^..".to_string(),
        "...............".to_string(),
        ".^.^.^.^.^...^.".to_string(),
        "...............".to_string(),
    ];
    assert_eq!(part2(&input), 40);
}

#[test]
fn test_part2_merging_paths() {
    let input = vec![
        "..S..".to_string(),
        "..^..".to_string(),
        ".^.^.".to_string(),
    ];
    assert_eq!(part2(&input), 4);
}
