use rust_advent::solver::{solve_part1, solve_part2, Problem};

#[test]
fn gemini_cli_day10_test_part1_example_1() {
    let input = "[.##.] (3) (1,3) (2) (2,3) (0,2) (0,1) {3,5,4,7}";
    let p = Problem::parse(input).unwrap();
    assert_eq!(solve_part1(&p), Some(2));
}

#[test]
fn gemini_cli_day10_test_part1_example_2() {
    let input = "[...#.] (0,2,3,4) (2,3) (0,4) (0,1,2) (1,2,3,4) {7,5,12,7,2}";
    let p = Problem::parse(input).unwrap();
    assert_eq!(solve_part1(&p), Some(3));
}

#[test]
fn test_part1_example_3() {
    let input = "[.###.#] (0,1,2,3,4) (0,3,4) (0,1,2,4,5) (1,2) {10,11,11,5,10,5}";
    let p = Problem::parse(input).unwrap();
    assert_eq!(solve_part1(&p), Some(2));
}

#[test]
fn test_part1_impossible_target() {
    let p = Problem::parse("[#.] (1) {0,0}").unwrap();
    assert_eq!(solve_part1(&p), None);
}

#[test]
fn test_part1_trivial_empty_target() {
    let p = Problem::parse("[....] (0,1) (2,3) {0,0,0,0}").unwrap();
    assert_eq!(solve_part1(&p), Some(0));
}

#[test]
fn test_part1_redundant_steps() {
    let p = Problem::parse("[.#] (0) (0) (0,1)").unwrap();
    assert_eq!(solve_part1(&p), Some(2));
}

#[test]
fn test_part1_scaling_max_positions() {
    let mut s = String::from("[################################] ");
    for i in 0..32 {
        s.push_str(&format!("({}) ", i));
    }
    let p = Problem::parse(&s).unwrap();
    assert_eq!(solve_part1(&p), Some(32));
}

#[test]
fn test_part1_scaling_bfs_limit() {
    let s = String::from(
        "[....................] (0,1,2,3,4,5,6,7,8,9,10,11,12,13,14,15,16,17,18,19)",
    );
    let p = Problem::parse(&s).unwrap();
    assert_eq!(solve_part1(&p), Some(0));
}

#[test]
fn gemini_cli_day10_test_part2_example_1() {
    let input = "[.##.] (3) (1,3) (2) (2,3) (0,2) (0,1) {3,5,4,7}";
    let p = Problem::parse(input).unwrap();
    assert_eq!(solve_part2(&p), Some(10));
}

#[test]
fn gemini_cli_day10_test_part2_example_2() {
    let input = "[...#.] (0,2,3,4) (2,3) (0,4) (0,1,2) (1,2,3,4) {7,5,12,7,2}";
    let p = Problem::parse(input).unwrap();
    assert_eq!(solve_part2(&p), Some(12));
}

#[test]
fn gemini_cli_day10_test_part2_example_3() {
    let input = "[.###.#] (0,1,2,3,4) (0,3,4) (0,1,2,4,5) (1,2) {10,11,11,5,10,5}";
    let p = Problem::parse(input).unwrap();
    assert_eq!(solve_part2(&p), Some(11));
}

#[test]
fn test_part2_trivial_target() {
    let p = Problem::parse("[.] (0) {0}").unwrap();
    assert_eq!(solve_part2(&p), Some(0));
}

#[test]
fn test_part2_no_solution() {
    let p = Problem::parse("[..] (0,1) {1,0}").unwrap();
    assert_eq!(solve_part2(&p), None);
}

#[test]
fn test_part2_redundant_steps() {
    let p = Problem::parse("[.] (0) (0) {2}").unwrap();
    assert_eq!(solve_part2(&p), Some(2));
}

#[test]
fn test_part2_optimization_free_variable() {
    let p = Problem::parse("[..] (0) (1) (0,1) {10,10}").unwrap();
    assert_eq!(solve_part2(&p), Some(10));
}

#[test]
fn test_part2_large_target_scaling() {
    let p = Problem::parse("[.] (0) {100}").unwrap();
    assert_eq!(solve_part2(&p), Some(100));
}

#[test]
fn test_part2_second_failure() {
    let input = "[#..#....#] (2,4,6,8) (1,3,4) (0,1,2,4,5,7,8) (4,5,6,8) (1,2,3,5,6) (2,6,7,8) (0,2,3,4,5,6,7) (0,1,2,4,6,7,8) (0,2,3,4,6,7) (0,3,7,8) {65,49,88,60,82,65,88,67,78}";
    let p = Problem::parse(input).unwrap();
    let result = solve_part2(&p);
    assert_eq!(result, Some(121));
}

#[test]
fn test_part2_hard_case() {
    let input = "[#..##.###.] (0,1,2,3,5,6,7,8) (0,1,2,4,6,7,8,9) (5,8,9) (3,4,6,7) (3,5,6) (1,4,8,9) (2,3,7,8,9) (0,1,2,6,7,8) (0,6,9) (0,5,7,8,9) (0,2,3,4,6,7,8,9) (1,4,6,9) (1,2,5,6) {225,56,230,208,204,28,256,231,235,246}";
    let p = Problem::parse(input).unwrap();
    assert_eq!(solve_part2(&p), Some(283));
}

#[test]
fn test_parsing_empty() {
    assert!(Problem::parse("").is_err());
}

#[test]
fn test_parsing_invalid_str() {
    assert!(Problem::parse("invalid").is_err());
}

#[test]
fn test_parsing_missing_steps() {
    assert!(Problem::parse("[.#]").is_err());
}

#[test]
fn test_parsing_bad_step_format() {
    assert!(Problem::parse("[.#] (a)").is_err());
}
