use rust_advent::plain::{part1, part2};

#[test]
fn claude_day10_test_example_1() {
    let input = vec!["[.##.] (3) (1,3) (2) (2,3) (0,2) (0,1) {3,5,4,7}".to_string()];
    assert_eq!(part1(&input).unwrap(), 2);
}

#[test]
fn claude_day10_test_example_2() {
    let input =
        vec!["[...#.] (0,2,3,4) (2,3) (0,4) (0,1,2) (1,2,3,4) {7,5,12,7,2}".to_string()];
    assert_eq!(part1(&input).unwrap(), 3);
}

#[test]
fn claude_day10_test_example_3() {
    let input =
        vec!["[.###.#] (0,1,2,3,4) (0,3,4) (0,1,2,4,5) (1,2) {10,11,11,5,10,5}".to_string()];
    assert_eq!(part1(&input).unwrap(), 2);
}

#[test]
fn test_all_examples_combined() {
    let input = vec![
        "[.##.] (3) (1,3) (2) (2,3) (0,2) (0,1) {3,5,4,7}".to_string(),
        "[...#.] (0,2,3,4) (2,3) (0,4) (0,1,2) (1,2,3,4) {7,5,12,7,2}".to_string(),
        "[.###.#] (0,1,2,3,4) (0,3,4) (0,1,2,4,5) (1,2) {10,11,11,5,10,5}".to_string(),
    ];
    assert_eq!(part1(&input).unwrap(), 7);
}

#[test]
fn test_already_at_goal() {
    let input = vec!["[....] (0) (1) (2,3) {0,0,0,0}".to_string()];
    assert_eq!(part1(&input).unwrap(), 0);
}

#[test]
fn test_single_position() {
    let input = vec!["[#] (0) {1}".to_string()];
    assert_eq!(part1(&input).unwrap(), 1);
}

#[test]
fn test_single_step_needed() {
    let input = vec!["[##] (0,1) {1,1}".to_string()];
    assert_eq!(part1(&input).unwrap(), 1);
}

#[test]
fn test_unreachable_state() {
    let input = vec!["[.#.] (0) (2) {1}".to_string()];
    assert!(part1(&input).is_err());
}

#[test]
fn test_multiple_paths_same_length() {
    let input = vec!["[##..] (0,1) (0) (1) {1,1,0,0}".to_string()];
    assert_eq!(part1(&input).unwrap(), 1);
}

#[test]
fn test_all_on() {
    let input = vec!["[####] (0,1,2,3) {1,1,1,1}".to_string()];
    assert_eq!(part1(&input).unwrap(), 1);
}

#[test]
fn test_parse_empty_endstate() {
    let input = vec!["[] (0) {1}".to_string()];
    assert!(part1(&input).is_err());
}

#[test]
fn test_parse_no_steps() {
    let input = vec!["[#] {1}".to_string()];
    assert!(part1(&input).is_err());
}

#[test]
fn test_parse_invalid_position() {
    let input = vec!["[.#] (5) {1}".to_string()];
    assert!(part1(&input).is_err());
}

#[test]
fn test_parse_missing_brackets() {
    let input = vec![".# (0) {1}".to_string()];
    assert!(part1(&input).is_err());
}

#[test]
fn test_parse_malformed_step() {
    let input = vec!["[.#] (a,b) {1}".to_string()];
    assert!(part1(&input).is_err());
}

#[test]
fn test_max_size_32_positions() {
    let endstate = "#".repeat(15);
    let steps = (0..15)
        .map(|i| format!("({})", i))
        .collect::<Vec<_>>()
        .join(" ");
    let targets = vec!["1"; 15].join(",");
    let input = vec![format!("[{}] {} {{{}}}", endstate, steps, targets)];
    assert_eq!(part1(&input).unwrap(), 15);
}

#[test]
fn test_at_size_limit() {
    let endstate = ".".repeat(31) + "#";
    let targets = vec!["0"; 31].iter().chain(&["1"]).cloned().collect::<Vec<_>>().join(",");
    let input = vec![format!("[{}] (31) {{{}}}", endstate, targets)];
    assert_eq!(part1(&input).unwrap(), 1);
}

#[test]
fn test_size_exceeds_limit() {
    let endstate = "#".repeat(33);
    let steps = (0..33)
        .map(|i| format!("({})", i))
        .collect::<Vec<_>>()
        .join(" ");
    let input = vec![format!("[{}] {} {{1}}", endstate, steps)];
    assert!(part1(&input).is_err());
}

#[test]
fn test_complex_toggle_sequence() {
    let input = vec!["[.#.#] (0,1) (1,2) (2,3) {0,1,0,1}".to_string()];
    let result = part1(&input);
    assert!(result.is_ok());
    assert_eq!(result.unwrap(), 2);
}

#[test]
fn test_no_curly_braces() {
    let input = vec!["[.##.] (3) (1,3) (2) (2,3) (0,2) (0,1)".to_string()];
    assert!(part1(&input).is_err());
}

#[test]
fn test_single_on_multiple_ways() {
    let input = vec!["[#...] (0) (0,1) (0,2) {1,0,0,0}".to_string()];
    assert_eq!(part1(&input).unwrap(), 1);
}

#[test]
fn claude_day10_test_part2_example_1() {
    let input = vec!["[.##.] (3) (1,3) (2) (2,3) (0,2) (0,1) {3,5,4,7}".to_string()];
    assert_eq!(part2(&input).unwrap(), 10);
}

#[test]
fn claude_day10_test_part2_example_2() {
    let input =
        vec!["[...#.] (0,2,3,4) (2,3) (0,4) (0,1,2) (1,2,3,4) {7,5,12,7,2}".to_string()];
    assert_eq!(part2(&input).unwrap(), 12);
}

#[test]
fn claude_day10_test_part2_example_3() {
    let input =
        vec!["[.###.#] (0,1,2,3,4) (0,3,4) (0,1,2,4,5) (1,2) {10,11,11,5,10,5}".to_string()];
    assert_eq!(part2(&input).unwrap(), 11);
}

#[test]
fn test_part2_all_examples_combined() {
    let input = vec![
        "[.##.] (3) (1,3) (2) (2,3) (0,2) (0,1) {3,5,4,7}".to_string(),
        "[...#.] (0,2,3,4) (2,3) (0,4) (0,1,2) (1,2,3,4) {7,5,12,7,2}".to_string(),
        "[.###.#] (0,1,2,3,4) (0,3,4) (0,1,2,4,5) (1,2) {10,11,11,5,10,5}".to_string(),
    ];
    assert_eq!(part2(&input).unwrap(), 33);
}

#[test]
fn test_part2_already_at_goal() {
    let input = vec!["[....] (0) (1) (2,3) {0,0,0,0}".to_string()];
    assert_eq!(part2(&input).unwrap(), 0);
}

#[test]
fn test_part2_single_position() {
    let input = vec!["[#] (0) {5}".to_string()];
    assert_eq!(part2(&input).unwrap(), 5);
}

#[test]
fn test_part2_single_step_needed() {
    let input = vec!["[##] (0,1) {1,1}".to_string()];
    assert_eq!(part2(&input).unwrap(), 1);
}

#[test]
fn test_part2_unreachable_target() {
    let input = vec!["[.#.] (0) (2) {1,1,1}".to_string()];
    assert!(part2(&input).is_err());
}

#[test]
fn test_part2_multiple_applications() {
    let input = vec!["[##] (0) (1) {3,4}".to_string()];
    assert_eq!(part2(&input).unwrap(), 7);
}

#[test]
fn test_part2_overlapping_steps() {
    let input = vec!["[###] (0,1) (1,2) {2,3,1}".to_string()];
    assert_eq!(part2(&input).unwrap(), 3);
}

#[test]
fn test_part2_too_many_steps() {
    let endstate = ".".repeat(65);
    let steps = (0..65)
        .map(|i| format!("({})", i))
        .collect::<Vec<_>>()
        .join(" ");
    let targets = vec!["1"; 65].join(",");
    let input = vec![format!("[{}] {} {{{}}}", endstate, steps, targets)];
    assert!(part2(&input).is_err());
}

#[test]
fn test_part2_mismatched_length() {
    let input = vec!["[....] (0) (1) (2) (3) {1,2,3}".to_string()];
    assert!(part2(&input).is_err());
}

#[test]
fn test_part2_larger_targets() {
    let input = vec!["[#] (0) {10}".to_string()];
    assert_eq!(part2(&input).unwrap(), 10);
}

#[test]
fn test_part2_complex_combination() {
    let input = vec!["[####] (0,1) (1,2) (2,3) (0,3) {3,3,3,3}".to_string()];
    let result = part2(&input);
    assert!(result.is_ok());
    assert!(result.unwrap() > 0);
}

#[test]
fn claude_day10_test_part2_no_overlap() {
    let input = vec!["[##] (0) (1) {5,7}".to_string()];
    assert_eq!(part2(&input).unwrap(), 12);
}

#[test]
fn test_part1_error_message_includes_line_number() {
    let input = vec![
        "[#] (0) {1}".to_string(),
        "[.#.] (0) (2) {0,1,0}".to_string(),
    ];
    let result = part1(&input);
    assert!(result.is_err());
    let err_msg = result.unwrap_err().to_string();
    assert!(err_msg.contains("line 2"));
    assert!(err_msg.contains("unreachable"));
}

#[test]
fn test_part2_error_message_includes_line_number() {
    let input = vec![
        "[#] (0) {5}".to_string(),
        "[.#.] (0) (2) {1,1,1}".to_string(),
    ];
    let result = part2(&input);
    assert!(result.is_err());
    let err_msg = result.unwrap_err().to_string();
    assert!(err_msg.contains("line 2"));
    assert!(err_msg.contains("cannot be reached"));
}

#[test]
fn test_part1_stops_on_first_unsolvable() {
    let input = vec![
        "[#] (0) {1}".to_string(),
        "[.#.] (0) (2) {0,1,0}".to_string(),
        "[##] (0,1) {1,1}".to_string(),
    ];
    let result = part1(&input);
    assert!(result.is_err());
}

#[test]
fn test_part2_impossible_target_too_high() {
    let input = vec!["[##] (0) (0) {1,5}".to_string()];
    assert!(part2(&input).is_err());
}

#[test]
fn test_part2_early_detection_optimization() {
    let input = vec!["[###] (0) (1) {1,1,5}".to_string()];
    let result = part2(&input);
    assert!(result.is_err());
}

#[test]
fn test_part2_zero_targets_with_steps() {
    let input = vec!["[##] (0) (1) {0,0}".to_string()];
    assert_eq!(part2(&input).unwrap(), 0);
}
