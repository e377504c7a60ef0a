use rust_advent::best_first::min_steps_part2;
use rust_advent::search::{min_steps, parse_configuration, part1, part2};

#[test]
fn examples_from_prompt() {
    let input = vec![
        "[.##.] (3) (1,3) (2) (2,3) (0,2) (0,1) {3,5,4,7}".to_string(),
        "[...#.] (0,2,3,4) (2,3) (0,4) (0,1,2) (1,2,3,4) {7,5,12,7,2}".to_string(),
        "[.###.#] (0,1,2,3,4) (0,3,4) (0,1,2,4,5) (1,2) {10,11,11,5,10,5}".to_string(),
    ];
    let result = part1(&input).expect("part1 ok");
    assert_eq!(result, 7);
}

#[test]
fn zero_steps_needed() {
    let input = vec!["[....] (0) {0,0,0,0}".to_string()];
    let result = part1(&input).expect("part1 ok");
    assert_eq!(result, 0);
}

#[test]
fn no_solution_returns_error() {
    let input = vec!["[#.] (1) {0,0}".to_string()];
    let err = part1(&input).unwrap_err();
    assert!(err.contains("no solution"));
}

#[test]
fn parse_rejects_invalid_index() {
    let err = parse_configuration("[.#] (2) {0}").unwrap_err();
    assert!(err.contains("out of range"));
}

#[test]
fn parse_rejects_empty_steps() {
    let err = parse_configuration("[#.] {1}").unwrap_err();
    assert!(err.contains("no steps"));
}

#[test]
fn parse_rejects_too_many_positions() {
    let line = format!("[{}] (0) {{1}}", "#".repeat(33));
    let err = parse_configuration(&line).unwrap_err();
    assert!(err.contains("too many positions"));
}

#[test]
fn min_steps_simple() {
    let (end_mask, steps, _targets, positions) =
        parse_configuration("[#] (0) {1}").expect("parse ok");
    let steps_needed = min_steps(end_mask, &steps, positions).expect("solution exists");
    assert_eq!(steps_needed, 1);
}

#[test]
fn part2_examples_from_prompt() {
    let input = vec![
        "[.##.] (3) (1,3) (2) (2,3) (0,2) (0,1) {3,5,4,7}".to_string(),
        "[...#.] (0,2,3,4) (2,3) (0,4) (0,1,2) (1,2,3,4) {7,5,12,7,2}".to_string(),
        "[.###.#] (0,1,2,3,4) (0,3,4) (0,1,2,4,5) (1,2) {10,11,11,5,10,5}".to_string(),
    ];
    let result = part2(&input).expect("part2 ok");
    assert_eq!(result, 33);
}

#[test]
fn part2_simple_case() {
    let input = vec!["[#] (0) {4}".to_string()];
    let result = part2(&input).expect("part2 ok");
    assert_eq!(result, 4);
}

#[test]
fn part2_overlap_prefers_combo() {
    let input = vec!["[..] (0) (1) (0,1) {2,2}".to_string()];
    let result = part2(&input).expect("part2 ok");
    assert_eq!(result, 2);
}

#[test]
fn part2_no_solution_due_to_missing_coverage() {
    let input = vec!["[..] (0) {0,1}".to_string()];
    let err = part2(&input).unwrap_err();
    assert!(err.contains("no solution"));
}

#[test]
fn part2_no_solution_parity() {
    let input = vec!["[..] (0,1) {1,0}".to_string()];
    let err = part2(&input).unwrap_err();
    assert!(err.contains("no solution"));
}

#[test]
fn part2_even_target_with_odd_counts() {
    let input = vec!["[...] (0,1) (1,2) (0,2) {2,2,2}".to_string()];
    let result = part2(&input).expect("part2 ok");
    assert_eq!(result, 3);
}

#[test]
fn min_steps_part2_direct() {
    let (_end_mask, step_masks, targets, positions) =
        parse_configuration("[..] (0) (1) {1,2}").expect("parse ok");
    let steps = min_steps_part2(&step_masks, &targets, positions).expect("solution exists");
    assert_eq!(steps, 3);
}
