use rust_advent::homework;
use rust_advent::search;
use rust_advent::solver::{self, Problem};

fn lines(text: &[&str]) -> Vec<String> {
    text.iter().map(|s| s.to_string()).collect()
}

#[test]
fn what_the_main_reader_says_of_each_fault() {
    let said = |line: &str| Problem::parse(line).unwrap_err();
    assert_eq!(said(""), "Empty input");
    assert_eq!(said("   "), "Empty input");
    assert_eq!(said("(1) [.#]"), "Invalid endstate format");
    assert_eq!(said("[.# (1)"), "Invalid endstate format");
    assert_eq!(said("[] (1)"), "Endstate cannot be empty");
    assert_eq!(said(&format!("[{}] (1)", ".".repeat(33))), "Too many positions: 33");
    assert_eq!(said("[.a#b] (1)"), "Invalid char in endstate: a");
    assert_eq!(said("[.#] (1) {1,x}"), "Invalid number in target counts");
    assert_eq!(said("[.#] (1,) {1,1}"), "Invalid number in step");
    assert_eq!(said("[.#] (0) (1,+0,-1) {1,1}"), "Invalid number in step");
    assert_eq!(said("[.#] (0) (2) (x)"), "Step index 2 out of bounds (size 2)");
    assert_eq!(said("[.#] {1,1}"), "No steps provided");
    assert_eq!(said("[.#] word"), "No steps provided");
    let many: String = (0..64).map(|_| "(0) ").collect();
    assert_eq!(said(&format!("[.#] {}", many)), "Too many steps: 64");
    assert_eq!(said("[.#] (0) {1,2,3}"), "Target counts length 3 does not match positions 2");
    assert_eq!(said("[.#] (0) {1} {2} {3}"), "Target counts length 3 does not match positions 2");
}

#[test]
fn what_the_main_sum_says() {
    assert_eq!(solver::part1(&lines(&["[#] (0)", "[#x] (0)"])), Err("Invalid char in endstate: x".to_string()));
    assert_eq!(
        solver::part1(&lines(&["[#] (0)", "[##] (0)", "[] (0)"])),
        Err("No solution found for: [##] (0)".to_string())
    );
    assert_eq!(solver::part2(&lines(&["[#] (0) {2}", "[#] (0)"])), Err("Missing target counts for Part 2".to_string()));
    assert_eq!(
        solver::part2(&lines(&["[#.] (0) {2,1}"])),
        Err("No solution found for: [#.] (0) {2,1}".to_string())
    );
    assert_eq!(solver::part1(&lines(&["[#] (0)", "[.#] (0) (1)"])), Ok(2));
    assert_eq!(solver::part2(&lines(&["[#] (0) {4}", "[.#] (0) (1) {2,3}"])), Ok(9));
}

#[test]
fn what_the_search_reader_says_of_each_fault() {
    let said = |line: &str| search::parse_configuration(line).unwrap_err();
    assert_eq!(said(".# (1) {1,1}"), "missing '['");
    assert_eq!(said("[.# (1) {1,1}"), "missing ']'");
    assert_eq!(said("[] (1) {1,1}"), "endstate is empty");
    assert_eq!(said(&format!("[{}] (1) {{1}}", "#".repeat(40))), "too many positions: 40");
    assert_eq!(said("[.?] (1) {1,1}"), "invalid endstate char '?'");
    assert_eq!(said("[.#] (1 {1,1}"), "missing ')' in step");
    assert_eq!(said("[.#] ( ) {1,1}"), "empty step");
    assert_eq!(said("[.#] (1,,0) {1,1}"), "empty index in step");
    assert_eq!(said("[.#] (1, y) {1,1}"), "invalid index 'y'");
    assert_eq!(said("[.#] (0) (1,5) {1,1}"), "index 5 out of range");
    assert_eq!(said("[.#] (0,1,0) {1,1}"), "duplicate index 0 in step");
    assert_eq!(said("[.#] {1,1}"), "no steps provided");
    assert_eq!(said("[.#] (1)"), "missing '{'");
    assert_eq!(said("[.#] (1) {1,1"), "missing '}'");
    assert_eq!(said("[.#] (1) { }"), "empty target list");
    assert_eq!(said("[.#] (1) {1,,2}"), "empty target value");
    assert_eq!(said("[.#] (1) {1,z}"), "invalid target 'z'");
    assert_eq!(said("[.#] (1) {1,2,3}"), "target length 3 does not match positions 2");
}

#[test]
fn what_the_search_sum_says() {
    assert_eq!(search::part1(&lines(&["[#] (0) {1}", "[#] {1}"])), Err("line 2: no steps provided".to_string()));
    assert_eq!(search::part1(&lines(&["[##] (0) {1,1}"])), Err("line 1: no solution found".to_string()));
    assert_eq!(search::part2(&lines(&["[#.] (0) {1,1}"])), Err("line 1: no solution found".to_string()));
    let many: String = (0..64).map(|_| "(0) ").collect();
    assert_eq!(search::part1(&lines(&[&format!("[#] {}{{1}}", many)])), Err("line 1: too many steps".to_string()));
    assert_eq!(search::part2(&lines(&["[#] (0) {7}", "[.#] (0) (1) {2,3}"])), Ok(12));
    assert_eq!(search::part1(&lines(&["[#] (0) {7}", "[.#] (0) (1) {2,3}"])), Ok(2));
}

#[test]
fn what_the_homework_says_of_each_fault() {
    let along = |text: &[&str]| homework::part1(&lines(text)).unwrap_err();
    assert_eq!(along(&["1", "+"]), "Not enough lines: need at least 3, got 2");
    assert_eq!(along(&["1 2", "3 x4 y", "+ +"]), "Invalid number: x4");
    assert_eq!(along(&["1 2", "3 4", "5", "+ +"]), "Inconsistent number of columns: expected 2, got 1");
    assert_eq!(along(&["1 2", "3 4", "+"]), "Number of operators (1) doesn't match number of columns (2)");
    assert_eq!(along(&["1 2", "3 4", "+ -x"]), "Invalid operator: -");
    assert_eq!(along(&["2147483647", "2147483647", "2147483647", "*"]), "Result does not fit 64 bits");
    let down = |text: &[&str]| homework::part2(&lines(text)).unwrap_err();
    assert_eq!(down(&[]), "Not enough lines: need at least 3, got 0");
    assert_eq!(down(&["1", "2", " "]), "No operators found in operator row");
    assert_eq!(down(&["1", "2", "+/"]), "Invalid operator: /");
    let nines: Vec<&str> = (0..19).map(|_| "9").collect();
    let mut sheet = nines.clone();
    sheet.push("+");
    assert_eq!(down(&sheet), "Failed to parse number: too large");
    let mut wide: Vec<&str> = (0..18).map(|_| "99").collect();
    wide.push("* ");
    assert_eq!(down(&wide), "Result does not fit 64 bits");
}
