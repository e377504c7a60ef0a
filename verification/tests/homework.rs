use rust_advent::homework::{part1, part2};

#[test]
fn claude_day06_test_part1_example1() {
    let input = vec![
        "5 3 7 2".to_string(),
        "2 1 4 1".to_string(),
        "6 5 1 0".to_string(),
        "* + * *".to_string(),
    ];
    assert_eq!(part1(&input).unwrap(), 97);
}

#[test]
fn claude_day06_test_part1_example2() {
    let input = vec![
        "123 328  51 64 ".to_string(),
        " 45 64  387 23 ".to_string(),
        "  6 98  215 314".to_string(),
        "*   +   *   +  ".to_string(),
    ];
    assert_eq!(part1(&input).unwrap(), 4277556);
}

#[test]
fn test_part1_minimum_rows() {
    let input = vec![
        "10 20".to_string(),
        "5 3".to_string(),
        "+ *".to_string(),
    ];
    assert_eq!(part1(&input).unwrap(), 75);
}

#[test]
fn claude_day06_test_part1_all_addition() {
    let input = vec![
        "1 2 3".to_string(),
        "4 5 6".to_string(),
        "7 8 9".to_string(),
        "+ + +".to_string(),
    ];
    assert_eq!(part1(&input).unwrap(), 45);
}

#[test]
fn claude_day06_test_part1_all_multiplication() {
    let input = vec![
        "2 3 4".to_string(),
        "5 2 1".to_string(),
        "3 4 5".to_string(),
        "* * *".to_string(),
    ];
    assert_eq!(part1(&input).unwrap(), 74);
}

#[test]
fn test_part1_single_column() {
    let input = vec![
        "10".to_string(),
        "20".to_string(),
        "30".to_string(),
        "+".to_string(),
    ];
    assert_eq!(part1(&input).unwrap(), 60);
}

#[test]
fn claude_day06_test_part1_with_zeros() {
    let input = vec![
        "0 5 10".to_string(),
        "1 0 2".to_string(),
        "+ + *".to_string(),
    ];
    assert_eq!(part1(&input).unwrap(), 26);
}

#[test]
fn test_part1_multiplication_with_zero() {
    let input = vec![
        "5 10".to_string(),
        "0 2".to_string(),
        "* *".to_string(),
    ];
    assert_eq!(part1(&input).unwrap(), 20);
}

#[test]
fn test_part1_too_few_lines() {
    let input = vec![
        "1 2".to_string(),
        "+ *".to_string(),
    ];
    let result = part1(&input);
    assert!(result.is_err());
    assert!(result.unwrap_err().contains("Not enough lines"));
}

#[test]
fn test_part1_inconsistent_columns() {
    let input = vec![
        "1 2 3".to_string(),
        "4 5".to_string(),
        "+ * *".to_string(),
    ];
    let result = part1(&input);
    assert!(result.is_err());
    assert!(result.unwrap_err().contains("Inconsistent number of columns"));
}

#[test]
fn test_part1_wrong_number_of_operators() {
    let input = vec![
        "1 2 3".to_string(),
        "4 5 6".to_string(),
        "+ *".to_string(),
    ];
    let result = part1(&input);
    assert!(result.is_err());
    assert!(result.unwrap_err().contains("Number of operators"));
}

#[test]
fn test_part1_invalid_number() {
    let input = vec![
        "1 2 abc".to_string(),
        "4 5 6".to_string(),
        "+ * *".to_string(),
    ];
    let result = part1(&input);
    assert!(result.is_err());
    assert!(result.unwrap_err().contains("Invalid number"));
}

#[test]
fn test_part1_invalid_operator() {
    let input = vec![
        "1 2 3".to_string(),
        "4 5 6".to_string(),
        "+ - *".to_string(),
    ];
    let result = part1(&input);
    assert!(result.is_err());
    assert!(result.unwrap_err().contains("Invalid operator"));
}

#[test]
fn claude_day06_test_part2_example1() {
    let input = vec![
        "64  113".to_string(),
        "23  422".to_string(),
        "431 101".to_string(),
        "720  5".to_string(),
        "*   +".to_string(),
    ];

    assert_eq!(part2(&input).unwrap(), 270621707);
}

#[test]
fn claude_day06_test_part2_example2() {
    let input = vec![
        "123 328  51 64 ".to_string(),
        " 45 64  387 23 ".to_string(),
        "  6 98  215 314".to_string(),
        "*   +   *   +  ".to_string(),
    ];
    assert_eq!(part2(&input).unwrap(), 3263827);
}

#[test]
fn test_part2_simple_single_problem() {
    let input = vec![
        "123".to_string(),
        "456".to_string(),
        "+".to_string(),
    ];
    assert_eq!(part2(&input).unwrap(), 75);
}

#[test]
fn test_part2_all_addition() {
    let input = vec![
        "12 34".to_string(),
        "56 78".to_string(),
        "+  + ".to_string(),
    ];
    assert!(part2(&input).is_ok());
}

#[test]
fn test_part2_all_multiplication() {
    let input = vec![
        "12 34".to_string(),
        "56 78".to_string(),
        "*  * ".to_string(),
    ];
    assert!(part2(&input).is_ok());
}

#[test]
fn test_part2_mixed_operators() {
    let input = vec![
        "12 34".to_string(),
        "56 78".to_string(),
        "*  + ".to_string(),
    ];
    assert!(part2(&input).is_ok());
}

#[test]
fn test_part2_sparse_columns() {
    let input = vec![
        "1  2".to_string(),
        "3  4".to_string(),
        "+  *".to_string(),
    ];
    assert!(part2(&input).is_ok());
}

#[test]
fn test_part2_single_digit_numbers() {
    let input = vec![
        "1 2 3".to_string(),
        "4 5 6".to_string(),
        "+ * +".to_string(),
    ];
    assert!(part2(&input).is_ok());
}

#[test]
fn test_part2_too_few_lines() {
    let input = vec![
        "123".to_string(),
        "+".to_string(),
    ];
    let result = part2(&input);
    assert!(result.is_err());
    assert!(result.unwrap_err().contains("Not enough lines"));
}

#[test]
fn test_part2_no_operators() {
    let input = vec![
        "123".to_string(),
        "456".to_string(),
        "   ".to_string(),
    ];
    let result = part2(&input);
    assert!(result.is_err());
    assert!(result.unwrap_err().contains("No operators found"));
}

#[test]
fn test_part2_invalid_operator() {
    let input = vec![
        "123".to_string(),
        "456".to_string(),
        "-".to_string(),
    ];
    let result = part2(&input);
    assert!(result.is_err());
    assert!(result.unwrap_err().contains("Invalid operator"));
}
