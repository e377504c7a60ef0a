use rust_advent::dial_basic::part1;

#[test]
fn claude_day01_test_part1_example() {
    let input = vec![
        "L68".to_string(),
        "L30".to_string(),
        "R48".to_string(),
        "L5".to_string(),
        "R60".to_string(),
        "L55".to_string(),
        "L1".to_string(),
        "L99".to_string(),
        "R14".to_string(),
        "L82".to_string(),
    ];
    assert_eq!(part1(&input), 3);
}

#[test]
fn test_dial_wrapping() {
    let input = vec!["L50".to_string(), "L1".to_string()];
    assert_eq!(part1(&input), 1);

    let input = vec!["R49".to_string(), "R1".to_string()];
    assert_eq!(part1(&input), 1);
}

#[test]
fn claude_day01_test_multiple_zeros() {
    let input = vec![
        "L50".to_string(),
        "R100".to_string(),
        "L100".to_string(),
    ];
    assert_eq!(part1(&input), 3);
}
