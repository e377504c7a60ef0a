use rust_advent::dial_marked::part1;

#[test]
fn cursor_day01_test_example() {
    let inputs = vec![
        "L68".to_string(),
        "L30".to_string(),
        "R48".to_string(),
        "L5".to_string(),
        "R60".to_string(),
        "L55".to_string(),
        "L1".to_string(),
        "L99".to_string(),
        "R14".to_string(),
        "L82".to_string(),
    ];
    assert_eq!(part1(&inputs), 3);
}

#[test]
fn test_single_rotation_to_zero() {
    let inputs = vec!["R50".to_string()];
    assert_eq!(part1(&inputs), 1);
}

#[test]
fn test_wrap_around_left() {
    let inputs = vec!["L50".to_string(), "L1".to_string()];
    assert_eq!(part1(&inputs), 1);
}

#[test]
fn test_wrap_around_right() {
    let inputs = vec!["R50".to_string(), "R1".to_string()];
    assert_eq!(part1(&inputs), 1);
}

#[test]
fn cursor_day01_test_multiple_zeros() {
    let inputs = vec![
        "R50".to_string(),
        "R100".to_string(),
        "L100".to_string(),
    ];
    assert_eq!(part1(&inputs), 3);
}

#[test]
fn cursor_day01_test_no_zeros() {
    let inputs = vec!["R1".to_string(), "R1".to_string(), "R1".to_string()];
    assert_eq!(part1(&inputs), 0);
}

#[test]
fn test_wrap_from_99_to_0() {
    let inputs = vec!["R49".to_string(), "R1".to_string()];
    assert_eq!(part1(&inputs), 1);
}

#[test]
fn test_wrap_from_0_to_99() {
    let inputs = vec!["R50".to_string(), "L1".to_string()];
    assert_eq!(part1(&inputs), 1);
}

