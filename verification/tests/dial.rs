use rust_advent::dial::{part1, part2};

#[test]
fn antigravity_day01_test_part1_example() {
    let input = vec![
        "L68".to_string(),
        "L30".to_string(),
        "R48".to_string(),
        "L5".to_string(),
        "R60".to_string(),
        "L55".to_string(),
        "L1".to_string(),
        "L99".to_string(),
        "R14".to_string(),
        "L82".to_string(),
    ];
    assert_eq!(part1(&input), 3);
}

#[test]
fn test_wrapping() {
    let input = vec!["L50".to_string(), "L1".to_string(), "R1".to_string()];
    assert_eq!(part1(&input), 2);
}

#[test]
fn test_full_rotation() {
    let input = vec![
        "R100".to_string(),
        "L100".to_string(),
        "L50".to_string(),
        "R100".to_string(),
    ];
    assert_eq!(part1(&input), 2);
}

#[test]
fn antigravity_day01_test_no_zeros() {
    let input = vec!["R10".to_string(), "L20".to_string()];
    assert_eq!(part1(&input), 0);
}

#[test]
fn antigravity_day01_test_part2_example() {
    let input = vec![
        "L68".to_string(),
        "L30".to_string(),
        "R48".to_string(),
        "L5".to_string(),
        "R60".to_string(),
        "L55".to_string(),
        "L1".to_string(),
        "L99".to_string(),
        "R14".to_string(),
        "L82".to_string(),
    ];
    assert_eq!(part2(&input), 6);
}

#[test]
fn test_part2_full_rotation() {
    let input = vec!["R1000".to_string()];
    assert_eq!(part2(&input), 10);
}

#[test]
fn test_part2_start_zero_left() {
    let input = vec!["L50".to_string(), "L100".to_string()];
    assert_eq!(part2(&input), 2);
}

#[test]
fn test_part2_start_zero_right() {
    let input = vec!["R50".to_string(), "R100".to_string()];
    assert_eq!(part2(&input), 2);
}
