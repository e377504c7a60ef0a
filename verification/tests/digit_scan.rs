use rust_advent::digit_scan::{part1, part2};

#[test]
fn antigravity_day03_test_example() {
    let grid = vec![
        vec![9, 8, 7, 6, 5, 4, 3, 2, 1, 1, 1, 1, 1, 1, 1],
        vec![8, 1, 1, 1, 1, 1, 1, 1, 1, 1, 1, 1, 1, 1, 9],
        vec![2, 3, 4, 2, 3, 4, 2, 3, 4, 2, 3, 4, 2, 7, 8],
        vec![8, 1, 8, 1, 8, 1, 9, 1, 1, 1, 1, 2, 1, 1, 1],
    ];
    assert_eq!(part1(&grid), 357);
}

#[test]
fn antigravity_day03_test_example_part2() {
    let grid = vec![
        vec![9, 8, 7, 6, 5, 4, 3, 2, 1, 1, 1, 1, 1, 1, 1],
        vec![8, 1, 1, 1, 1, 1, 1, 1, 1, 1, 1, 1, 1, 1, 9],
        vec![2, 3, 4, 2, 3, 4, 2, 3, 4, 2, 3, 4, 2, 7, 8],
        vec![8, 1, 8, 1, 8, 1, 9, 1, 1, 1, 1, 2, 1, 1, 1],
    ];
    assert_eq!(part2(&grid), 3121910778619);
}

#[test]
fn test_part2_edge_cases() {
    assert_eq!(
        part2(&vec![vec![1, 2, 3, 4, 5, 6, 7, 8, 9, 0, 1, 2]]),
        123456789012
    );

    assert_eq!(
        part2(&vec![vec![9, 8, 7, 0, 0, 0, 0, 0, 0, 0, 0, 0, 0, 0]]),
        987000000000
    );

    assert_eq!(
        part2(&vec![vec![1, 1, 1, 1, 1, 1, 1, 1, 1, 1, 1, 1, 9]]),
        111111111119
    );

    assert_eq!(
        part2(&vec![vec![0, 0, 0, 1, 2, 3, 4, 5, 6, 7, 8, 9, 0, 1, 2]]),
        123456789012
    );
}
