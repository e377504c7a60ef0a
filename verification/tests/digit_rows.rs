use rust_advent::digit_rows::{digits_to_number, part1, part2};

#[test]
fn test_simple_example() {
    let grid = vec![vec![1, 5, 3, 7]];
    assert_eq!(part1(&grid), 57);
}

#[test]
fn cursor_day03_test_larger_example() {
    let grid = vec![
        vec![9, 8, 7, 6, 5, 4, 3, 2, 1, 1, 1, 1, 1, 1, 1],
        vec![8, 1, 1, 1, 1, 1, 1, 1, 1, 1, 1, 1, 1, 1, 9],
        vec![2, 3, 4, 2, 3, 4, 2, 3, 4, 2, 3, 4, 2, 7, 8],
        vec![8, 1, 8, 1, 8, 1, 9, 1, 1, 1, 1, 2, 1, 1, 1],
    ];
    assert_eq!(part1(&grid), 357);
}

#[test]
fn cursor_day03_test_single_row() {
    let grid = vec![vec![1, 2, 5, 2, 1]];
    assert_eq!(part1(&grid), 52);
}

#[test]
fn test_row_with_duplicates() {
    let grid = vec![vec![9, 9, 9]];
    assert_eq!(part1(&grid), 99);
}

#[test]
fn test_row_two_elements() {
    let grid = vec![vec![4, 2]];
    assert_eq!(part1(&grid), 42);
}

#[test]
fn cursor_day03_test_empty_grid() {
    let grid: Vec<Vec<u8>> = vec![];
    assert_eq!(part1(&grid), 0);
}

#[test]
fn test_multiple_rows_simple() {
    let grid = vec![
        vec![1, 2],
        vec![3, 4],
    ];
    assert_eq!(part1(&grid), 46);
}

#[test]
fn test_descending_order() {
    let grid = vec![vec![9, 8, 7, 6]];
    assert_eq!(part1(&grid), 98);
}

#[test]
fn test_ascending_order() {
    let grid = vec![vec![1, 2, 3, 4]];
    assert_eq!(part1(&grid), 34);
}

#[test]
fn cursor_day03_test_part2_larger_example() {
    let grid = vec![
        vec![9, 8, 7, 6, 5, 4, 3, 2, 1, 1, 1, 1, 1, 1, 1],
        vec![8, 1, 1, 1, 1, 1, 1, 1, 1, 1, 1, 1, 1, 1, 9],
        vec![2, 3, 4, 2, 3, 4, 2, 3, 4, 2, 3, 4, 2, 7, 8],
        vec![8, 1, 8, 1, 8, 1, 9, 1, 1, 1, 1, 2, 1, 1, 1],
    ];
    assert_eq!(part2(&grid), 3121910778619);
}

#[test]
fn test_part2_exactly_12_digits() {
    let grid = vec![vec![9, 8, 7, 6, 5, 4, 3, 2, 1, 0, 9, 8]];
    assert_eq!(part2(&grid), 987654321098);
}

#[test]
fn test_part2_fewer_than_12_digits() {
    let grid = vec![vec![1, 2, 3, 4, 5]];
    assert_eq!(part2(&grid), 0);
}

#[test]
fn test_part2_descending_order() {
    let grid = vec![vec![9, 8, 7, 6, 5, 4, 3, 2, 1, 0, 9, 8, 7, 6, 5]];
    assert_eq!(part2(&grid), 987654398765);
}

#[test]
fn test_part2_ascending_order() {
    let grid = vec![vec![1, 2, 3, 4, 5, 6, 7, 8, 9, 0, 1, 2, 3, 4, 5]];
    assert_eq!(part2(&grid), 456789012345);
}

#[test]
fn cursor_day03_test_part2_empty_grid() {
    let grid: Vec<Vec<u8>> = vec![];
    assert_eq!(part2(&grid), 0);
}

#[test]
fn test_digits_to_number() {
    assert_eq!(digits_to_number(&[1, 2, 3]), 123);
    assert_eq!(digits_to_number(&[9, 8, 7, 6, 5, 4, 3, 2, 1, 1, 1, 1]), 987654321111);
    assert_eq!(digits_to_number(&[0, 1, 2]), 12);
}
