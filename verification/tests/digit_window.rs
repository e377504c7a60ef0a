use rust_advent::digit_window::{part1, part2};

#[test]
fn test_simple_row() {
    let grid = vec![vec![1, 5, 3, 7]];
    assert_eq!(part1(&grid), 57);
}

#[test]
fn test_four_rows_example() {
    let grid = vec![
        vec![9, 8, 7, 6, 5, 4, 3, 2, 1, 1, 1, 1, 1, 1, 1],
        vec![8, 1, 1, 1, 1, 1, 1, 1, 1, 1, 1, 1, 1, 1, 9],
        vec![2, 3, 4, 2, 3, 4, 2, 3, 4, 2, 3, 4, 2, 7, 8],
        vec![8, 1, 8, 1, 8, 1, 9, 1, 1, 1, 1, 2, 1, 1, 1],
    ];
    assert_eq!(part1(&grid), 357);
}

#[test]
fn test_single_row_max_at_start() {
    let grid = vec![vec![9, 8, 1, 1, 1]];
    assert_eq!(part1(&grid), 98);
}

#[test]
fn test_single_row_max_at_end() {
    let grid = vec![vec![1, 1, 1, 8, 9]];
    assert_eq!(part1(&grid), 89);
}

#[test]
fn test_two_element_row() {
    let grid = vec![vec![3, 7]];
    assert_eq!(part1(&grid), 37);
}

#[test]
fn test_all_same_digits() {
    let grid = vec![vec![5, 5, 5, 5]];
    assert_eq!(part1(&grid), 55);
}

#[test]
fn test_multiple_rows() {
    let grid = vec![
        vec![1, 2, 3],
        vec![9, 1, 1],
        vec![4, 5, 6, 7],
    ];
    assert_eq!(part1(&grid), 23 + 91 + 67);
}

#[test]
fn test_part2_single_row_example1() {
    let grid = vec![vec![9, 8, 7, 6, 5, 4, 3, 2, 1, 1, 1, 1, 1, 1, 1]];
    assert_eq!(part2(&grid), 987654321111);
}

#[test]
fn test_part2_single_row_example2() {
    let grid = vec![vec![8, 1, 1, 1, 1, 1, 1, 1, 1, 1, 1, 1, 1, 1, 9]];
    assert_eq!(part2(&grid), 811111111119);
}

#[test]
fn test_part2_single_row_example3() {
    let grid = vec![vec![2, 3, 4, 2, 3, 4, 2, 3, 4, 2, 3, 4, 2, 7, 8]];
    assert_eq!(part2(&grid), 434234234278);
}

#[test]
fn test_part2_single_row_example4() {
    let grid = vec![vec![8, 1, 8, 1, 8, 1, 9, 1, 1, 1, 1, 2, 1, 1, 1]];
    assert_eq!(part2(&grid), 888911112111);
}

#[test]
fn test_part2_all_examples() {
    let grid = vec![
        vec![9, 8, 7, 6, 5, 4, 3, 2, 1, 1, 1, 1, 1, 1, 1],
        vec![8, 1, 1, 1, 1, 1, 1, 1, 1, 1, 1, 1, 1, 1, 9],
        vec![2, 3, 4, 2, 3, 4, 2, 3, 4, 2, 3, 4, 2, 7, 8],
        vec![8, 1, 8, 1, 8, 1, 9, 1, 1, 1, 1, 2, 1, 1, 1],
    ];
    assert_eq!(part2(&grid), 3121910778619);
}

#[test]
fn test_part2_exactly_12_elements() {
    let grid = vec![vec![9, 8, 7, 6, 5, 4, 3, 2, 1, 0, 9, 8]];
    assert_eq!(part2(&grid), 987654321098);
}

#[test]
fn test_part2_fewer_than_12_elements() {
    let grid = vec![vec![9, 8, 7, 6, 5]];
    assert_eq!(part2(&grid), 0);
}
