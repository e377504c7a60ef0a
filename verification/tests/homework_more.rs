use rust_advent::homework::{column_number, find_operators, part1, part2, read_numbers, read_operators};

fn lines(text: &[&str]) -> Vec<String> {
    text.iter().map(|s| s.to_string()).collect()
}

#[test]
fn columns_along_the_lines() {
    assert_eq!(part1(&lines(&["1 2 3", "4 5 6", "+ * +"])), Ok(5 + 10 + 9));
    assert_eq!(part1(&lines(&["-1 2", "4 -5", "7 0", "* +"])), Ok(-28 - 3));
    assert_eq!(part1(&lines(&["", "", ""])), Ok(0));
    assert_eq!(part1(&lines(&["2 3", "4 5", "+x *y"])), Ok(6 + 15));
}

#[test]
fn columns_along_the_lines_that_fail() {
    assert!(part1(&lines(&["1 2", "+ +"])).is_err());
    assert!(part1(&lines(&["1 2", "3", "+ +"])).is_err());
    assert!(part1(&lines(&["1 2", "3 4", "+"])).is_err());
    assert!(part1(&lines(&["1 2", "3 4", "+ -"])).is_err());
    assert!(part1(&lines(&["1 2x", "3 4", "+ +"])).is_err());
    assert!(part1(&lines(&["2147483648 2", "3 4", "+ +"])).is_err());
}

#[test]
fn products_that_leave_64_bits() {
    let big = "2147483647";
    assert!(part1(&lines(&[big, big, big, "*"])).is_err());
    assert_eq!(part1(&lines(&[big, big, "*"])), Ok(2147483647i64 * 2147483647i64));
    let mut sheet = vec![big.to_string(), big.to_string(), big.to_string(), "0".to_string()];
    sheet.push("*".to_string());
    assert!(part1(&sheet).is_err());
}

#[test]
fn numbers_down_the_columns() {
    assert_eq!(part2(&lines(&["12", "34", "+ "])), Ok(24 + 13));
    assert_eq!(part2(&lines(&["12", "34", "* "])), Ok(24 * 13));
    assert_eq!(part2(&lines(&["12", "34", "+*"])), Ok(13 + 24));
    assert_eq!(part2(&lines(&["12", "34", " +"])), Ok(24));
    assert_eq!(part2(&lines(&["  ", "  ", "+ "])), Ok(0));
    assert_eq!(part2(&lines(&["1", "2", "*   "])), Ok(12));
    assert_eq!(part2(&lines(&["1 9", "2 9", "*"])), Ok(99 * 12));
}

#[test]
fn numbers_down_the_columns_that_fail() {
    assert!(part2(&lines(&["12", "+ "])).is_err());
    assert!(part2(&lines(&["12", "34", "  "])).is_err());
    assert!(part2(&lines(&["12", "34", "+-"])).is_err());
    let nines: Vec<String> = (0..19).map(|_| "9".to_string()).collect();
    let mut sheet = nines.clone();
    sheet.push("+".to_string());
    assert!(part2(&sheet).is_err());
    let mut fits: Vec<String> = (0..18).map(|_| "9".to_string()).collect();
    fits.push("+".to_string());
    assert_eq!(part2(&fits), Ok(999_999_999_999_999_999));
}

#[test]
fn pieces_of_the_sheet() {
    assert_eq!(read_numbers(" 3  -4 +5 "), Ok(vec![3, -4, 5]));
    assert!(read_numbers("3 four").is_err());
    assert_eq!(read_operators(" +  *x y"), vec![(1, b'+'), (4, b'*'), (7, b'y')]);
    assert_eq!(find_operators(" +  *x y"), vec![(1, b'+'), (4, b'*'), (5, b'x'), (7, b'y')]);
    let sheet = lines(&["1a", " 2", "3"]);
    assert_eq!(column_number(&sheet, 3, 0), Ok(Some(13)));
    assert_eq!(column_number(&sheet, 2, 0), Ok(Some(1)));
    assert_eq!(column_number(&sheet, 3, 1), Ok(Some(2)));
    assert_eq!(column_number(&sheet, 3, 2), Ok(None));
}
