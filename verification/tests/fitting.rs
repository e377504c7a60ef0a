use rust_advent::crowding::grid_fits;
use rust_advent::crowding_queue::lines_fit;
use rust_advent::dial::{passes_fit, turns_fit};
use rust_advent::digit_rows::rows_fit;
use rust_advent::ranges::{check_ends, check_ranges};
use rust_advent::repeats::{checked_sum_in_range, try_sum_over_ranges};
use rust_advent::RangeData;

fn lines(text: &[&str]) -> Vec<String> {
    text.iter().map(|s| s.to_string()).collect()
}

#[test]
fn turns_that_fit_and_turns_that_do_not() {
    assert!(turns_fit(&lines(&["L68", "R48", "x5"]), false));
    assert!(!turns_fit(&lines(&["L68", "R48", "x5"]), true));
    assert!(turns_fit(&lines(&["L68", "R48"]), true));
    assert!(turns_fit(&lines(&[]), true));
    assert!(!turns_fit(&lines(&["L68", ""]), false));
    assert!(!turns_fit(&lines(&["L"]), false));
    assert!(!turns_fit(&lines(&["Lx"]), false));
    assert!(turns_fit(&lines(&["L2147483392"]), false));
    assert!(!turns_fit(&lines(&["L2147483393"]), false));
    assert!(turns_fit(&lines(&["R-2147483392"]), false));
    assert!(!turns_fit(&lines(&["R-2147483393"]), false));
}

#[test]
fn passes_that_fit_32_bits() {
    assert!(passes_fit(&lines(&["L68", "R48", "L1000"])));
    let far: Vec<String> = (0..100).map(|_| "R2147483392".to_string()).collect();
    assert!(passes_fit(&far));
    let further: Vec<String> = (0..101).map(|_| "R2147483392".to_string()).collect();
    assert!(!passes_fit(&further));
}

#[test]
fn ranges_that_fit() {
    let data = |ranges: Vec<(isize, isize)>| RangeData { ranges, values: vec![] };
    assert!(check_ends(&data(vec![(5, 1), (0, isize::MAX - 1)])));
    assert!(!check_ends(&data(vec![(0, 1), (0, isize::MAX)])));
    assert!(check_ranges(&data(vec![])));
    assert!(check_ranges(&data(vec![(3, 5), (-7, 2)])));
    assert!(!check_ranges(&data(vec![(3, 5), (2, 1)])));
    assert!(!check_ranges(&data(vec![(0, isize::MAX)])));
    assert!(check_ranges(&data(vec![(1, isize::MAX - 1)])));
    assert!(!check_ranges(&data(vec![(0, isize::MAX - 1)])));
    assert!(check_ranges(&data(vec![(-5, -4), (isize::MAX - 9, isize::MAX - 8)])));
    assert!(!check_ranges(&data(vec![(-5, -4), (isize::MAX - 7, isize::MAX - 6)])));
}

#[test]
fn grids_that_fit() {
    assert!(grid_fits(&lines(&[])));
    assert!(grid_fits(&lines(&["@.@", "..@", "@@@@"])));
    assert!(!grid_fits(&lines(&["@.@", "..", "@@@"])));
    assert!(lines_fit(&lines(&["@.@", "..", "@@@"])));
    assert!(lines_fit(&lines(&[])));
}

#[test]
fn rows_that_fit() {
    assert!(rows_fit(&vec![vec![1, 2, 3]; 10]));
    assert!(rows_fit(&vec![]));
    assert!(rows_fit(&vec![vec![]; 500_001]));
    assert!(rows_fit(&vec![vec![255; 12]; 651_061]));
    assert!(!rows_fit(&vec![vec![255; 12]; 651_062]));
}

#[test]
fn checked_sums_over_ranges() {
    assert_eq!(checked_sum_in_range(11, 22, false), Some(33));
    assert_eq!(checked_sum_in_range(95, 115, false), Some(99));
    assert_eq!(checked_sum_in_range(95, 115, true), Some(99 + 111));
    assert_eq!(checked_sum_in_range(5, 4, true), Some(0));
    assert_eq!(checked_sum_in_range(0, 0, false), Some(0));
    assert_eq!(try_sum_over_ranges("11-22, 95-115", false), Some(33 + 99));
    assert_eq!(try_sum_over_ranges("11-22,95-115", true), Some(33 + 99 + 111));
    assert_eq!(try_sum_over_ranges("11-22,,7", false), Some(33));
    assert_eq!(try_sum_over_ranges("", false), Some(0));
    assert_eq!(try_sum_over_ranges("11-x", false), None);
    assert_eq!(try_sum_over_ranges("-22", false), None);
    assert_eq!(try_sum_over_ranges("11-22-33", false), None);
    let top = "18446744073709551615-18446744073709551615";
    assert_eq!(try_sum_over_ranges(top, false), Some(0));
    let wide = "9999999999999999999-9999999999999999999";
    assert_eq!(try_sum_over_ranges(wide, true), Some(9_999_999_999_999_999_999));
    assert_eq!(try_sum_over_ranges(&format!("{},{}", wide, wide), true), None);
}
