use rust_advent::input::parse_range_data;
use rust_advent::RangeData;
use rust_advent::words::{parse_int_pair, parse_number_row, parse_numbers, word_spans, PairFault};

#[test]
fn test_parse_range_data() {
    let input = "1-4\n7-11\n\n2\n9";
    let expected = RangeData {
        ranges: vec![(1, 4), (7, 11)],
        values: vec![2, 9],
    };
    assert_eq!(parse_range_data(input).unwrap(), expected);
}

#[test]
fn test_parse_range_data_with_extra_newline() {
    let input = "1-4\n7-11\n\n\n2\n9";
    let expected = RangeData {
        ranges: vec![(1, 4), (7, 11)],
        values: vec![2, 9],
    };
    assert_eq!(parse_range_data(input).unwrap(), expected);
}

#[test]
fn test_parse_invalid_range() {
    let input = "5-4\n\n1";
    assert!(parse_range_data(input).is_err());
}

#[test]
fn numbers_between_white_space() {
    assert_eq!(parse_numbers("1 22\n\t333  +4\r\n"), Some(vec![1, 22, 333, 4]));
    assert_eq!(parse_numbers(""), Some(vec![]));
    assert_eq!(parse_numbers("  \n "), Some(vec![]));
    assert_eq!(parse_numbers("18446744073709551615"), Some(vec![u64::MAX]));
    assert_eq!(parse_numbers("18446744073709551616"), None);
    assert_eq!(parse_numbers("1 -2"), None);
    assert_eq!(parse_numbers("1 x 3"), None);
    assert_eq!(parse_numbers("+"), None);
}

#[test]
fn rows_of_signed_numbers() {
    assert_eq!(parse_number_row("3 -4 +5"), Some(vec![3, -4, 5]));
    assert_eq!(parse_number_row(""), Some(vec![]));
    assert_eq!(parse_number_row("2147483647 -2147483648"), Some(vec![i32::MAX, i32::MIN]));
    assert_eq!(parse_number_row("2147483648"), None);
    assert_eq!(parse_number_row("-2147483649"), None);
    assert_eq!(parse_number_row("1,2"), None);
    assert_eq!(parse_number_row("-"), None);
}

#[test]
fn pairs_of_numbers() {
    assert_eq!(parse_int_pair("3   4"), Ok((3, 4)));
    assert_eq!(parse_int_pair("  -3\t4 rest"), Ok((-3, 4)));
    assert_eq!(parse_int_pair(""), Err(PairFault::NoFirst));
    assert_eq!(parse_int_pair("   "), Err(PairFault::NoFirst));
    assert_eq!(parse_int_pair("x 4"), Err(PairFault::FirstNotInteger));
    assert_eq!(parse_int_pair("3"), Err(PairFault::NoSecond));
    assert_eq!(parse_int_pair("3 y"), Err(PairFault::SecondNotInteger));
    assert_eq!(PairFault::NoFirst.message(), "No first number");
    assert_eq!(PairFault::FirstNotInteger.message(), "First number is not an integer");
    assert_eq!(PairFault::NoSecond.message(), "No second number");
    assert_eq!(PairFault::SecondNotInteger.message(), "Second number is not an integer");
}

#[test]
fn words_and_their_places() {
    assert_eq!(word_spans(b"  ab c ", 0, 7), vec![(2, 4), (5, 6)]);
    assert_eq!(word_spans(b"  ab c ", 3, 5), vec![(3, 4)]);
    assert_eq!(word_spans(b"", 0, 0), vec![]);
}

#[test]
fn what_is_said_of_range_data_in_error() {
    let said = |text: &str| parse_range_data(text).unwrap_err();
    assert_eq!(said("1-2"), "Input must have two sections separated by empty lines");
    assert_eq!(said("1-2\n\n3\n\n4"), "Input must have two sections separated by empty lines");
    assert_eq!(said("x-4\n\n1"), "Invalid range start in x-4");
    assert_eq!(said("1-4\n-3-5\n\n1"), "Invalid range start in -3-5");
    assert_eq!(said("4\n\n1"), "Missing end of range");
    assert_eq!(said("1-y\n\n1"), "Invalid range end in 1-y");
    assert_eq!(said("1-\n\n1"), "Invalid range end in 1-");
    assert_eq!(said("5-4\n\n1"), "Invalid range: start > end (5- 4)");
    assert_eq!(said("1-2\n\nz"), "Invalid value z");
    assert_eq!(said("1-2\n\n3\n 4x"), "Invalid value  4x");
}

#[test]
fn range_data_with_signs_and_spaces() {
    let data = parse_range_data("  1-4\r\n+7-11-13\n\n\n -2 \n9\n").unwrap();
    assert_eq!(data, RangeData { ranges: vec![(1, 4), (7, 11)], values: vec![-2, 9] });
}
