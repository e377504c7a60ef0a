use rust_advent::repeats::{
    is_invalid_id, is_invalid_id_part2, part1, part2, sum_invalid_ids_in_range,
    sum_invalid_ids_in_range_part2,
};

#[test]
fn test_is_invalid_id() {
    assert!(is_invalid_id(11));
    assert!(is_invalid_id(22));
    assert!(is_invalid_id(1111));
    assert!(is_invalid_id(24452445));
    assert!(is_invalid_id(99));
    assert!(is_invalid_id(1010));
    assert!(is_invalid_id(1188511885));
    assert!(is_invalid_id(222222));
    assert!(is_invalid_id(446446));
    assert!(is_invalid_id(38593859));

    assert!(!is_invalid_id(121));
    assert!(!is_invalid_id(101));
    assert!(!is_invalid_id(1));
    assert!(!is_invalid_id(12));
    assert!(!is_invalid_id(123));
    assert!(!is_invalid_id(1234));
}

#[test]
fn test_sum_invalid_ids_in_range() {
    assert_eq!(sum_invalid_ids_in_range(1, 22), 11 + 22);

    assert_eq!(sum_invalid_ids_in_range(998, 1112), 1010 + 1111);

    assert_eq!(sum_invalid_ids_in_range(1405, 1410), 0);

    assert_eq!(sum_invalid_ids_in_range(95, 115), 99);
}

#[test]
fn test_part1_examples() {
    assert_eq!(part1("1-22,998-1112, 1405-1410"), 2154);

    let input = "11-22,95-115,998-1012,1188511880-1188511890,222220-222224,1698522-1698528,446443-446449,38593856-38593862,565653-565659,824824821-824824827,2121212118-2121212124";
    assert_eq!(part1(input), 1227775554);
}

#[test]
fn test_is_invalid_id_part2() {
    assert!(is_invalid_id_part2(11));
    assert!(is_invalid_id_part2(22));
    assert!(is_invalid_id_part2(1111));
    assert!(is_invalid_id_part2(12341234));
    assert!(is_invalid_id_part2(123123123));
    assert!(is_invalid_id_part2(1212121212));
    assert!(is_invalid_id_part2(1111111));
    assert!(is_invalid_id_part2(99));
    assert!(is_invalid_id_part2(111));
    assert!(is_invalid_id_part2(1010));
    assert!(is_invalid_id_part2(1188511885));
    assert!(is_invalid_id_part2(222222));
    assert!(is_invalid_id_part2(446446));
    assert!(is_invalid_id_part2(38593859));
    assert!(is_invalid_id_part2(565656));
    assert!(is_invalid_id_part2(824824824));
    assert!(is_invalid_id_part2(2121212121));

    assert!(!is_invalid_id_part2(121));
    assert!(!is_invalid_id_part2(101));
    assert!(!is_invalid_id_part2(1));
    assert!(!is_invalid_id_part2(12));
    assert!(!is_invalid_id_part2(123));
    assert!(!is_invalid_id_part2(1234));
    assert!(!is_invalid_id_part2(12345));
}

#[test]
fn test_sum_invalid_ids_in_range_part2() {
    assert_eq!(sum_invalid_ids_in_range_part2(11, 22), 11 + 22);

    assert_eq!(sum_invalid_ids_in_range_part2(95, 115), 99 + 111);

    assert_eq!(sum_invalid_ids_in_range_part2(998, 1012), 999 + 1010);

    assert_eq!(sum_invalid_ids_in_range_part2(565653, 565659), 565656);
}

#[test]
fn test_part2_examples() {
    let input = "11-22,95-115,998-1012,1188511880-1188511890,222220-222224,1698522-1698528,446443-446449,38593856-38593862,565653-565659,824824821-824824827,2121212118-2121212124";
    assert_eq!(part2(input), 4174379265);
}
