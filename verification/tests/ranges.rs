use rust_advent::ranges::{merge_ranges, part1, part2};
use rust_advent::RangeData;

#[test]
fn claude_day05_test_part1_example() {
    let input = RangeData {
        ranges: vec![(3, 5), (10, 14), (16, 20), (12, 18)],
        values: vec![1, 5, 8, 11, 17, 32],
    };
    assert_eq!(part1(&input), 3);
}

#[test]
fn claude_day05_test_part1_no_values_in_ranges() {
    let input = RangeData {
        ranges: vec![(10, 20), (30, 40)],
        values: vec![1, 2, 3, 50, 60],
    };
    assert_eq!(part1(&input), 0);
}

#[test]
fn claude_day05_test_part1_all_values_in_ranges() {
    let input = RangeData {
        ranges: vec![(1, 10)],
        values: vec![1, 5, 10],
    };
    assert_eq!(part1(&input), 3);
}

#[test]
fn test_part1_boundary_values() {
    let input = RangeData {
        ranges: vec![(5, 10), (15, 20)],
        values: vec![4, 5, 10, 11, 15, 20, 21],
    };
    assert_eq!(part1(&input), 4);
}

#[test]
fn claude_day05_test_part1_overlapping_ranges() {
    let input = RangeData {
        ranges: vec![(10, 20), (15, 25)],
        values: vec![5, 15, 30],
    };
    assert_eq!(part1(&input), 1);
}

#[test]
fn claude_day05_test_part1_empty_values() {
    let input = RangeData {
        ranges: vec![(1, 10)],
        values: vec![],
    };
    assert_eq!(part1(&input), 0);
}

#[test]
fn claude_day05_test_part1_empty_ranges() {
    let input = RangeData {
        ranges: vec![],
        values: vec![1, 2, 3],
    };
    assert_eq!(part1(&input), 0);
}

#[test]
fn claude_day05_test_part1_negative_values() {
    let input = RangeData {
        ranges: vec![(-10, -5), (0, 5)],
        values: vec![-15, -7, -5, 0, 3, 10],
    };
    assert_eq!(part1(&input), 4);
}

#[test]
fn test_merge_ranges_no_overlap() {
    let ranges = vec![(1, 3), (5, 7), (10, 12)];
    let merged = merge_ranges(&ranges);
    assert_eq!(merged, vec![(1, 3), (5, 7), (10, 12)]);
}

#[test]
fn test_merge_ranges_complete_overlap() {
    let ranges = vec![(1, 10), (3, 5), (2, 8)];
    let merged = merge_ranges(&ranges);
    assert_eq!(merged, vec![(1, 10)]);
}

#[test]
fn test_merge_ranges_partial_overlap() {
    let ranges = vec![(3, 5), (10, 14), (16, 20), (12, 18)];
    let merged = merge_ranges(&ranges);
    assert_eq!(merged, vec![(3, 5), (10, 20)]);
}

#[test]
fn test_merge_ranges_adjacent() {
    let ranges = vec![(1, 5), (6, 10)];
    let merged = merge_ranges(&ranges);
    assert_eq!(merged, vec![(1, 10)]);
}

#[test]
fn test_merge_ranges_empty() {
    let ranges = vec![];
    let merged = merge_ranges(&ranges);
    assert_eq!(merged, vec![]);
}

#[test]
fn test_merge_ranges_single() {
    let ranges = vec![(5, 10)];
    let merged = merge_ranges(&ranges);
    assert_eq!(merged, vec![(5, 10)]);
}

#[test]
fn test_merge_ranges_unsorted() {
    let ranges = vec![(10, 15), (1, 5), (3, 8), (20, 25)];
    let merged = merge_ranges(&ranges);
    assert_eq!(merged, vec![(1, 8), (10, 15), (20, 25)]);
}

#[test]
fn claude_day05_test_part2_example() {
    let input = RangeData {
        ranges: vec![(3, 5), (10, 14), (16, 20), (12, 18)],
        values: vec![],
    };
    assert_eq!(part2(&input), 14);
}

#[test]
fn claude_day05_test_part2_no_overlap() {
    let input = RangeData {
        ranges: vec![(1, 3), (5, 7), (10, 12)],
        values: vec![],
    };
    assert_eq!(part2(&input), 9);
}

#[test]
fn claude_day05_test_part2_complete_overlap() {
    let input = RangeData {
        ranges: vec![(1, 10), (3, 5), (2, 8)],
        values: vec![],
    };
    assert_eq!(part2(&input), 10);
}

#[test]
fn claude_day05_test_part2_single_range() {
    let input = RangeData {
        ranges: vec![(5, 10)],
        values: vec![],
    };
    assert_eq!(part2(&input), 6);
}

#[test]
fn claude_day05_test_part2_empty_ranges() {
    let input = RangeData {
        ranges: vec![],
        values: vec![],
    };
    assert_eq!(part2(&input), 0);
}

#[test]
fn claude_day05_test_part2_adjacent_ranges() {
    let input = RangeData {
        ranges: vec![(1, 5), (6, 10)],
        values: vec![],
    };
    assert_eq!(part2(&input), 10);
}

#[test]
fn claude_day05_test_part2_single_element_ranges() {
    let input = RangeData {
        ranges: vec![(1, 1), (3, 3), (5, 5)],
        values: vec![],
    };
    assert_eq!(part2(&input), 3);
}

#[test]
fn claude_day05_test_part2_negative_ranges() {
    let input = RangeData {
        ranges: vec![(-10, -5), (0, 5)],
        values: vec![],
    };
    assert_eq!(part2(&input), 12);
}
