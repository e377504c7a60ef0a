use rust_advent::digit_rows::{best_pair, best_twelve, pick_twelve};
use rust_advent::digit_window::{find_max_n_digit, find_max_two_digit};

fn next_entry(state: &mut u64, span: u64) -> u8 {
    *state = state.wrapping_mul(6364136223846793005).wrapping_add(1442695040888963407);
    ((*state >> 33) % span) as u8
}

fn selections(row: &[u8], n: usize, from: usize, chosen: &mut Vec<u8>, best: &mut Vec<u8>) {
    if chosen.len() == n {
        if *chosen > *best {
            *best = chosen.clone();
        }
        return;
    }
    for i in from..row.len() {
        chosen.push(row[i]);
        selections(row, n, i + 1, chosen, best);
        chosen.pop();
    }
}

fn spelled(entries: &[u8]) -> u64 {
    let mut value: u64 = 0;
    for &e in entries {
        value = value * 10 + e as u64;
    }
    value
}

#[test]
fn window_pick_is_the_greatest_selection() {
    let mut state: u64 = 7;
    for round in 0..300 {
        let len = 3 + (round % 7);
        let span: u64 = if round % 2 == 0 { 10 } else { 4 };
        let row: Vec<u8> = (0..len).map(|_| next_entry(&mut state, span)).collect();
        for n in 0..=len {
            let mut best: Vec<u8> = Vec::new();
            let mut chosen: Vec<u8> = Vec::new();
            selections(&row, n, 0, &mut chosen, &mut best);
            assert_eq!(find_max_n_digit(&row, n), spelled(&best), "row {:?}, n {}", row, n);
        }
        assert_eq!(find_max_n_digit(&row, len + 1), 0);
    }
}

#[test]
fn stack_pick_is_the_greatest_selection() {
    let mut state: u64 = 11;
    for round in 0..40 {
        let len = 12 + (round % 5);
        let span: u64 = if round % 2 == 0 { 10 } else { 3 };
        let row: Vec<u8> = (0..len).map(|_| next_entry(&mut state, span)).collect();
        let mut best: Vec<u8> = Vec::new();
        let mut chosen: Vec<u8> = Vec::new();
        selections(&row, 12, 0, &mut chosen, &mut best);
        assert_eq!(pick_twelve(&row), best, "row {:?}", row);
        assert_eq!(best_twelve(&row), spelled(&best));
        assert_eq!(find_max_n_digit(&row, 12), spelled(&best));
    }
}

#[test]
fn greatest_selection_of_large_entries() {
    let row: Vec<u8> = vec![200, 3, 255, 255, 0, 7];
    assert_eq!(find_max_n_digit(&row, 2), 255 * 10 + 255);
    assert_eq!(find_max_n_digit(&row, 3), 255 * 100 + 255 * 10 + 7);
    assert_eq!(find_max_n_digit(&row, 0), 0);
    assert_eq!(find_max_n_digit(&[], 0), 0);
    assert_eq!(find_max_n_digit(&[0, 0, 0], 2), 0);
    let all: Vec<u8> = vec![255; 17];
    assert_eq!(find_max_n_digit(&all, 17), 2_833_333_333_333_333_305);
}

#[test]
fn pairs_by_both_routes() {
    let mut state: u64 = 3;
    for round in 0..200 {
        let len = round % 9;
        let row: Vec<u8> = (0..len).map(|_| next_entry(&mut state, 256)).collect();
        let mut best: u64 = 0;
        for i in 0..row.len() {
            for j in i + 1..row.len() {
                best = best.max(row[i] as u64 * 10 + row[j] as u64);
            }
        }
        assert_eq!(find_max_two_digit(&row), best, "row {:?}", row);
        assert_eq!(best_pair(&row), best, "row {:?}", row);
    }
}

#[test]
fn twelve_of_fewer_than_twelve() {
    assert_eq!(best_twelve(&vec![9; 11]), 0);
    assert_eq!(best_twelve(&vec![9; 12]), 999_999_999_999);
    assert_eq!(best_twelve(&vec![1, 2, 3, 4, 5, 6, 7, 8, 9, 1, 2, 3, 4]), 234_567_891_234);
}
