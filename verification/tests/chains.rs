use rust_advent::solver::{chain_of, solve_part2, Problem, CHAINS};

#[test]
fn chain_of_a_count_vector() {
    assert_eq!(chain_of(&vec![]), 0);
    assert_eq!(chain_of(&vec![5]), 5);
    assert_eq!(chain_of(&vec![1, 2]), 33);
    assert_eq!(chain_of(&vec![2000]), 976);
    assert_eq!(chain_of(&vec![1023, 1023]), (1023 * 31 + 1023) % 1024);
    assert_eq!(chain_of(&vec![7, 0, 0]), (7 * 31 % 1024) * 31 % 1024);
    assert_eq!(chain_of(&vec![3, 4, 5]), chain_of(&vec![3, 4, 5]));
    assert!(chain_of(&vec![u32::MAX; 9]) < CHAINS);
}

#[test]
fn answers_that_meet_again_in_the_table() {
    let p = Problem { num_positions: 3, target: 0, steps: vec![0b001, 0b010, 0b100, 0b011, 0b110], target_counts: vec![9, 14, 11] };
    let mut best: Option<u64> = None;
    for a in 0..=9u64 {
        for d in 0..=9u64 {
            for e in 0..=11u64 {
                if a + d == 9 && d + e <= 14 && e <= 11 {
                    let b = 14 - d - e;
                    let c = 11 - e;
                    let total = a + b + c + d + e;
                    best = Some(best.map_or(total, |t| t.min(total)));
                }
            }
        }
    }
    assert_eq!(solve_part2(&p), best);
    assert_eq!(solve_part2(&p), Some(20));
}
