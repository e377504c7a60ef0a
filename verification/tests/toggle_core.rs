use rust_advent::best_first::{heuristic, min_steps_part2};
use rust_advent::bits::{popcount, test_bit, with_bit};
use rust_advent::coset::{expand, min_weight_coset, seeded_combo};
use rust_advent::gf2::solve_gf2;
use rust_advent::plain::{
    compute_step_masks, endstate_to_bitmask, find_minimum_steps, find_minimum_steps_part2,
    parse_configuration as parse_plain, Configuration, ParseError,
};
use rust_advent::search::{
    min_steps, min_steps_part2_seeded, parse_configuration, reachable_mod2, step_indices,
};
use rust_advent::solver::{
    choose_strategy, distinct_steps, solve_part1, solve_part1_bfs, solve_part1_mim, solve_part2,
    GF2Solver, Problem, Strategy,
};
use rust_advent::toggle::checked_sum;

fn problem(n: usize, target: u32, steps: &[u32], counts: &[u32]) -> Problem {
    Problem { num_positions: n, target, steps: steps.to_vec(), target_counts: counts.to_vec() }
}

fn apply(steps: &[u32], selection: u64) -> u32 {
    let mut state = 0u32;
    for (i, step) in steps.iter().enumerate() {
        if (selection >> i) & 1 == 1 {
            state ^= step;
        }
    }
    state
}

const SIX_STEPS: [u32; 6] = [8, 10, 4, 12, 5, 3];

#[test]
fn four_positions_six_steps() {
    let p = problem(4, 0b0110, &SIX_STEPS, &[3, 5, 4, 7]);
    assert_eq!(solve_part1(&p), Some(2));
    assert_eq!(solve_part1_bfs(&p), Some(2));
    assert_eq!(solve_part1_mim(&p), Some(2));
    assert_eq!(min_steps(0b0110, &SIX_STEPS, 4), Some(2));
    assert_eq!(solve_part2(&p), Some(10));
    assert_eq!(min_steps_part2(&SIX_STEPS, &[3, 5, 4, 7], 4), Some(10));
    assert_eq!(min_steps_part2_seeded(&SIX_STEPS, &[3, 5, 4, 7], 4), Some(10));
}

#[test]
fn one_position_one_step() {
    let p = problem(1, 1, &[1], &[1]);
    assert_eq!(solve_part1(&p), Some(1));
    assert_eq!(solve_part2(&p), Some(1));
}

#[test]
fn position_that_no_step_sets_is_unreachable() {
    let p = problem(2, 0b01, &[0b10], &[]);
    assert_eq!(solve_part1_bfs(&p), None);
    assert_eq!(solve_part1_mim(&p), None);
    assert_eq!(min_steps(0b01, &[0b10], 2), None);
    assert_eq!(reachable_mod2(&[0b10], 0b01), false);
    assert_eq!(reachable_mod2(&[0b10], 0b10), true);
}

#[test]
fn six_positions_overlapping_steps() {
    let steps = [0b011111, 0b011001, 0b110111, 0b000110];
    let p = problem(6, 0b101110, &steps, &[10, 11, 11, 5, 10, 5]);
    assert_eq!(solve_part1(&p), Some(2));
    assert_eq!(solve_part2(&p), Some(11));
    assert_eq!(min_steps_part2_seeded(&steps, &[10, 11, 11, 5, 10, 5], 6), Some(11));
}

#[test]
fn all_off_target_needs_no_step() {
    for steps in [vec![], vec![1u32], vec![3, 5, 6], SIX_STEPS.to_vec()] {
        let p = problem(4, 0, &steps, &[0, 0, 0, 0]);
        assert_eq!(solve_part1_bfs(&p), Some(0));
        assert_eq!(solve_part1_mim(&p), Some(0));
        assert_eq!(min_steps(0, &steps, 4), Some(0));
        assert_eq!(solve_part2(&p), Some(0));
        assert_eq!(min_steps_part2(&steps, &[0, 0, 0, 0], 4), Some(0));
    }
}

#[test]
fn returned_solution_reproduces_the_target() {
    for target in 0u32..16 {
        match solve_gf2(&SIX_STEPS, target, 4) {
            Some((particular, basis)) => {
                assert_eq!(apply(&SIX_STEPS, particular), target);
                for b in &basis {
                    assert_eq!(apply(&SIX_STEPS, *b), 0);
                }
                let (weight, best) = min_weight_coset(particular, &basis);
                assert_eq!(apply(&SIX_STEPS, best), target);
                assert_eq!(u64::from(best.count_ones()), weight);
                let p = problem(4, target, &SIX_STEPS, &[]);
                assert_eq!(solve_part1_bfs(&p), Some(weight));
            }
            None => panic!("six steps over four positions reach every pattern"),
        }
    }
}

#[test]
fn every_strategy_gives_the_least_weight() {
    let steps = [0b0011u32, 0b0110, 0b1100, 0b1001, 0b1111];
    for target in 0u32..16 {
        let mut least: Option<u64> = None;
        for selection in 0u64..32 {
            if apply(&steps, selection) == target {
                let w = u64::from(selection.count_ones());
                if least.map_or(true, |l| w < l) {
                    least = Some(w);
                }
            }
        }
        let p = problem(4, target, &steps, &[]);
        assert_eq!(solve_part1_bfs(&p), least);
        assert_eq!(solve_part1_mim(&p), least);
        assert_eq!(min_steps(target, &steps, 4), least);
    }
}

#[test]
fn count_solvers_agree_with_exhaustive_search() {
    let steps = [0b011u32, 0b110, 0b101, 0b001];
    for a in 0u32..5 {
        for b in 0u32..5 {
            for c in 0u32..5 {
                let mut least: Option<u64> = None;
                for x0 in 0u32..5 {
                    for x1 in 0u32..5 {
                        for x2 in 0u32..5 {
                            for x3 in 0u32..5 {
                                if x0 + x2 + x3 == a && x0 + x1 == b && x1 + x2 == c {
                                    let t = u64::from(x0 + x1 + x2 + x3);
                                    if least.map_or(true, |l| t < l) {
                                        least = Some(t);
                                    }
                                }
                            }
                        }
                    }
                }
                let counts = [a, b, c];
                let p = problem(3, 0, &steps, &counts);
                assert_eq!(solve_part2(&p), least);
                assert_eq!(min_steps_part2(&steps, &counts, 3), least);
                assert_eq!(min_steps_part2_seeded(&steps, &counts, 3), least);
            }
        }
    }
}

#[test]
fn solving_twice_gives_the_same_answer() {
    let p = problem(4, 0b1011, &SIX_STEPS, &[7, 2, 9, 4]);
    assert_eq!(solve_part1(&p), solve_part1(&p));
    assert_eq!(solve_part2(&p), solve_part2(&p));
}

#[test]
fn removing_a_step_never_lowers_the_answer() {
    let counts = [3u32, 5, 4, 7];
    for target in 0u32..16 {
        let full = solve_part1_mim(&problem(4, target, &SIX_STEPS, &[]));
        for j in 0..SIX_STEPS.len() {
            let mut fewer = SIX_STEPS.to_vec();
            fewer.remove(j);
            if let Some(less) = solve_part1_mim(&problem(4, target, &fewer, &[])) {
                assert!(full.unwrap() <= less);
            }
        }
    }
    let full = solve_part2(&problem(4, 0, &SIX_STEPS, &counts)).unwrap();
    for j in 0..SIX_STEPS.len() {
        let mut fewer = SIX_STEPS.to_vec();
        fewer.remove(j);
        if let Some(less) = solve_part2(&problem(4, 0, &fewer, &counts)) {
            assert!(full <= less);
        }
    }
}

#[test]
fn repeated_and_empty_steps_do_not_change_the_count_answer() {
    let p = problem(4, 0, &[8, 10, 0, 4, 12, 10, 5, 3, 0, 8], &[3, 5, 4, 7]);
    assert_eq!(solve_part2(&p), Some(10));
    assert_eq!(distinct_steps(&vec![8, 10, 0, 4, 12, 10, 5, 3, 0, 8]), vec![3, 4, 5, 8, 10, 12]);
    assert_eq!(distinct_steps(&vec![0, 0]), Vec::<u32>::new());
    assert_eq!(solve_part2(&problem(2, 0, &[0, 0], &[0, 1])), None);
    assert_eq!(solve_part2(&problem(2, 0, &[0, 0], &[0, 0])), Some(0));
}

#[test]
fn kernel_of_dependent_steps() {
    let solver = GF2Solver::new(&[0b01, 0b10, 0b11], 2);
    assert_eq!(solver.kernel_basis, vec![0b111]);
    let mut all = solver.solve(0b11);
    all.sort();
    assert_eq!(all, vec![0b011, 0b100]);
    assert_eq!(solver.solve(0b00).len(), 2);
    let none = GF2Solver::new(&[0b10], 2);
    assert!(none.solve(0b01).is_empty());
}

#[test]
fn coset_enumeration_and_least_weight() {
    let basis = vec![0b0011u64, 0b0110, 0b1100];
    let mut listed = expand(0b0001, &basis, 0, 3);
    listed.sort();
    assert_eq!(listed, vec![0b0001, 0b0010, 0b0100, 0b0111, 0b1000, 0b1011, 0b1101, 0b1110]);
    assert_eq!(expand(5, &basis, 1, 1), vec![5]);
    assert_eq!(min_weight_coset(0b1111, &basis).0, 0);
    assert_eq!(min_weight_coset(0b0111, &basis).0, 1);
    assert_eq!(min_weight_coset(0b0111, &vec![]), (3, 0b0111));
    assert_eq!(seeded_combo(0b1000, &basis, 0b101), 0b1000 ^ 0b0011 ^ 0b1100);
}

#[test]
fn strategy_depends_on_sizes_only() {
    assert_eq!(choose_strategy(20, 63), Strategy::StateSearch);
    assert_eq!(choose_strategy(4, 6), Strategy::StateSearch);
    assert_eq!(choose_strategy(27, 5), Strategy::KernelSearch);
    assert_eq!(choose_strategy(32, 32), Strategy::KernelSearch);
    assert_eq!(choose_strategy(21, 30), Strategy::KernelSearch);
    assert_eq!(choose_strategy(21, 0), Strategy::StateSearch);
    assert_eq!(choose_strategy(21, 44), Strategy::KernelSearch);
    assert_eq!(choose_strategy(21, 63), Strategy::StateSearch);
}

#[test]
fn wide_problem_is_solved_on_the_kernel() {
    let steps: Vec<u32> = (0..32).map(|i| 1u32 << i).collect();
    let p = problem(32, 0xFFFF_FFFF, &steps, &[]);
    assert_eq!(solve_part1(&p), Some(32));
    let q = problem(32, 0x8000_0001, &steps, &[]);
    assert_eq!(solve_part1(&q), Some(2));
}

#[test]
fn bit_helpers() {
    assert_eq!(popcount(0), 0);
    assert_eq!(popcount(u64::MAX), 64);
    assert_eq!(popcount(0b1011_0001), 4);
    assert!(test_bit(0b100, 2));
    assert!(!test_bit(0b100, 1));
    assert_eq!(with_bit(0b100, 0), 0b101);
    assert_eq!(with_bit(0, 63), 1u64 << 63);
}

#[test]
fn lower_bound_of_the_search() {
    assert_eq!(heuristic(&[3, 5, 4, 7], 2), 10);
    assert_eq!(heuristic(&[3, 5, 4, 7], 4), 7);
    assert_eq!(heuristic(&[0, 0], 1), 0);
    assert_eq!(heuristic(&[1, 1, 1], 2), 2);
    assert_eq!(step_indices(&[0b0101, 0, 0b1000], 4), vec![vec![0, 2], vec![], vec![3]]);
}

#[test]
fn sums_of_answers_are_checked() {
    assert_eq!(checked_sum(&[]), Some(0));
    assert_eq!(checked_sum(&[1, 2, 3]), Some(6));
    assert_eq!(checked_sum(&[u64::MAX, 0]), Some(u64::MAX));
    assert_eq!(checked_sum(&[u64::MAX, 1]), None);
    assert_eq!(checked_sum(&[1 << 63, 1 << 63]), None);
}

#[test]
fn plain_search_on_listed_steps() {
    let config = Configuration {
        endstate: vec![false, true, true, false],
        target_counts: vec![3, 5, 4, 7],
        steps: vec![vec![3], vec![1, 3], vec![2], vec![2, 3], vec![0, 2], vec![0, 1]],
        step_masks: SIX_STEPS.to_vec(),
    };
    assert_eq!(compute_step_masks(&config.steps), SIX_STEPS.to_vec());
    assert_eq!(endstate_to_bitmask(&config.endstate), 0b0110);
    assert_eq!(find_minimum_steps(&config), Ok(Some(2)));
    assert_eq!(find_minimum_steps_part2(&config), Ok(Some(10)));
    let repeated = Configuration {
        endstate: vec![true],
        target_counts: vec![6],
        steps: vec![vec![0, 0]],
        step_masks: vec![1],
    };
    assert_eq!(find_minimum_steps_part2(&repeated), Ok(Some(3)));
    let odd = Configuration { endstate: vec![true], target_counts: vec![5], steps: vec![vec![0, 0]], step_masks: vec![1] };
    assert_eq!(find_minimum_steps_part2(&odd), Ok(None));
}

#[test]
fn each_parse_error_has_an_input() {
    let kind = |line: &str| parse_plain(line).err().map(|e| e.to_string());
    assert!(matches!(parse_plain("[] (0) {1}"), Err(ParseError::EmptyEndstate)));
    assert!(matches!(parse_plain("#. (0) {1}"), Err(ParseError::InvalidBrackets)));
    assert!(matches!(parse_plain("][ (0) {1}"), Err(ParseError::InvalidBrackets)));
    assert!(matches!(parse_plain("[#.] {1,1}"), Err(ParseError::EmptySteps)));
    assert!(matches!(parse_plain("[#.] (2) {1,1}"), Err(ParseError::InvalidPosition(2, 1))));
    assert!(matches!(parse_plain("[#.] (x) {1,1}"), Err(ParseError::ParseIntError(_))));
    assert!(matches!(parse_plain("[#.] (0) 1,1"), Err(ParseError::MissingTargets)));
    assert!(matches!(parse_plain("[#.] (0) {1,1"), Err(ParseError::InvalidTargets)));
    assert!(matches!(parse_plain("[#.] (0) {1}"), Err(ParseError::MismatchedLength)));
    let wide = format!("[{}] (0) {{1}}", ".".repeat(33));
    assert!(matches!(parse_plain(&wide), Err(ParseError::ConfigurationTooLarge(33))));
    let many: String = (0..65).map(|_| "(0) ").collect();
    assert!(matches!(parse_plain(&format!("[#] {}{{1}}", many)), Err(ParseError::TooManySteps(65))));
    assert_eq!(kind("[#.] (2) {1,1}"), Some("Invalid position 2 (max: 1)".to_string()));
    assert_eq!(kind("[#.] (x) {1,1}"), Some("Failed to parse integer: x".to_string()));
    assert_eq!(kind(&wide), Some("Configuration too large: 33 positions (max 32)".to_string()));
}

#[test]
fn line_notation_of_the_three_readers() {
    let line = "[.##.] (3) (1,3) (2) (2,3) (0,2) (0,1) {3,5,4,7}";
    let p = Problem::parse(line).unwrap();
    assert_eq!((p.num_positions, p.target), (4, 0b0110));
    assert_eq!(p.steps, SIX_STEPS.to_vec());
    assert_eq!(p.target_counts, vec![3, 5, 4, 7]);
    let (end_mask, masks, targets, positions) = parse_configuration(line).unwrap();
    assert_eq!((end_mask, positions), (0b0110, 4));
    assert_eq!(masks, SIX_STEPS.to_vec());
    assert_eq!(targets, vec![3, 5, 4, 7]);
    let config = parse_plain(line).unwrap();
    assert_eq!(config.step_masks, SIX_STEPS.to_vec());
    assert_eq!(config.endstate, vec![false, true, true, false]);
    assert_eq!(
        parse_configuration("[.#] (1,1) {0,2}").unwrap_err(),
        "duplicate index 1 in step".to_string()
    );
    assert_eq!(parse_configuration("[.#] (7) {0,2}").unwrap_err(), "index 7 out of range".to_string());
    assert_eq!(
        parse_configuration("[.#] (1) {0,2,3}").unwrap_err(),
        "target length 3 does not match positions 2".to_string()
    );
    assert_eq!(
        Problem::parse("[.#] (4)").unwrap_err(),
        "Step index 4 out of bounds (size 2)".to_string()
    );
    assert_eq!(Problem::parse("[.x] (1)").unwrap_err(), "Invalid char in endstate: x".to_string());
}
