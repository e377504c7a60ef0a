use rust_advent::coset::expand;
use rust_advent::gf2::solve_gf2;
use rust_advent::plain::{find_minimum_steps_part2, part2, Configuration, SolveError};
use rust_advent::solver::GF2Solver;

const SIX: [u32; 6] = [8, 10, 4, 12, 5, 3];

#[test]
fn reduced_form_of_the_six_steps() {
    assert_eq!(solve_gf2(&SIX, 0b0110, 4), Some((7, vec![13, 55])));
    assert_eq!(solve_gf2(&SIX, 0, 4), Some((0, vec![13, 55])));
    assert_eq!(solve_gf2(&SIX, 0b1111, 4).map(|found| found.1), Some(vec![13, 55]));
    assert_eq!(solve_gf2(&[1, 1, 3, 2], 2, 2), Some((5, vec![3, 13])));
    assert_eq!(solve_gf2(&[0, 1], 1, 1), Some((2, vec![1])));
    assert_eq!(solve_gf2(&[2], 1, 2), None);
}

#[test]
fn every_selection_once() {
    let solver = GF2Solver::new(&SIX, 4);
    let mut found = solver.solve(0b0110);
    assert_eq!(found.len(), 4);
    found.sort();
    assert_eq!(found, vec![7, 10, 48, 61]);
    let none = GF2Solver::new(&[2], 2).solve(1);
    assert_eq!(none.len(), 0);
    let alone = GF2Solver::new(&[1, 2, 4], 3).solve(5);
    assert_eq!(alone, vec![5]);
}

#[test]
fn expansion_doubles_once_for_each_vector() {
    let basis = vec![13, 55, 1];
    assert_eq!(expand(7, &basis, 0, 0), vec![7]);
    assert_eq!(expand(7, &basis, 0, 2), vec![7, 7 ^ 13, 7 ^ 55, 7 ^ 13 ^ 55]);
    assert_eq!(expand(0, &basis, 1, 3).len(), 4);
    assert_eq!(expand(0, &vec![3, 3], 0, 2), vec![0, 3, 3, 0]);
}

#[test]
fn a_large_count_is_still_reached() {
    let config = Configuration { endstate: vec![true], target_counts: vec![10001], steps: vec![vec![0]], step_masks: vec![1] };
    assert_eq!(find_minimum_steps_part2(&config), Ok(Some(10001)));
    let idle = Configuration {
        endstate: vec![true, false],
        target_counts: vec![3, 20],
        steps: vec![vec![], vec![0, 1], vec![1]],
        step_masks: vec![0, 3, 2],
    };
    assert_eq!(find_minimum_steps_part2(&idle), Ok(Some(20)));
    let apart = Configuration {
        endstate: vec![true, false],
        target_counts: vec![2, 1],
        steps: vec![vec![0, 1]],
        step_masks: vec![3],
    };
    assert_eq!(find_minimum_steps_part2(&apart), Ok(None));
    assert_eq!(part2(&["[#] (0) {10001}".to_string()]).ok(), Some(10001));
}

#[test]
fn counts_too_large_to_search() {
    let config = Configuration {
        endstate: vec![true, false],
        target_counts: vec![u64::MAX, 1],
        steps: vec![vec![0], vec![1]],
        step_masks: vec![1, 2],
    };
    assert_eq!(
        find_minimum_steps_part2(&config),
        Err("Target counts too large: their sum does not fit the machine word".to_string())
    );
    let unlisted = Configuration {
        endstate: vec![true, false],
        target_counts: vec![u64::MAX, 1],
        steps: vec![vec![0]],
        step_masks: vec![1],
    };
    assert_eq!(find_minimum_steps_part2(&unlisted), Ok(None));
    let line = "[#.] (0) (1) {18446744073709551615,1}".to_string();
    match part2(&[line]) {
        Err(SolveError::Message(text)) => {
            assert_eq!(text, "Target counts too large: their sum does not fit the machine word")
        }
        _ => panic!("an error was due"),
    }
}
