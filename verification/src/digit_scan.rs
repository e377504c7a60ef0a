//! Rows of digits, read from the right: the largest two-digit number of a
//! row in one pass, and the largest twelve-digit pick by the greedy rule.
use vstd::prelude::*;
use crate::digit_rows::{
    best_first, digits_to_number, first_val, grid_sum, lemma_best_first_bounds, lemma_grid_sum_mono, pick_twelve,
    range_max, row_best,
};
use crate::selection::{lemma_picks_sum_mono, picks_sum};

verus! {

/// The largest entry of a range is its first entry or the largest of the
/// rest.
pub proof fn lemma_range_max_front(row: Seq<u8>, lo: int, hi: int)
    requires
        0 <= lo < hi <= row.len(),
    ensures
        range_max(row, lo, hi) == (if row[lo] as nat > range_max(row, lo + 1, hi) {
            row[lo] as nat
        } else {
            range_max(row, lo + 1, hi)
        }),
    decreases hi - lo,
{
    if lo + 1 < hi {
        lemma_range_max_front(row, lo, hi - 1);
        assert(range_max(row, lo + 1, hi) == (if row[hi - 1] as nat > range_max(row, lo + 1, hi - 1) {
            row[hi - 1] as nat
        } else {
            range_max(row, lo + 1, hi - 1)
        }));
    } else {
        assert(range_max(row, lo, lo) == 0);
        assert(range_max(row, lo + 1, hi) == 0);
    }
}

/// `best_first` is attained by some first digit, unless it is zero.
pub proof fn lemma_best_first_attained(row: Seq<u8>, k: int)
    requires
        0 <= k <= row.len(),
    ensures
        best_first(row, k) == 0 || exists|a: int| 0 <= a < k && #[trigger] first_val(row, a, row.len() as int) == best_first(row, k),
    decreases k,
{
    if k > 0 {
        lemma_best_first_attained(row, k - 1);
        if first_val(row, k - 1, row.len() as int) > best_first(row, k - 1) {
            assert(first_val(row, k - 1, row.len() as int) == best_first(row, k));
        } else if best_first(row, k - 1) != 0 {
            let a = choose|a: int| 0 <= a < k - 1 && #[trigger] first_val(row, a, row.len() as int) == best_first(row, k - 1);
            assert(first_val(row, a, row.len() as int) == best_first(row, k));
        }
    }
}

/// The largest number that two entries of `row`, picked in order, spell,
/// found in one pass from the right.
pub fn best_pair_scan(row: &Vec<u8>) -> (best: u64)
    requires
        row.len() >= 2,
    ensures
        best == row_best(row@),
        best <= 2805,
{
    let n: usize = row.len();
    let mut row_best_so_far: u64 = 0;
    let mut current_max_right: i32 = -1;
    let mut i: usize = n;
    while i > 0
        invariant
            i <= n,
            n == row.len(),
            n >= 2,
            row_best_so_far <= 2805,
            i == n ==> current_max_right == -1,
            i < n ==> current_max_right == range_max(row@, i as int, n as int),
            forall|a: int| i <= a < n ==> #[trigger] first_val(row@, a, n as int) <= row_best_so_far,
            row_best_so_far == 0 || exists|a: int| i <= a < n && #[trigger] first_val(row@, a, n as int) == row_best_so_far,
        decreases i,
    {
        i = i - 1;
        let d: u8 = row[i];
        proof {
            lemma_range_max_front(row@, i as int, n as int);
            if i + 1 < n {
                crate::digit_rows::lemma_range_max_bounds(row@, i as int + 1, n as int, i as int + 1);
            } else {
                assert(range_max(row@, n as int, n as int) == 0);
            }
        }
        if current_max_right != -1 {
            let score: u64 = (d as u64) * 10 + (current_max_right as u64);
            if score > row_best_so_far {
                row_best_so_far = score;
            }
            proof {
                assert(first_val(row@, i as int, n as int) == score);
            }
        }
        if (d as i32) > current_max_right {
            current_max_right = d as i32;
        }
    }
    proof {
        let b = best_first(row@, n as int);
        lemma_best_first_attained(row@, n as int);
        if b != 0 {
            let a = choose|a: int| 0 <= a < n && #[trigger] first_val(row@, a, n as int) == b;
            assert(first_val(row@, a, n as int) <= row_best_so_far);
        }
        if row_best_so_far != 0 {
            let a = choose|a: int| 0 <= a < n && #[trigger] first_val(row@, a, n as int) == row_best_so_far;
            lemma_best_first_bounds(row@, n as int, a);
        }
    }
    row_best_so_far
}

/// For each row, the largest number that two of its entries, picked in
/// order, spell; summed over the rows.
pub fn part1(grid: &Vec<Vec<u8>>) -> (sum: u64)
    requires
        grid_sum(grid@, grid.len() as int) <= u64::MAX,
    ensures
        sum == grid_sum(grid@, grid.len() as int),
{
    let mut total_sum: u64 = 0;
    let mut r: usize = 0;
    while r < grid.len()
        invariant
            r <= grid.len(),
            total_sum == grid_sum(grid@, r as int),
            grid_sum(grid@, grid.len() as int) <= u64::MAX,
        decreases grid.len() - r,
    {
        proof {
            lemma_grid_sum_mono(grid@, r as int + 1, grid.len() as int);
        }
        if grid[r].len() >= 2 {
            let best = best_pair_scan(&grid[r]);
            total_sum = total_sum + best;
        } else {
            proof {
                let row = grid@[r as int]@;
                assert(best_first(row, 0) == 0);
                if row.len() == 1 {
                    assert(first_val(row, 0, 1) == 0);
                    assert(best_first(row, 1) == 0);
                }
            }
        }
        r = r + 1;
    }
    total_sum
}

/// For each row of at least twelve entries, the largest number that
/// twelve of its entries, picked in order, spell: the number of its
/// greatest selection of twelve. Summed over the rows.
pub fn part2(grid: &Vec<Vec<u8>>) -> (sum: u64)
    requires
        picks_sum(grid@, 12, grid.len() as int) <= u64::MAX,
    ensures
        sum == picks_sum(grid@, 12, grid.len() as int),
{
    let mut total_sum: u64 = 0;
    let mut r: usize = 0;
    while r < grid.len()
        invariant
            r <= grid.len(),
            total_sum == picks_sum(grid@, 12, r as int),
            picks_sum(grid@, 12, grid.len() as int) <= u64::MAX,
        decreases grid.len() - r,
    {
        let row: &Vec<u8> = &grid[r];
        let val: u64 = if row.len() < 12 {
            0
        } else {
            let stack = pick_twelve(row);
            digits_to_number(stack.as_slice())
        };
        proof {
            lemma_picks_sum_mono(grid@, 12, r as int + 1, grid.len() as int);
        }
        total_sum = total_sum + val;
        r = r + 1;
    }
    total_sum
}

} // verus!
