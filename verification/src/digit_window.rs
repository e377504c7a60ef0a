//! Rows of digits once more: the largest number that two entries of a row
//! spell, found with the largest entry after each place, and the largest
//! that `n` entries spell, found entry by entry in a window that leaves
//! room for the entries still to pick.
use vstd::prelude::*;
use crate::digit_rows::{best_first, first_val, grid_sum, lemma_grid_sum_mono, range_max, row_best};
use crate::selection::{
    cap, greatest, is_greatest, lemma_cap, lemma_cap_seventeen, lemma_picks_sum_mono, lemma_spelled_same,
    first_in_window, largest_in_window, lemma_window_greatest, pick_value, picked, picks_sum, spelled,
    window_start, windowed,
};

verus! {

/// From the front: the largest of a range is the larger of its first entry
/// and the largest of the rest.
pub proof fn lemma_range_max_front(row: Seq<u8>, lo: int, hi: int)
    requires
        0 <= lo < hi <= row.len(),
    ensures
        range_max(row, lo, hi) == (if row[lo] as nat > range_max(row, lo + 1, hi) {
            row[lo] as nat
        } else {
            range_max(row, lo + 1, hi)
        }),
    decreases hi - lo,
{
    if lo + 1 < hi {
        lemma_range_max_front(row, lo, hi - 1);
    } else {
        assert(range_max(row, lo, hi - 1) == 0);
        assert(range_max(row, lo + 1, hi) == 0);
    }
}

/// The largest number that two entries of `row`, picked in order, spell;
/// zero for a row of fewer than two entries.
pub fn find_max_two_digit(row: &[u8]) -> (best: u64)
    ensures
        best == row_best(row@),
        best <= 2805,
{
    let n: usize = row.len();
    if n < 2 {
        proof {
            if n == 1 {
                assert(best_first(row@, 0) == 0);
                assert(first_val(row@, 0, 1) == 0);
            }
        }
        return 0;
    }
    let mut suffix_max: Vec<u8> = Vec::new();
    let mut f: usize = 0;
    while f < n
        invariant
            f <= n,
            suffix_max.len() == f,
        decreases n - f,
    {
        suffix_max.push(0);
        f = f + 1;
    }
    suffix_max.set(n - 1, row[n - 1]);
    proof {
        assert(range_max(row@, n as int - 1, n as int - 1) == 0);
    }
    let mut i: usize = n - 1;
    while i > 0
        invariant
            i <= n - 1,
            n == row.len(),
            n >= 2,
            suffix_max.len() == n,
            forall|j: int| i <= j < n ==> #[trigger] suffix_max[j] as nat == range_max(row@, j, n as int),
        decreases i,
    {
        i = i - 1;
        let after: u8 = suffix_max[i + 1];
        let here: u8 = if row[i] > after {
            row[i]
        } else {
            after
        };
        proof {
            lemma_range_max_front(row@, i as int, n as int);
        }
        suffix_max.set(i, here);
    }
    let mut max_value: u64 = 0;
    let mut k: usize = 0;
    while k < n - 1
        invariant
            k <= n - 1,
            n == row.len(),
            n >= 2,
            suffix_max.len() == n,
            forall|j: int| 0 <= j < n ==> #[trigger] suffix_max[j] as nat == range_max(row@, j, n as int),
            max_value == best_first(row@, k as int),
            max_value <= 2805,
        decreases n - 1 - k,
    {
        let value: u64 = row[k] as u64 * 10 + suffix_max[k + 1] as u64;
        proof {
            assert(value == first_val(row@, k as int, n as int));
        }
        if value > max_value {
            max_value = value;
        }
        k = k + 1;
    }
    proof {
        assert(first_val(row@, n as int - 1, n as int) == 0);
    }
    max_value
}

/// The number that the greatest selection of `n` entries of `row` spells:
/// each entry in turn is the largest of those that leave room for the
/// rest, the first where several are as large. Zero for a row of fewer
/// than `n` entries.
pub fn find_max_n_digit(row: &[u8], n: usize) -> (value: u64)
    requires
        n <= 17,
    ensures
        value == pick_value(row@, n as int),
        row.len() >= n ==> is_greatest(row@, n as int, greatest(row@, n as int)),
{
    let len: usize = row.len();
    if len < n {
        return 0;
    }
    let mut result: u64 = 0;
    let mut start: usize = 0;
    let mut k: usize = 0;
    let ghost mut g: Seq<u8> = Seq::empty();
    let ghost mut p: Seq<int> = Seq::empty();
    proof {
        lemma_cap_seventeen();
    }
    while k < n
        invariant
            k <= n <= 17,
            n <= len,
            len == row.len(),
            g.len() == k,
            p.len() == k,
            picked(row@, p, g),
            start == window_start(p, k as int),
            start + (n - k) <= len,
            result == spelled(g, k as int),
            cap(17) == 2_833_333_333_333_333_305,
            windowed(row@, n as int, p, g, k as int),
        decreases n - k,
    {
        let end: usize = len - (n - k - 1);
        let mut max_val: u8 = 0;
        let mut max_idx: usize = start;
        let mut i: usize = start;
        while i < end
            invariant
                start <= i <= end <= len,
                start < end,
                len == row.len(),
                start <= max_idx < end,
                i == start ==> max_val == 0 && max_idx == start,
                i > start ==> row[max_idx as int] == max_val,
                forall|j: int| start <= j < i ==> row[j] <= max_val,
                forall|j: int| start <= j < max_idx ==> row[j] < max_val,
            decreases end - i,
        {
            if row[i] > max_val {
                max_val = row[i];
                max_idx = i;
            }
            i = i + 1;
        }
        proof {
            let g0 = g;
            let p0 = p;
            g = g.push(max_val);
            p = p.push(max_idx as int);
            lemma_cap(g0, k as int, 17);
            lemma_cap(g, k as int + 1, 17);
            lemma_spelled_same(g0, g, k as int);
            assert(picked(row@, p, g)) by {
                assert forall|a: int, b: int| 0 <= a < b < p.len() implies #[trigger] p[a] < #[trigger] p[b] by {
                    if b == k {
                        if a < k - 1 {
                            assert(p0[a] < p0[k - 1]);
                        }
                    } else {
                        assert(p0[a] < p0[b]);
                    }
                }
                assert forall|a: int| 0 <= a < p.len() implies 0 <= #[trigger] p[a] < len by {
                    if a < k {
                        assert(0 <= p0[a] < len);
                    }
                }
                assert forall|a: int| 0 <= a < p.len() implies g[a] == row@[#[trigger] p[a]] by {
                    if a < k {
                        assert(g0[a] == row@[p0[a]]);
                    }
                }
            }
            assert(windowed(row@, n as int, p, g, k as int + 1)) by {
                assert forall|c: int, j: int| 0 <= c < k + 1 implies #[trigger] largest_in_window(
                    row@,
                    n as int,
                    p,
                    g,
                    c,
                    j,
                ) by {
                    if c < k {
                        assert(window_start(p, c) == window_start(p0, c));
                        assert(largest_in_window(row@, n as int, p0, g0, c, j));
                    }
                }
                assert forall|c: int, j: int| 0 <= c < k + 1 implies #[trigger] first_in_window(row@, p, g, c, j) by {
                    if c < k {
                        assert(window_start(p, c) == window_start(p0, c));
                        assert(p[c] == p0[c]);
                        assert(first_in_window(row@, p0, g0, c, j));
                    }
                }
            }
        }
        result = result * 10 + max_val as u64;
        start = max_idx + 1;
        k = k + 1;
    }
    proof {
        lemma_window_greatest(row@, n as int, p, g);
    }
    result
}

/// For each row, the largest number that two of its entries, picked in
/// order, spell; summed over the rows.
pub fn part1(grid: &Vec<Vec<u8>>) -> (sum: u64)
    requires
        grid_sum(grid@, grid.len() as int) <= u64::MAX,
    ensures
        sum == grid_sum(grid@, grid.len() as int),
{
    let mut sum: u64 = 0;
    let mut r: usize = 0;
    while r < grid.len()
        invariant
            r <= grid.len(),
            sum == grid_sum(grid@, r as int),
            grid_sum(grid@, grid.len() as int) <= u64::MAX,
        decreases grid.len() - r,
    {
        let best = find_max_two_digit(grid[r].as_slice());
        proof {
            lemma_grid_sum_mono(grid@, r as int + 1, grid.len() as int);
        }
        sum = sum + best;
        r = r + 1;
    }
    sum
}

/// For each row, the number that its greatest selection of twelve entries
/// spells; summed over the rows. A row of fewer than twelve entries adds
/// nothing.
pub fn part2(grid: &Vec<Vec<u8>>) -> (sum: u64)
    requires
        picks_sum(grid@, 12, grid.len() as int) <= u64::MAX,
    ensures
        sum == picks_sum(grid@, 12, grid.len() as int),
{
    let mut sum: u64 = 0;
    let mut r: usize = 0;
    while r < grid.len()
        invariant
            r <= grid.len(),
            sum == picks_sum(grid@, 12, r as int),
            picks_sum(grid@, 12, grid.len() as int) <= u64::MAX,
        decreases grid.len() - r,
    {
        let value = find_max_n_digit(grid[r].as_slice(), 12);
        proof {
            lemma_picks_sum_mono(grid@, 12, r as int + 1, grid.len() as int);
        }
        sum = sum + value;
        r = r + 1;
    }
    sum
}

} // verus!
