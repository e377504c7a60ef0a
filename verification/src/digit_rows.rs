//! Rows of digits: the largest number that two, or twelve, digits picked
//! from a row in order can spell, summed over the rows.
use vstd::prelude::*;
use crate::selection::{
    first_in_window, greatest, is_greatest, largest_in_window, lemma_picks_sum_mono,
    lemma_whole_row, lemma_window_greatest, pick_value, picked, picks_sum, spelled, window_start,
};

verus! {

/// The largest entry of `row[lo..hi]`; zero where the range is empty.
pub open spec fn range_max(row: Seq<u8>, lo: int, hi: int) -> nat
    decreases hi - lo,
{
    if hi <= lo {
        0
    } else if row[hi - 1] as nat > range_max(row, lo, hi - 1) {
        row[hi - 1] as nat
    } else {
        range_max(row, lo, hi - 1)
    }
}

/// The largest two-digit number with `row[i]` as its first digit and
/// one of `row[i+1..hi]` as its second; zero where there is no second digit.
pub open spec fn first_val(row: Seq<u8>, i: int, hi: int) -> nat {
    if i + 1 < hi {
        10 * (row[i] as nat) + range_max(row, i + 1, hi)
    } else {
        0
    }
}

/// The largest two-digit number whose first digit is one of the first `k`.
pub open spec fn best_first(row: Seq<u8>, k: int) -> nat
    decreases k,
{
    if k <= 0 {
        0
    } else if first_val(row, k - 1, row.len() as int) > best_first(row, k - 1) {
        first_val(row, k - 1, row.len() as int)
    } else {
        best_first(row, k - 1)
    }
}

/// The largest number that two entries of `row`, picked in order, spell.
pub open spec fn row_best(row: Seq<u8>) -> nat {
    best_first(row, row.len() as int)
}

/// Sum of `row_best` over the first `k` rows.
pub open spec fn grid_sum(grid: Seq<Vec<u8>>, k: int) -> nat
    decreases k,
{
    if k <= 0 {
        0
    } else {
        grid_sum(grid, k - 1) + row_best(grid[k - 1]@)
    }
}

/// `row_best` is an upper bound of every pair, and no more than 2805.
pub proof fn lemma_row_best_bounds(row: Seq<u8>, i: int, j: int)
    requires
        0 <= i < j < row.len(),
    ensures
        10 * row[i] + row[j] <= row_best(row),
        row_best(row) <= 2805,
{
    lemma_range_max_bounds(row, i + 1, row.len() as int, j);
    lemma_best_first_bounds(row, row.len() as int, i);
}

/// `range_max` is an upper bound of the range, and no more than 255.
pub proof fn lemma_range_max_bounds(row: Seq<u8>, lo: int, hi: int, j: int)
    requires
        0 <= lo <= j < hi <= row.len(),
    ensures
        row[j] <= range_max(row, lo, hi),
        range_max(row, lo, hi) <= 255,
    decreases hi - lo,
{
    if j < hi - 1 {
        lemma_range_max_bounds(row, lo, hi - 1, j);
    } else if lo < hi - 1 {
        lemma_range_max_bounds(row, lo, hi - 1, lo);
    }
}

/// `best_first` is an upper bound of the first values, and no more than 2805.
pub proof fn lemma_best_first_bounds(row: Seq<u8>, k: int, i: int)
    requires
        0 <= i < k <= row.len(),
    ensures
        first_val(row, i, row.len() as int) <= best_first(row, k),
        best_first(row, k) <= 2805,
    decreases k,
{
    if k - 1 + 1 < row.len() {
        lemma_range_max_bounds(row, k, row.len() as int, k);
    }
    if i < k - 1 {
        lemma_best_first_bounds(row, k - 1, i);
    } else if 0 < k - 1 {
        lemma_best_first_bounds(row, k - 1, 0);
    }
}

/// Partial sums over the rows only grow.
pub proof fn lemma_grid_sum_mono(grid: Seq<Vec<u8>>, a: int, b: int)
    requires
        a <= b,
    ensures
        grid_sum(grid, a) <= grid_sum(grid, b),
    decreases b - a,
{
    if a < b {
        lemma_grid_sum_mono(grid, a, b - 1);
    }
}

/// The largest number that two entries of `row`, picked in order, spell.
pub fn best_pair(row: &Vec<u8>) -> (best: u64)
    ensures
        best == row_best(row@),
        best <= 2805,
{
    let n: usize = row.len();
    let mut max_value: u64 = 0;
    let mut i: usize = 0;
    while i < n
        invariant
            i <= n,
            n == row.len(),
            max_value == best_first(row@, i as int),
            max_value <= 2805,
        decreases n - i,
    {
        let mut j: usize = i + 1;
        let ghost base = max_value;
        while j < n
            invariant
                i < n,
                i + 1 <= j <= n || (i + 1 > n && j == i + 1),
                n == row.len(),
                base == best_first(row@, i as int),
                base <= 2805,
                max_value <= 2805,
                max_value == (if first_val(row@, i as int, j as int) > base {
                    first_val(row@, i as int, j as int)
                } else {
                    base as nat
                }),
            decreases n - j,
        {
            let value: u64 = 10 * (row[i] as u64) + row[j] as u64;
            proof {
                lemma_range_max_bounds(row@, i as int + 1, j as int + 1, j as int);
            }
            if value > max_value {
                max_value = value;
            }
            j = j + 1;
        }
        i = i + 1;
    }
    max_value
}

/// For each row, the largest number that two of its entries, picked in
/// order, spell; summed over the rows.
pub fn part1(grid: &Vec<Vec<u8>>) -> (sum: u64)
    requires
        grid_sum(grid@, grid.len() as int) <= u64::MAX,
    ensures
        sum == grid_sum(grid@, grid.len() as int),
{
    let mut sum: u64 = 0;
    let mut r: usize = 0;
    while r < grid.len()
        invariant
            r <= grid.len(),
            sum == grid_sum(grid@, r as int),
            grid_sum(grid@, grid.len() as int) <= u64::MAX,
        decreases grid.len() - r,
    {
        let best = best_pair(&grid[r]);
        proof {
            lemma_grid_sum_mono(grid@, r as int + 1, grid.len() as int);
        }
        sum = sum + best;
        r = r + 1;
    }
    sum
}

/// A number spelled by `k` entries of at most 255 is below `256 * 10^k / 9`.
pub proof fn lemma_spelled_bound(digits: Seq<u8>, k: int)
    requires
        0 <= k <= 12,
        k <= digits.len(),
    ensures
        spelled(digits, k) <= 28_333_333_333_305,
    decreases k,
{
    if k > 0 {
        lemma_spelled_step(digits, k);
    }
}

/// The bound of `lemma_spelled_bound`, digit by digit.
proof fn lemma_spelled_step(digits: Seq<u8>, k: int)
    requires
        1 <= k <= 12,
        k <= digits.len(),
    ensures
        k == 1 ==> spelled(digits, k) <= 255,
        k == 2 ==> spelled(digits, k) <= 2_805,
        k == 3 ==> spelled(digits, k) <= 28_305,
        k == 4 ==> spelled(digits, k) <= 283_305,
        k == 5 ==> spelled(digits, k) <= 2_833_305,
        k == 6 ==> spelled(digits, k) <= 28_333_305,
        k == 7 ==> spelled(digits, k) <= 283_333_305,
        k == 8 ==> spelled(digits, k) <= 2_833_333_305,
        k == 9 ==> spelled(digits, k) <= 28_333_333_305,
        k == 10 ==> spelled(digits, k) <= 283_333_333_305,
        k == 11 ==> spelled(digits, k) <= 2_833_333_333_305,
        k == 12 ==> spelled(digits, k) <= 28_333_333_333_305,
    decreases k,
{
    if k > 1 {
        lemma_spelled_step(digits, k - 1);
    }
    assert(spelled(digits, 0) == 0);
}

/// Converts up to twelve digits to the number they spell.
pub fn digits_to_number(digits: &[u8]) -> (value: u64)
    requires
        digits.len() <= 12,
    ensures
        value == spelled(digits@, digits.len() as int),
        value <= 28_333_333_333_305,
{
    let mut acc: u64 = 0;
    let mut i: usize = 0;
    while i < digits.len()
        invariant
            i <= digits.len() <= 12,
            acc == spelled(digits@, i as int),
            acc <= 28_333_333_333_305,
        decreases digits.len() - i,
    {
        proof {
            lemma_spelled_bound(digits@, i as int + 1);
        }
        acc = acc * 10 + digits[i] as u64;
        i = i + 1;
    }
    acc
}

/// Entry `j` of the row, where it lies between the picked entry `a` and
/// the one before it, is lower than the picked entry `a`.
pub open spec fn gap_lower(row: Seq<u8>, picks: Seq<int>, stack: Seq<u8>, a: int, j: int) -> bool {
    window_start(picks, a) <= j < picks[a] ==> row[j] < stack[a]
}

/// Every entry between two picked entries, or before the first, is lower
/// than the picked entry that follows it.
pub open spec fn driven_out(row: Seq<u8>, picks: Seq<int>, stack: Seq<u8>) -> bool {
    forall|a: int, j: int| 0 <= a < stack.len() ==> #[trigger] gap_lower(row, picks, stack, a, j)
}

/// Entry `j` of the row, where it was met after the picked entry `a`, is
/// no larger than it, unless it came when nothing could be driven out any
/// more: by then as many entries had been met as `to_remove` and the
/// picked ones up to that one.
pub open spec fn later_kept(
    row: Seq<u8>,
    picks: Seq<int>,
    stack: Seq<u8>,
    to_remove: int,
    met: int,
    a: int,
    j: int,
) -> bool {
    picks[a] < j < met ==> row[j] <= stack[a] || j >= to_remove + a + 1
}

/// `later_kept` of every picked entry and every entry of the row.
pub open spec fn kept_over(row: Seq<u8>, picks: Seq<int>, stack: Seq<u8>, to_remove: int, met: int) -> bool {
    forall|a: int, j: int| 0 <= a < stack.len() ==> #[trigger] later_kept(row, picks, stack, to_remove, met, a, j)
}

/// No entry is larger than one before it.
pub open spec fn falling(stack: Seq<u8>) -> bool {
    forall|a: int, b: int| 0 <= a <= b < stack.len() ==> #[trigger] stack[a] >= #[trigger] stack[b]
}

/// The entries of `row[from..to]` are lower than `digit`.
pub open spec fn below_digit(row: Seq<u8>, from: int, to: int, digit: u8) -> bool {
    forall|j: int| from <= j < to ==> #[trigger] row[j] < digit
}

/// What holds of the picked entries when `met` entries of the row have
/// been met and `removed` of them driven out.
pub open spec fn stack_ok(
    row: Seq<u8>,
    picks: Seq<int>,
    stack: Seq<u8>,
    to_remove: int,
    met: int,
    removed: int,
) -> bool {
    &&& picked(row, picks, stack)
    &&& driven_out(row, picks, stack)
    &&& kept_over(row, picks, stack, to_remove, met)
    &&& (removed < to_remove ==> falling(stack))
}

/// Driving out the last picked entry, for a larger one that is about to
/// be picked, keeps `stack_ok`.
pub proof fn lemma_drive_out(
    row: Seq<u8>,
    picks: Seq<int>,
    stack: Seq<u8>,
    to_remove: int,
    i: int,
    removed: int,
    digit: u8,
)
    requires
        stack_ok(row, picks, stack, to_remove, i, removed),
        stack.len() > 0,
        0 <= i < row.len(),
        digit == row[i],
        digit > stack[stack.len() - 1],
        below_digit(row, window_start(picks, stack.len() as int), i, digit),
    ensures
        stack_ok(row, picks.drop_last(), stack.drop_last(), to_remove, i, removed + 1),
        below_digit(row, window_start(picks.drop_last(), stack.len() - 1), i, digit),
{
    let t = stack.len() - 1;
    let kept = picks.drop_last();
    let held = stack.drop_last();
    assert forall|a: int| 0 <= a <= t implies window_start(kept, a) == window_start(picks, a) by {}
    assert(picked(row, kept, held)) by {
        assert forall|x: int, y: int| 0 <= x < y < kept.len() implies #[trigger] kept[x] < #[trigger] kept[y] by {
            assert(picks[x] < picks[y]);
        }
        assert forall|x: int| 0 <= x < kept.len() implies 0 <= #[trigger] kept[x] < row.len() by {
            assert(0 <= picks[x] < row.len());
        }
        assert forall|x: int| 0 <= x < kept.len() implies held[x] == row[#[trigger] kept[x]] by {
            assert(stack[x] == row[picks[x]]);
        }
    }
    assert forall|a: int, j: int| 0 <= a < held.len() implies #[trigger] gap_lower(row, kept, held, a, j) by {
        assert(gap_lower(row, picks, stack, a, j));
    }
    assert forall|a: int, j: int| 0 <= a < held.len() implies #[trigger] later_kept(
        row,
        kept,
        held,
        to_remove,
        i,
        a,
        j,
    ) by {
        assert(later_kept(row, picks, stack, to_remove, i, a, j));
    }
    if removed + 1 < to_remove {
        assert forall|x: int, y: int| 0 <= x <= y < held.len() implies #[trigger] held[x] >= #[trigger] held[y] by {
            assert(stack[x] >= stack[y]);
        }
    }
    assert forall|j: int| window_start(kept, t) <= j < i implies #[trigger] row[j] < digit by {
        assert(gap_lower(row, picks, stack, t, j));
        assert(stack[t] == row[picks[t]]);
        assert(window_start(picks, t + 1) == picks[t] + 1);
    }
}

/// Picking the entry at place `i`, when no entry stands to be driven out
/// for it, keeps `stack_ok`.
pub proof fn lemma_take_in(
    row: Seq<u8>,
    picks: Seq<int>,
    stack: Seq<u8>,
    to_remove: int,
    i: int,
    removed: int,
    digit: u8,
)
    requires
        stack_ok(row, picks, stack, to_remove, i, removed),
        0 <= i < row.len(),
        digit == row[i],
        stack.len() + removed == i,
        0 <= removed <= to_remove,
        removed == to_remove || stack.len() == 0 || digit <= stack[stack.len() - 1],
        below_digit(row, window_start(picks, stack.len() as int), i, digit),
        window_start(picks, stack.len() as int) <= i,
    ensures
        stack_ok(row, picks.push(i), stack.push(digit), to_remove, i + 1, removed),
        window_start(picks.push(i), stack.len() as int + 1) == i + 1,
{
    let t = stack.len() as int;
    let kept = picks.push(i);
    let held = stack.push(digit);
    assert forall|a: int| 0 <= a <= t implies window_start(kept, a) == window_start(picks, a) by {}
    assert(picked(row, kept, held)) by {
        assert forall|x: int, y: int| 0 <= x < y < kept.len() implies #[trigger] kept[x] < #[trigger] kept[y] by {
            if y == t {
                if x < t - 1 {
                    assert(picks[x] < picks[t - 1]);
                }
            } else {
                assert(picks[x] < picks[y]);
            }
        }
        assert forall|x: int| 0 <= x < kept.len() implies 0 <= #[trigger] kept[x] < row.len() by {
            if x < t {
                assert(0 <= picks[x] < row.len());
            }
        }
        assert forall|x: int| 0 <= x < kept.len() implies held[x] == row[#[trigger] kept[x]] by {
            if x < t {
                assert(stack[x] == row[picks[x]]);
            }
        }
    }
    assert forall|a: int, j: int| 0 <= a < held.len() implies #[trigger] gap_lower(row, kept, held, a, j) by {
        if a < t {
            assert(gap_lower(row, picks, stack, a, j));
        } else if window_start(kept, a) <= j < kept[a] {
            assert(row[j] < digit);
        }
    }
    assert forall|a: int, j: int| 0 <= a < held.len() implies #[trigger] later_kept(
        row,
        kept,
        held,
        to_remove,
        i + 1,
        a,
        j,
    ) by {
        if a < t {
            assert(later_kept(row, picks, stack, to_remove, i, a, j));
            if j == i && removed < to_remove {
                assert(stack[a] >= stack[t - 1]);
            }
        }
    }
    if removed < to_remove {
        assert forall|x: int, y: int| 0 <= x <= y < held.len() implies #[trigger] held[x] >= #[trigger] held[y] by {
            if y < t {
                assert(stack[x] >= stack[y]);
            } else if x < t {
                assert(stack[x] >= stack[t - 1]);
            }
        }
    }
}

/// Twelve entries picked so that `stack_ok` holds at the end of the row
/// are the greatest selection of twelve.
pub proof fn lemma_stack_greatest(row: Seq<u8>, picks: Seq<int>, stack: Seq<u8>)
    requires
        row.len() >= 12,
        stack.len() == 12,
        stack_ok(row, picks, stack, row.len() - 12, row.len() as int, row.len() - 12),
    ensures
        is_greatest(row, 12, stack),
        greatest(row, 12) == stack,
{
    assert forall|k: int, j: int| 0 <= k < 12 implies #[trigger] largest_in_window(row, 12, picks, stack, k, j) by {
        assert(gap_lower(row, picks, stack, k, j));
        assert(later_kept(row, picks, stack, row.len() - 12, row.len() as int, k, j));
        assert(stack[k] == row[picks[k]]);
    }
    assert forall|k: int, j: int| 0 <= k < 12 implies #[trigger] first_in_window(row, picks, stack, k, j) by {
        assert(gap_lower(row, picks, stack, k, j));
    }
    lemma_window_greatest(row, 12, picks, stack);
}

/// Picks the greatest selection of twelve entries of a row of at least
/// twelve: an entry drives out smaller entries picked before it for as
/// long as enough entries are left to make up twelve, and of what remains
/// the first twelve are kept.
pub fn pick_twelve(row: &Vec<u8>) -> (chosen: Vec<u8>)
    requires
        row.len() >= 12,
    ensures
        chosen.len() == 12,
        is_greatest(row@, 12, chosen@),
        greatest(row@, 12) == chosen@,
{
    let to_remove: usize = row.len() - 12;
    let mut removed: usize = 0;
    let mut stack: Vec<u8> = Vec::new();
    let ghost mut picks: Seq<int> = Seq::empty();
    let mut i: usize = 0;
    while i < row.len()
        invariant
            i <= row.len(),
            to_remove == row.len() - 12,
            removed <= to_remove,
            stack.len() + removed == i,
            window_start(picks, stack.len() as int) == i,
            stack_ok(row@, picks, stack@, to_remove as int, i as int, removed as int),
        decreases row.len() - i,
    {
        let digit: u8 = row[i];
        while removed < to_remove && stack.len() > 0 && digit > stack[stack.len() - 1]
            invariant
                i < row.len(),
                digit == row[i as int],
                to_remove == row.len() - 12,
                removed <= to_remove,
                stack.len() + removed == i,
                stack_ok(row@, picks, stack@, to_remove as int, i as int, removed as int),
                below_digit(row@, window_start(picks, stack.len() as int), i as int, digit),
                window_start(picks, stack.len() as int) <= i,
            decreases stack.len(),
        {
            proof {
                lemma_drive_out(row@, picks, stack@, to_remove as int, i as int, removed as int, digit);
                if stack.len() >= 2 {
                    assert(picks[stack.len() - 2] < picks[stack.len() - 1]);
                }
            }
            stack.pop();
            removed = removed + 1;
            proof {
                picks = picks.drop_last();
            }
        }
        proof {
            lemma_take_in(row@, picks, stack@, to_remove as int, i as int, removed as int, digit);
            picks = picks.push(i as int);
        }
        stack.push(digit);
        i = i + 1;
    }
    while stack.len() > 12
        invariant
            stack.len() >= 12,
            stack.len() == picks.len(),
            picked(row@, picks, stack@),
            driven_out(row@, picks, stack@),
            kept_over(row@, picks, stack@, row.len() - 12, row.len() as int),
        decreases stack.len(),
    {
        let ghost p0 = picks;
        let ghost s0 = stack@;
        stack.pop();
        proof {
            picks = picks.drop_last();
            assert forall|a: int| 0 <= a < picks.len() implies window_start(picks, a) == window_start(p0, a) by {}
            assert forall|x: int, y: int| 0 <= x < y < picks.len() implies #[trigger] picks[x] < #[trigger] picks[y] by {
                assert(p0[x] < p0[y]);
            }
            assert forall|x: int| 0 <= x < picks.len() implies 0 <= #[trigger] picks[x] < row@.len() by {
                assert(0 <= p0[x] < row@.len());
            }
            assert forall|x: int| 0 <= x < picks.len() implies stack@[x] == row@[#[trigger] picks[x]] by {
                assert(s0[x] == row@[p0[x]]);
            }
            assert forall|a: int, j: int| 0 <= a < stack@.len() implies #[trigger] gap_lower(
                row@,
                picks,
                stack@,
                a,
                j,
            ) by {
                assert(gap_lower(row@, p0, s0, a, j));
            }
            assert forall|a: int, j: int| 0 <= a < stack@.len() implies #[trigger] later_kept(
                row@,
                picks,
                stack@,
                row.len() - 12,
                row.len() as int,
                a,
                j,
            ) by {
                assert(later_kept(row@, p0, s0, row.len() - 12, row.len() as int, a, j));
            }
        }
    }
    proof {
        lemma_stack_greatest(row@, picks, stack@);
    }
    stack
}

/// The number that the greatest selection of twelve entries of a row
/// spells.
pub fn best_twelve(row: &Vec<u8>) -> (value: u64)
    ensures
        value == pick_value(row@, 12),
{
    if row.len() < 12 {
        0
    } else if row.len() == 12 {
        proof {
            lemma_whole_row(row@);
        }
        digits_to_number(row.as_slice())
    } else {
        let stack = pick_twelve(row);
        digits_to_number(stack.as_slice())
    }
}

/// For each row, the largest number that twelve of its entries, picked in
/// order, spell: the number of its greatest selection of twelve. Summed
/// over the rows; a row of fewer than twelve entries adds nothing.
pub fn part2(grid: &Vec<Vec<u8>>) -> (sum: u64)
    requires
        picks_sum(grid@, 12, grid.len() as int) <= u64::MAX,
    ensures
        sum == picks_sum(grid@, 12, grid.len() as int),
{
    let mut sum: u64 = 0;
    let mut r: usize = 0;
    while r < grid.len()
        invariant
            r <= grid.len(),
            sum == picks_sum(grid@, 12, r as int),
            picks_sum(grid@, 12, grid.len() as int) <= u64::MAX,
        decreases grid.len() - r,
    {
        let value = best_twelve(&grid[r]);
        proof {
            lemma_picks_sum_mono(grid@, 12, r as int + 1, grid.len() as int);
        }
        sum = sum + value;
        r = r + 1;
    }
    sum
}

/// Tells whether the sums over the rows fit 64 bits: that of the largest
/// pairs and that of the greatest selections of twelve.
pub fn rows_fit(grid: &Vec<Vec<u8>>) -> (ok: bool)
    ensures
        ok == (grid_sum(grid@, grid.len() as int) <= u64::MAX && picks_sum(grid@, 12, grid.len() as int)
            <= u64::MAX),
{
    let mut pairs: u64 = 0;
    let mut picks: u64 = 0;
    let mut r: usize = 0;
    while r < grid.len()
        invariant
            r <= grid.len(),
            pairs == grid_sum(grid@, r as int),
            picks == picks_sum(grid@, 12, r as int),
        decreases grid.len() - r,
    {
        let pair: u64 = best_pair(&grid[r]);
        let pick: u64 = best_twelve(&grid[r]);
        if pair > u64::MAX - pairs || pick > u64::MAX - picks {
            proof {
                lemma_grid_sum_mono(grid@, r as int + 1, grid.len() as int);
                lemma_picks_sum_mono(grid@, 12, r as int + 1, grid.len() as int);
            }
            return false;
        }
        pairs = pairs + pair;
        picks = picks + pick;
        r = r + 1;
    }
    true
}

} // verus!
