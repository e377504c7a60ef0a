//! The counting model of a toggle network: each step may be applied any
//! number of times, each application adds one to every position the step
//! touches, and the question is the least total number of applications that
//! brings every position to its target count.
use vstd::prelude::*;
use crate::bits::{
    bit, fits, lemma_bit_ext, lemma_bit_ops, lemma_bit_single, lemma_weight_fits, weight, weight_below,
};
use crate::toggle::{lemma_fold_bit, lemma_fold_fits, pattern_of, reaches, touch, well_formed};

verus! {

/// How often position `r` is incremented by the first `k` steps under the
/// multiplicities `mult`.
pub open spec fn tally(steps: Seq<u32>, mult: Seq<nat>, r: int, k: int) -> nat
    decreases k,
{
    if k <= 0 {
        0
    } else {
        tally(steps, mult, r, k - 1) + (if bit(steps[k - 1] as u64, r) {
            mult[k - 1]
        } else {
            0nat
        })
    }
}

/// Total number of applications among the first `k` steps.
pub open spec fn total(mult: Seq<nat>, k: int) -> nat
    decreases k,
{
    if k <= 0 {
        0
    } else {
        total(mult, k - 1) + mult[k - 1]
    }
}

/// The multiplicities `mult`, one per step, bring every position exactly to
/// its count.
pub open spec fn hits(steps: Seq<u32>, mult: Seq<nat>, counts: Seq<u32>) -> bool {
    &&& mult.len() == steps.len()
    &&& forall|r: int| 0 <= r < counts.len() ==> #[trigger] tally(steps, mult, r, steps.len() as int) == counts[r]
}

/// Some multiplicities with at most `k` applications in total hit the counts.
pub open spec fn within_total(steps: Seq<u32>, counts: Seq<u32>, k: int) -> bool {
    exists|mult: Seq<nat>| #[trigger] hits(steps, mult, counts) && total(mult, steps.len() as int) <= k
}

/// Some multiplicities hit the counts.
pub open spec fn solvable_counts(steps: Seq<u32>, counts: Seq<u32>) -> bool {
    exists|mult: Seq<nat>| hits(steps, mult, counts)
}

/// `k` is the least total number of applications that hits the counts.
pub open spec fn is_least_total(steps: Seq<u32>, counts: Seq<u32>, k: int) -> bool {
    within_total(steps, counts, k) && !within_total(steps, counts, k - 1)
}

/// `res` answers the second question: the least total number of step
/// applications that hits the counts, or `None` where none does.
pub open spec fn is_count_answer(steps: Seq<u32>, counts: Seq<u32>, res: Option<u64>) -> bool {
    match res {
        Some(k) => is_least_total(steps, counts, k as int),
        None => !solvable_counts(steps, counts),
    }
}

/// Every count is zero.
pub open spec fn all_zero(counts: Seq<u32>) -> bool {
    forall|r: int| 0 <= r < counts.len() ==> #[trigger] counts[r] == 0
}

/// Sum of the counts.
pub open spec fn sum_counts(counts: Seq<u32>) -> nat
    decreases counts.len(),
{
    if counts.len() == 0 {
        0
    } else {
        sum_counts(counts.drop_last()) + counts.last() as nat
    }
}

/// `pat` has bit `r` set exactly where count `r` is odd.
pub open spec fn is_parity(counts: Seq<u32>, pat: u32) -> bool {
    forall|r: int| 0 <= r < 64 ==> (#[trigger] bit(pat as u64, r)) == (r < counts.len() && counts[r] % 2 == 1)
}

/// Applying once each step that `c` names does not exceed any count.
pub open spec fn feasible(steps: Seq<u32>, c: u64, counts: Seq<u32>) -> bool {
    forall|r: int| 0 <= r < counts.len() ==> #[trigger] touch(steps, c, r, steps.len() as int) <= counts[r]
}

/// Half of what is left of each count once each step that `c` names has
/// been applied once.
pub open spec fn residual(steps: Seq<u32>, c: u64, counts: Seq<u32>) -> Seq<u32> {
    Seq::new(counts.len(), |r: int| ((counts[r] - touch(steps, c, r, steps.len() as int)) / 2) as u32)
}

/// The selection of the steps whose multiplicity is odd, among the first `k`.
pub open spec fn odd_part(mult: Seq<nat>, k: int) -> u64
    decreases k,
{
    if k <= 0 {
        0u64
    } else {
        odd_part(mult, k - 1) | (if mult[k - 1] % 2 == 1 {
            1u64 << ((k - 1) as u64)
        } else {
            0u64
        })
    }
}

/// Half of each multiplicity, rounded down.
pub open spec fn half_part(mult: Seq<nat>) -> Seq<nat> {
    Seq::new(mult.len(), |i: int| mult[i] / 2)
}

/// The multiplicities that apply each step of `c` once and then twice what
/// `y` says.
pub open spec fn doubled(c: u64, y: Seq<nat>) -> Seq<nat> {
    Seq::new(y.len(), |i: int| (if bit(c, i) { 1nat } else { 0nat }) + 2 * y[i])
}

/// No step applied at all.
pub open spec fn idle(m: nat) -> Seq<nat> {
    Seq::new(m, |i: int| 0nat)
}

/// Bits of `odd_part`.
pub proof fn lemma_odd_part(mult: Seq<nat>, k: int)
    requires
        0 <= k <= 64,
    ensures
        forall|i: int| #[trigger] bit(odd_part(mult, k), i) == (0 <= i < k && mult[i] % 2 == 1),
    decreases k,
{
    lemma_bit_single(0);
    if k > 0 {
        lemma_odd_part(mult, k - 1);
        lemma_bit_single(k - 1);
        let add = if mult[k - 1] % 2 == 1 { 1u64 << ((k - 1) as u64) } else { 0u64 };
        lemma_bit_ops(odd_part(mult, k - 1), add);
    }
}

/// A multiplicity vector splits into its odd part, applied once, and twice
/// its half part.
pub proof fn lemma_split_tally(steps: Seq<u32>, mult: Seq<nat>, c: u64, r: int, k: int)
    requires
        0 <= k <= steps.len(),
        mult.len() == steps.len(),
        forall|i: int| 0 <= i < k ==> bit(c, i) == (mult[i] % 2 == 1),
    ensures
        tally(steps, mult, r, k) == touch(steps, c, r, k) + 2 * tally(steps, half_part(mult), r, k),
        total(mult, k) == weight_below(c, k) + 2 * total(half_part(mult), k),
    decreases k,
{
    if k > 0 {
        lemma_split_tally(steps, mult, c, r, k - 1);
    }
}

/// Once-applied steps and doubled multiplicities add up position by position.
pub proof fn lemma_join_tally(steps: Seq<u32>, c: u64, y: Seq<nat>, r: int, k: int)
    requires
        0 <= k <= steps.len(),
        y.len() == steps.len(),
    ensures
        tally(steps, doubled(c, y), r, k) == touch(steps, c, r, k) + 2 * tally(steps, y, r, k),
        total(doubled(c, y), k) == weight_below(c, k) + 2 * total(y, k),
    decreases k,
{
    if k > 0 {
        lemma_join_tally(steps, c, y, r, k - 1);
    }
}

/// Applying no step hits the all-zero counts with total zero.
pub proof fn lemma_idle(steps: Seq<u32>, r: int, k: int)
    requires
        0 <= k <= steps.len(),
    ensures
        tally(steps, idle(steps.len()), r, k) == 0,
        total(idle(steps.len()), k) == 0,
    decreases k,
{
    if k > 0 {
        lemma_idle(steps, r, k - 1);
    }
}

/// The position is incremented at least as often as any one step that
/// touches it is applied.
pub proof fn lemma_tally_ge(steps: Seq<u32>, mult: Seq<nat>, r: int, k: int, i: int)
    requires
        0 <= i < k <= steps.len(),
        bit(steps[i] as u64, r),
    ensures
        tally(steps, mult, r, k) >= mult[i],
    decreases k,
{
    if k - 1 > i {
        lemma_tally_ge(steps, mult, r, k - 1, i);
    }
}

/// How a change of one multiplicity changes tallies and totals.
pub proof fn lemma_tally_update(steps: Seq<u32>, mult: Seq<nat>, r: int, k: int, i: int, v: nat)
    requires
        0 <= k <= steps.len(),
        mult.len() == steps.len(),
        0 <= i < mult.len(),
    ensures
        tally(steps, mult.update(i, v), r, k) == tally(steps, mult, r, k) + (if i < k && bit(
            steps[i] as u64,
            r,
        ) {
            v - mult[i]
        } else {
            0int
        }),
        total(mult.update(i, v), k) == total(mult, k) + (if i < k {
            v - mult[i]
        } else {
            0int
        }),
    decreases k,
{
    if k > 0 {
        lemma_tally_update(steps, mult, r, k - 1, i, v);
    }
}

/// A total of bounded multiplicities is bounded.
pub proof fn lemma_total_bound(mult: Seq<nat>, k: int, mx: int)
    requires
        0 <= k <= mult.len(),
        forall|i: int| 0 <= i < k ==> mult[i] <= mx,
    ensures
        total(mult, k) <= k * mx,
    decreases k,
{
    if k > 0 {
        lemma_total_bound(mult, k - 1, mx);
        assert(k * mx == (k - 1) * mx + mx) by (nonlinear_arith);
    } else {
        assert(k * mx == 0) by (nonlinear_arith)
            requires
                k == 0,
        ;
    }
}

/// A touch count never decreases as more steps are taken into account, and
/// never exceeds their number.
pub proof fn lemma_touch_mono(steps: Seq<u32>, c: u64, r: int, a: int, b: int)
    requires
        a <= b,
    ensures
        touch(steps, c, r, a) <= touch(steps, c, r, b),
        touch(steps, c, r, b) <= (if b <= 0 { 0 } else { b }),
    decreases b,
{
    if b > 0 {
        if a < b {
            lemma_touch_mono(steps, c, r, a, b - 1);
        } else {
            lemma_touch_mono(steps, c, r, b - 1, b - 1);
        }
    }
}

/// The all-zero counts are hit by applying no step, and by nothing cheaper.
pub proof fn lemma_zero_counts(steps: Seq<u32>, counts: Seq<u32>)
    requires
        all_zero(counts),
    ensures
        is_least_total(steps, counts, 0),
{
    let z = idle(steps.len());
    assert forall|r: int| 0 <= r < counts.len() implies #[trigger] tally(steps, z, r, steps.len() as int)
        == counts[r] by {
        lemma_idle(steps, r, steps.len() as int);
    }
    lemma_idle(steps, 0, steps.len() as int);
    assert(hits(steps, z, counts) && total(z, steps.len() as int) <= 0);
}

/// The least total, where it exists, is unique.
pub proof fn lemma_least_total_unique(steps: Seq<u32>, counts: Seq<u32>, a: int, b: int)
    requires
        is_least_total(steps, counts, a),
        is_least_total(steps, counts, b),
    ensures
        a == b,
{
    if a < b {
        let mu = choose|mu: Seq<nat>| #[trigger] hits(steps, mu, counts) && total(mu, steps.len() as int) <= a;
        assert(hits(steps, mu, counts) && total(mu, steps.len() as int) <= b - 1);
    }
    if b < a {
        let mu = choose|mu: Seq<nat>| #[trigger] hits(steps, mu, counts) && total(mu, steps.len() as int) <= b;
        assert(hits(steps, mu, counts) && total(mu, steps.len() as int) <= a - 1);
    }
}

/// A larger budget hits whatever a smaller one does.
pub proof fn lemma_within_total_mono(steps: Seq<u32>, counts: Seq<u32>, a: int, b: int)
    requires
        within_total(steps, counts, a),
        a <= b,
    ensures
        within_total(steps, counts, b),
{
    let mu = choose|mu: Seq<nat>| #[trigger] hits(steps, mu, counts) && total(mu, steps.len() as int) <= a;
    assert(hits(steps, mu, counts) && total(mu, steps.len() as int) <= b);
}

/// Any multiplicities that hit the counts split into a once-applied
/// selection that matches the counts' parity and is feasible, and
/// multiplicities that hit the residual counts.
pub proof fn lemma_decompose(steps: Seq<u32>, n: int, mult: Seq<nat>, counts: Seq<u32>, pat: u32) -> (c:
    u64)
    requires
        well_formed(steps, n),
        counts.len() == n,
        hits(steps, mult, counts),
        is_parity(counts, pat),
    ensures
        reaches(steps, pat, c),
        feasible(steps, c, counts),
        hits(steps, half_part(mult), residual(steps, c, counts)),
        total(mult, steps.len() as int) == weight(c) + 2 * total(half_part(mult), steps.len() as int),
{
    let m = steps.len() as int;
    let c = odd_part(mult, m);
    let y = half_part(mult);
    lemma_odd_part(mult, m);
    assert(fits(c, m));
    lemma_weight_fits(c, m, 64);
    lemma_fold_fits(steps, c, n, m);
    lemma_split_tally(steps, mult, c, 0, m);
    assert forall|r: int| 0 <= r < 64 implies bit(pattern_of(steps, c), r) == bit(pat as u64, r) by {
        lemma_fold_bit(steps, c, r, m);
        lemma_split_tally(steps, mult, c, r, m);
        if r < n {
            assert(tally(steps, mult, r, m) == counts[r]);
        } else {
            assert(!bit(pattern_of(steps, c), r));
        }
    }
    lemma_bit_ext(pattern_of(steps, c), pat as u64);
    let res = residual(steps, c, counts);
    assert forall|r: int| 0 <= r < counts.len() implies #[trigger] touch(steps, c, r, m) <= counts[r] by {
        lemma_split_tally(steps, mult, c, r, m);
        assert(tally(steps, mult, r, m) == counts[r]);
    }
    assert forall|r: int| 0 <= r < res.len() implies #[trigger] tally(steps, y, r, m) == res[r] by {
        lemma_split_tally(steps, mult, c, r, m);
        assert(tally(steps, mult, r, m) == counts[r]);
    }
    c
}

/// A feasible once-applied selection that matches the counts' parity,
/// together with multiplicities that hit the residual counts, hits the
/// counts.
pub proof fn lemma_compose(steps: Seq<u32>, n: int, c: u64, y: Seq<nat>, counts: Seq<u32>, pat: u32)
    requires
        well_formed(steps, n),
        counts.len() == n,
        is_parity(counts, pat),
        reaches(steps, pat, c),
        feasible(steps, c, counts),
        hits(steps, y, residual(steps, c, counts)),
    ensures
        hits(steps, doubled(c, y), counts),
        total(doubled(c, y), steps.len() as int) == weight(c) + 2 * total(y, steps.len() as int),
{
    let m = steps.len() as int;
    let res = residual(steps, c, counts);
    lemma_weight_fits(c, m, 64);
    lemma_join_tally(steps, c, y, 0, m);
    assert forall|r: int| 0 <= r < counts.len() implies #[trigger] tally(steps, doubled(c, y), r, m)
        == counts[r] by {
        lemma_join_tally(steps, c, y, r, m);
        lemma_fold_bit(steps, c, r, m);
        assert(bit(pat as u64, r) == (counts[r] % 2 == 1));
        assert(touch(steps, c, r, m) <= counts[r]);
        assert(tally(steps, y, r, m) == res[r]);
    }
}

/// A least total is at most the number of steps times the largest count:
/// a step that touches nothing is never applied, and any other step is
/// applied at most as often as a position it touches is incremented.
pub proof fn lemma_least_total_bound(steps: Seq<u32>, n: int, counts: Seq<u32>, k: int, mx: int)
    requires
        well_formed(steps, n),
        counts.len() == n,
        is_least_total(steps, counts, k),
        forall|r: int| 0 <= r < counts.len() ==> counts[r] <= mx,
        mx >= 0,
    ensures
        0 <= k <= steps.len() * mx,
{
    let m = steps.len() as int;
    let mult = choose|mu: Seq<nat>| #[trigger] hits(steps, mu, counts) && total(mu, m) <= k;
    if total(mult, m) < k {
        assert(hits(steps, mult, counts) && total(mult, m) <= k - 1);
    }
    assert forall|i: int| 0 <= i < m implies mult[i] <= mx by {
        if exists|r: int| 0 <= r < n && #[trigger] bit(steps[i] as u64, r) {
            let r = choose|r: int| 0 <= r < n && #[trigger] bit(steps[i] as u64, r);
            lemma_tally_ge(steps, mult, r, m, i);
            assert(tally(steps, mult, r, m) == counts[r]);
        } else {
            if mult[i] > 0 {
                let mu2 = mult.update(i, 0nat);
                assert forall|r: int| 0 <= r < counts.len() implies #[trigger] tally(steps, mu2, r, m)
                    == counts[r] by {
                    lemma_tally_update(steps, mult, r, m, i, 0nat);
                    assert(tally(steps, mult, r, m) == counts[r]);
                }
                lemma_tally_update(steps, mult, 0, m, i, 0nat);
                assert(hits(steps, mu2, counts) && total(mu2, m) <= k - 1);
            }
        }
    }
    lemma_total_bound(mult, m, mx);
}


/// Counts that are pointwise at most other counts have at most their sum.
pub proof fn lemma_sum_le(a: Seq<u32>, b: Seq<u32>)
    requires
        a.len() == b.len(),
        forall|r: int| 0 <= r < a.len() ==> a[r] <= b[r],
    ensures
        sum_counts(a) <= sum_counts(b),
    decreases a.len(),
{
    if a.len() > 0 {
        lemma_sum_le(a.drop_last(), b.drop_last());
    }
}

/// Counts that are pointwise at most other counts, and below them
/// somewhere, have a smaller sum.
pub proof fn lemma_sum_lt(a: Seq<u32>, b: Seq<u32>, at: int)
    requires
        a.len() == b.len(),
        forall|r: int| 0 <= r < a.len() ==> a[r] <= b[r],
        0 <= at < a.len(),
        a[at] < b[at],
    ensures
        sum_counts(a) < sum_counts(b),
    decreases a.len(),
{
    if at == a.len() - 1 {
        lemma_sum_le(a.drop_last(), b.drop_last());
    } else {
        lemma_sum_lt(a.drop_last(), b.drop_last(), at);
    }
}

/// The residual of counts that are not all zero has a smaller sum.
pub proof fn lemma_residual_smaller(steps: Seq<u32>, c: u64, counts: Seq<u32>)
    requires
        feasible(steps, c, counts),
        !all_zero(counts),
    ensures
        sum_counts(residual(steps, c, counts)) < sum_counts(counts),
{
    let res = residual(steps, c, counts);
    let at = choose|r: int| 0 <= r < counts.len() && #[trigger] counts[r] != 0;
    assert forall|r: int| 0 <= r < res.len() implies res[r] <= counts[r] by {
        assert(touch(steps, c, r, steps.len() as int) <= counts[r]);
    }
    assert(touch(steps, c, at, steps.len() as int) <= counts[at]);
    lemma_sum_lt(res, counts, at);
}


/// A position that no step touches is never incremented.
pub proof fn lemma_untouched(steps: Seq<u32>, mult: Seq<nat>, r: int, k: int)
    requires
        0 <= k <= steps.len(),
        forall|i: int| 0 <= i < steps.len() ==> !bit(#[trigger] steps[i] as u64, r),
    ensures
        tally(steps, mult, r, k) == 0,
    decreases k,
{
    if k > 0 {
        lemma_untouched(steps, mult, r, k - 1);
        assert(!bit(steps[k - 1] as u64, r));
    }
}

/// Where no selection matches the parity of the counts, no multiplicities
/// hit them.
pub proof fn lemma_parity_needed(steps: Seq<u32>, n: int, counts: Seq<u32>, pat: u32)
    requires
        well_formed(steps, n),
        counts.len() == n,
        is_parity(counts, pat),
        forall|x: u64| !reaches(steps, pat, x),
    ensures
        !solvable_counts(steps, counts),
{
    if solvable_counts(steps, counts) {
        let mult = choose|mu: Seq<nat>| hits(steps, mu, counts);
        let c = lemma_decompose(steps, n, mult, counts, pat);
    }
}


/// Multiplicities over one step set carry over to another that holds every
/// step of the first that touches anything: the same tallies, with no
/// more applications.
pub proof fn lemma_transfer(a: Seq<u32>, b: Seq<u32>, mult: Seq<nat>, i: int) -> (moved: Seq<nat>)
    requires
        0 <= i <= a.len(),
        mult.len() == a.len(),
        forall|x: int| 0 <= x < a.len() ==> a[x] == 0 || b.contains(#[trigger] a[x]),
    ensures
        moved.len() == b.len(),
        forall|r: int| #[trigger] tally(b, moved, r, b.len() as int) == tally(a, mult, r, i),
        total(moved, b.len() as int) <= total(mult, i),
    decreases i,
{
    if i == 0 {
        let moved = idle(b.len());
        assert forall|r: int| #[trigger] tally(b, moved, r, b.len() as int) == tally(a, mult, r, 0) by {
            lemma_idle(b, r, b.len() as int);
        }
        lemma_idle(b, 0, b.len() as int);
        moved
    } else {
        let before = lemma_transfer(a, b, mult, i - 1);
        let v = a[i - 1];
        if v == 0 {
            lemma_bit_single(0);
            assert forall|r: int| #[trigger] tally(b, before, r, b.len() as int) == tally(a, mult, r, i) by {
                assert(!bit(0u64, r));
                assert(tally(b, before, r, b.len() as int) == tally(a, mult, r, i - 1));
            }
            before
        } else {
            assert(b.contains(a[i - 1]));
            let j = choose|j: int| 0 <= j < b.len() && b[j] == v;
            let moved = before.update(j, before[j] + mult[i - 1]);
            assert forall|r: int| #[trigger] tally(b, moved, r, b.len() as int) == tally(a, mult, r, i) by {
                lemma_tally_update(b, before, r, b.len() as int, j, before[j] + mult[i - 1]);
                assert(tally(b, before, r, b.len() as int) == tally(a, mult, r, i - 1));
            }
            lemma_tally_update(b, before, 0, b.len() as int, j, before[j] + mult[i - 1]);
            moved
        }
    }
}

/// Step sets that hold the same steps, apart from steps that touch
/// nothing and from repetitions, hit the same counts within the same
/// budgets.
pub proof fn lemma_same_steps(a: Seq<u32>, b: Seq<u32>, counts: Seq<u32>, k: int)
    requires
        forall|x: int| 0 <= x < a.len() ==> a[x] == 0 || b.contains(#[trigger] a[x]),
        forall|x: int| 0 <= x < b.len() ==> b[x] == 0 || a.contains(#[trigger] b[x]),
    ensures
        within_total(a, counts, k) == within_total(b, counts, k),
{
    if within_total(a, counts, k) {
        let mu = choose|mu: Seq<nat>| #[trigger] hits(a, mu, counts) && total(mu, a.len() as int) <= k;
        let moved = lemma_transfer(a, b, mu, a.len() as int);
        assert forall|r: int| 0 <= r < counts.len() implies #[trigger] tally(b, moved, r, b.len() as int)
            == counts[r] by {
            assert(tally(a, mu, r, a.len() as int) == counts[r]);
        }
        assert(hits(b, moved, counts) && total(moved, b.len() as int) <= k);
    }
    if within_total(b, counts, k) {
        let mu = choose|mu: Seq<nat>| #[trigger] hits(b, mu, counts) && total(mu, b.len() as int) <= k;
        let moved = lemma_transfer(b, a, mu, b.len() as int);
        assert forall|r: int| 0 <= r < counts.len() implies #[trigger] tally(a, moved, r, a.len() as int)
            == counts[r] by {
            assert(tally(b, mu, r, b.len() as int) == counts[r]);
        }
        assert(hits(a, moved, counts) && total(moved, a.len() as int) <= k);
    }
}

/// An answer for one of two such step sets is an answer for the other.
pub proof fn lemma_same_answer(a: Seq<u32>, b: Seq<u32>, counts: Seq<u32>, res: Option<u64>)
    requires
        forall|x: int| 0 <= x < a.len() ==> a[x] == 0 || b.contains(#[trigger] a[x]),
        forall|x: int| 0 <= x < b.len() ==> b[x] == 0 || a.contains(#[trigger] b[x]),
        is_count_answer(b, counts, res),
    ensures
        is_count_answer(a, counts, res),
{
    match res {
        Some(k) => {
            lemma_same_steps(a, b, counts, k as int);
            lemma_same_steps(a, b, counts, k - 1);
        },
        None => {
            if solvable_counts(a, counts) {
                let mu = choose|mu: Seq<nat>| hits(a, mu, counts);
                let t = total(mu, a.len() as int) as int;
                assert(hits(a, mu, counts) && total(mu, a.len() as int) <= t);
                lemma_same_steps(a, b, counts, t);
                let nu = choose|nu: Seq<nat>| #[trigger] hits(b, nu, counts) && total(nu, b.len() as int) <= t;
                assert(hits(b, nu, counts));
            }
        },
    }
}

} // verus!
