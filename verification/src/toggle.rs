//! The mathematical model of a toggle network.
//!
//! A network has `n <= 32` positions and `m <= 64` steps. Step `i` is a bit
//! pattern over the positions it touches. A selection of steps is a bit
//! pattern over the step indices; applying a selection to the all-off state
//! yields the exclusive or of the chosen step patterns.
use vstd::prelude::*;
use crate::bits::{
    bit, fits, lemma_bit_ext, lemma_bit_ops, lemma_bit_single, lemma_weight_bound, lemma_weight_fits,
    lemma_weight_flip, lemma_weight_none, lemma_weight_sparse, lemma_weight_witness, lemma_weight_xor_le, lemma_xor_algebra, lemma_xor_shuffle,
    lemma_xor_twice, lemma_xor_widen,
    weight, weight_below,
};

verus! {

/// The pattern that step `i` contributes under selection `x`.
pub open spec fn chosen(steps: Seq<u32>, x: u64, i: int) -> u64 {
    if bit(x, i) {
        steps[i] as u64
    } else {
        0u64
    }
}

/// Exclusive or of the chosen patterns among the first `k` steps.
pub open spec fn xor_fold(steps: Seq<u32>, x: u64, k: int) -> u64
    decreases k,
{
    if k <= 0 {
        0u64
    } else {
        xor_fold(steps, x, k - 1) ^ chosen(steps, x, k - 1)
    }
}

/// The on/off pattern reached from all-off by applying once each step that
/// selection `x` names.
pub open spec fn pattern_of(steps: Seq<u32>, x: u64) -> u64 {
    xor_fold(steps, x, steps.len() as int)
}

/// How many of the first `k` steps are chosen by `x` and touch position `r`.
pub open spec fn touch(steps: Seq<u32>, x: u64, r: int, k: int) -> nat
    decreases k,
{
    if k <= 0 {
        0
    } else {
        touch(steps, x, r, k - 1) + (if bit(x, k - 1) && bit(steps[k - 1] as u64, r) {
            1nat
        } else {
            0nat
        })
    }
}

/// Every step pattern and the target lie within `n` positions, and the
/// step indices fit a 64-bit selection.
pub open spec fn well_formed(steps: Seq<u32>, n: int) -> bool {
    &&& 0 <= n <= 32
    &&& steps.len() <= 64
    &&& forall|i: int| 0 <= i < steps.len() ==> fits(#[trigger] steps[i] as u64, n)
}

/// Selection `x` names existing steps only and reaches `target`.
pub open spec fn reaches(steps: Seq<u32>, target: u32, x: u64) -> bool {
    fits(x, steps.len() as int) && pattern_of(steps, x) == target as u64
}

/// Some selection of at most `w` steps reaches `target`.
pub open spec fn within(steps: Seq<u32>, target: u32, w: int) -> bool {
    exists|x: u64| #[trigger] reaches(steps, target, x) && weight(x) <= w
}

/// Some selection reaches `target`.
pub open spec fn solvable(steps: Seq<u32>, target: u32) -> bool {
    exists|x: u64| reaches(steps, target, x)
}

/// `w` is the least number of distinct steps whose combined effect is `target`.
pub open spec fn is_least_weight(steps: Seq<u32>, target: u32, w: int) -> bool {
    within(steps, target, w) && !within(steps, target, w - 1)
}

/// `res` answers the first question: the least number of distinct steps
/// that reach `target`, or `None` where no selection reaches it.
pub open spec fn is_answer(steps: Seq<u32>, target: u32, res: Option<u64>) -> bool {
    match res {
        Some(w) => is_least_weight(steps, target, w as int),
        None => !solvable(steps, target),
    }
}

/// Applying selections is linear over exclusive or.
pub proof fn lemma_fold_linear(steps: Seq<u32>, a: u64, b: u64, k: int)
    ensures
        xor_fold(steps, a ^ b, k) == xor_fold(steps, a, k) ^ xor_fold(steps, b, k),
    decreases k,
{
    if k <= 0 {
        lemma_xor_algebra(0, 0, 0);
    } else {
        lemma_fold_linear(steps, a, b, k - 1);
        lemma_bit_ops(a, b);
        let fa = xor_fold(steps, a, k - 1);
        let fb = xor_fold(steps, b, k - 1);
        let s = steps[k - 1] as u64;
        lemma_xor_algebra(fa, fb, s);
        lemma_xor_algebra(fa, fb ^ s, 0);
        lemma_xor_algebra(fa ^ s, fb, 0);
        assert(bit(a ^ b, k - 1) == (bit(a, k - 1) != bit(b, k - 1)));
    }
}

/// Position `r` is on after applying `x` exactly when an odd number of the
/// chosen steps touch it.
pub proof fn lemma_fold_bit(steps: Seq<u32>, x: u64, r: int, k: int)
    requires
        0 <= r < 64,
    ensures
        bit(xor_fold(steps, x, k), r) == (touch(steps, x, r, k) % 2 == 1),
    decreases k,
{
    lemma_bit_single(0);
    if k > 0 {
        lemma_fold_bit(steps, x, r, k - 1);
        lemma_bit_ops(xor_fold(steps, x, k - 1), chosen(steps, x, k - 1));
    }
}

/// A fold of patterns that lie within `n` positions lies within `n` positions.
pub proof fn lemma_fold_fits(steps: Seq<u32>, x: u64, n: int, k: int)
    requires
        0 <= k <= steps.len(),
        forall|i: int| 0 <= i < steps.len() ==> fits(#[trigger] steps[i] as u64, n),
    ensures
        fits(xor_fold(steps, x, k), n),
    decreases k,
{
    lemma_bit_single(0);
    if k > 0 {
        lemma_fold_fits(steps, x, n, k - 1);
        lemma_bit_ops(xor_fold(steps, x, k - 1), chosen(steps, x, k - 1));
        assert(fits(steps[k - 1] as u64, n));
    }
}

/// The row of position `r` gathers, for each step index, whether that step
/// touches `r`; its overlap with a selection counts the touches.
pub proof fn lemma_touch_row(steps: Seq<u32>, x: u64, r: int, row: u64, k: int)
    requires
        0 <= k <= steps.len(),
        k <= 64,
        forall|c: int| 0 <= c < k ==> bit(row, c) == bit(steps[c] as u64, r),
    ensures
        weight_below(row & x, k) == touch(steps, x, r, k),
    decreases k,
{
    if k > 0 {
        lemma_touch_row(steps, x, r, row, k - 1);
        lemma_bit_ops(row, x);
    }
}

/// The all-zero selection reaches the all-off pattern.
pub proof fn lemma_fold_zero(steps: Seq<u32>, k: int)
    ensures
        xor_fold(steps, 0, k) == 0,
    decreases k,
{
    lemma_bit_single(0);
    lemma_xor_algebra(0, 0, 0);
    if k > 0 {
        lemma_fold_zero(steps, k - 1);
    }
}


/// The selection of step `i` alone reaches the pattern of step `i`.
pub proof fn lemma_fold_unit(steps: Seq<u32>, i: int, k: int)
    requires
        0 <= i < 64,
        i < steps.len(),
    ensures
        xor_fold(steps, 1u64 << (i as u64), k) == (if i < k {
            steps[i] as u64
        } else {
            0u64
        }),
    decreases k,
{
    lemma_bit_single(i);
    if k > 0 {
        lemma_fold_unit(steps, i, k - 1);
        lemma_xor_algebra(steps[i] as u64, 0, 0);
        lemma_xor_algebra(0, 0, 0);
    }
}

/// Toggling the choice of step `i` toggles that step's pattern in the
/// result and changes the weight by one.
pub proof fn lemma_flip(steps: Seq<u32>, x: u64, i: int)
    requires
        0 <= i < steps.len() <= 64,
        fits(x, steps.len() as int),
    ensures
        fits(x ^ (1u64 << (i as u64)), steps.len() as int),
        pattern_of(steps, x ^ (1u64 << (i as u64))) == pattern_of(steps, x) ^ (steps[i] as u64),
        weight(x ^ (1u64 << (i as u64))) == (if bit(x, i) {
            weight(x) - 1
        } else {
            weight(x) + 1int
        }),
{
    let e = 1u64 << (i as u64);
    let y = x ^ e;
    lemma_bit_single(i);
    lemma_bit_ops(x, e);
    lemma_fold_linear(steps, x, e, steps.len() as int);
    lemma_fold_unit(steps, i, steps.len() as int);
    if bit(x, i) {
        lemma_weight_flip(y, x, i, 64);
    } else {
        lemma_weight_flip(x, y, i, 64);
    }
}

/// A selection that names existing steps only has weight at most their number.
pub proof fn lemma_reach_bound(steps: Seq<u32>, target: u32, x: u64)
    requires
        reaches(steps, target, x),
        steps.len() <= 64,
    ensures
        weight(x) <= steps.len(),
        within(steps, target, steps.len() as int),
{
    lemma_weight_fits(x, steps.len() as int, 64);
    lemma_weight_bound(x, steps.len() as int);
}

/// Only the all-off pattern is reached without any step.
pub proof fn lemma_within_zero(steps: Seq<u32>, target: u32)
    ensures
        within(steps, target, 0) <==> target == 0,
{
    lemma_bit_single(0);
    if within(steps, target, 0) {
        let x = choose|x: u64| #[trigger] reaches(steps, target, x) && weight(x) <= 0;
        lemma_weight_none(x, 64);
        lemma_bit_ext(x, 0);
        lemma_fold_zero(steps, steps.len() as int);
    }
    if target == 0 {
        lemma_fold_zero(steps, steps.len() as int);
        lemma_weight_sparse(0u64, -1, -1, 64);
        assert(reaches(steps, target, 0u64));
    }
}

/// One more step reaches the neighbour of a pattern.
pub proof fn lemma_within_step(steps: Seq<u32>, s: u32, d: int, i: int)
    requires
        within(steps, s, d),
        0 <= i < steps.len() <= 64,
    ensures
        within(steps, s ^ steps[i], d + 1),
{
    let x = choose|x: u64| #[trigger] reaches(steps, s, x) && weight(x) <= d;
    lemma_flip(steps, x, i);
    let y = x ^ (1u64 << (i as u64));
    lemma_xor_widen(s, steps[i]);
    assert(reaches(steps, s ^ steps[i], y));
}

/// A pattern first reached with `d + 1` steps has a neighbour reached with `d`.
pub proof fn lemma_within_back(steps: Seq<u32>, s: u32, d: int) -> (i: int)
    requires
        within(steps, s, d + 1),
        !within(steps, s, d),
        steps.len() <= 64,
        d >= 0,
    ensures
        0 <= i < steps.len(),
        within(steps, s ^ steps[i], d),
{
    let x = choose|x: u64| #[trigger] reaches(steps, s, x) && weight(x) <= d + 1;
    assert(weight(x) == d + 1);
    let i = lemma_weight_witness(x, 64);
    assert(i < steps.len());
    lemma_flip(steps, x, i);
    let y = x ^ (1u64 << (i as u64));
    lemma_xor_widen(s, steps[i]);
    assert(reaches(steps, s ^ steps[i], y));
    i
}

/// The least weight, where it exists, is unique.
pub proof fn lemma_least_weight_unique(steps: Seq<u32>, target: u32, a: int, b: int)
    requires
        is_least_weight(steps, target, a),
        is_least_weight(steps, target, b),
    ensures
        a == b,
{
    if a < b {
        let x = choose|x: u64| #[trigger] reaches(steps, target, x) && weight(x) <= a;
        assert(reaches(steps, target, x) && weight(x) <= b - 1);
    }
    if b < a {
        let x = choose|x: u64| #[trigger] reaches(steps, target, x) && weight(x) <= b;
        assert(reaches(steps, target, x) && weight(x) <= a - 1);
    }
}

/// A larger budget reaches whatever a smaller one does.
pub proof fn lemma_within_mono(steps: Seq<u32>, target: u32, a: int, b: int)
    requires
        within(steps, target, a),
        a <= b,
    ensures
        within(steps, target, b),
{
    let x = choose|x: u64| #[trigger] reaches(steps, target, x) && weight(x) <= a;
    assert(reaches(steps, target, x) && weight(x) <= b);
}


/// What `a` steps reach and what `b` steps reach combine to something that
/// `a + b` steps reach.
pub proof fn lemma_within_join(steps: Seq<u32>, s: u32, u: u32, a: int, b: int)
    requires
        within(steps, s, a),
        within(steps, u, b),
    ensures
        within(steps, s ^ u, a + b),
{
    let m = steps.len() as int;
    let x = choose|x: u64| #[trigger] reaches(steps, s, x) && weight(x) <= a;
    let y = choose|y: u64| #[trigger] reaches(steps, u, y) && weight(y) <= b;
    lemma_fold_linear(steps, x, y, m);
    lemma_bit_ops(x, y);
    lemma_weight_xor_le(x, y, 64);
    lemma_xor_widen(s, u);
    assert(reaches(steps, s ^ u, x ^ y) && weight(x ^ y) <= a + b);
}

/// What `a + b` steps reach lies `b` steps from something that `a` steps
/// reach.
pub proof fn lemma_within_split(steps: Seq<u32>, t: u32, a: int, b: int) -> (s: u32)
    requires
        within(steps, t, a + b),
        steps.len() <= 64,
        0 <= a,
        0 <= b,
    ensures
        within(steps, s, a),
        within(steps, s ^ t, b),
    decreases b,
{
    if b == 0 {
        lemma_xor_twice(t, t);
        lemma_within_zero(steps, 0u32);
        t
    } else if within(steps, t, a + b - 1) {
        let s = lemma_within_split(steps, t, a, b - 1);
        lemma_within_mono(steps, s ^ t, b - 1, b);
        s
    } else {
        let i = lemma_within_back(steps, t, a + b - 1);
        let s = lemma_within_split(steps, t ^ steps[i], a, b - 1);
        lemma_within_step(steps, s ^ (t ^ steps[i]), b - 1, i);
        lemma_xor_shuffle(s, t, steps[i]);
        assert((s ^ (t ^ steps[i])) ^ steps[i] == s ^ t) by {
            lemma_xor_shuffle(s, t ^ steps[i], steps[i]);
            lemma_xor_twice(t, steps[i]);
        }
        s
    }
}

/// Below a state first reached with `w` steps there is, for every smaller
/// number of steps, a state first reached with that number.
pub proof fn lemma_depth_chain(steps: Seq<u32>, t: u32, w: int, a: int) -> (s: u32)
    requires
        is_least_weight(steps, t, w),
        0 <= a <= w,
        steps.len() <= 64,
    ensures
        is_least_weight(steps, s, a),
        within(steps, s ^ t, w - a),
    decreases w - a,
{
    if a == w {
        lemma_xor_twice(t, t);
        lemma_within_zero(steps, 0u32);
        t
    } else {
        let i = lemma_within_back(steps, t, w - 1);
        let u = t ^ steps[i];
        if within(steps, u, w - 2) {
            lemma_within_step(steps, u, w - 2, i);
            lemma_xor_twice(t, steps[i]);
        }
        let s = lemma_depth_chain(steps, u, w - 1, a);
        lemma_within_step(steps, s ^ u, w - 1 - a, i);
        assert((s ^ u) ^ steps[i] == s ^ t) by {
            lemma_xor_shuffle(s, t ^ steps[i], steps[i]);
            lemma_xor_twice(t, steps[i]);
        }
        s
    }
}


/// A least number of steps is at most the number of steps there are.
pub proof fn lemma_least_bound(steps: Seq<u32>, t: u32, w: int)
    requires
        is_least_weight(steps, t, w),
        steps.len() <= 64,
    ensures
        0 <= w <= steps.len(),
{
    let x = choose|x: u64| #[trigger] reaches(steps, t, x) && weight(x) <= w;
    lemma_reach_bound(steps, t, x);
    if weight(x) < w {
        assert(reaches(steps, t, x) && weight(x) <= w - 1);
    }
}


/// Sum of the first `k` answers.
pub open spec fn answers_sum(answers: Seq<u64>, k: int) -> nat
    decreases k,
{
    if k <= 0 {
        0
    } else {
        answers_sum(answers, k - 1) + answers[k - 1] as nat
    }
}

/// Partial sums of answers only grow.
pub proof fn lemma_answers_sum_mono(answers: Seq<u64>, a: int, b: int)
    requires
        a <= b,
    ensures
        answers_sum(answers, a) <= answers_sum(answers, b),
    decreases b - a,
{
    if a < b {
        lemma_answers_sum_mono(answers, a, b - 1);
    }
}

/// Sums of answers that agree on the first `k` are equal.
pub proof fn lemma_answers_sum_same(a: Seq<u64>, b: Seq<u64>, k: int)
    requires
        0 <= k <= a.len(),
        k <= b.len(),
        forall|i: int| 0 <= i < k ==> a[i] == b[i],
    ensures
        answers_sum(a, k) == answers_sum(b, k),
    decreases k,
{
    if k > 0 {
        lemma_answers_sum_same(a, b, k - 1);
    }
}

/// Sums the answers of many problem instances; `None` where the sum does
/// not fit 64 bits.
pub fn checked_sum(answers: &[u64]) -> (res: Option<u64>)
    ensures
        match res {
            Some(t) => t == answers_sum(answers@, answers.len() as int),
            None => answers_sum(answers@, answers.len() as int) > u64::MAX,
        },
{
    let mut total: u64 = 0;
    let mut i: usize = 0;
    while i < answers.len()
        invariant
            i <= answers.len(),
            total == answers_sum(answers@, i as int),
        decreases answers.len() - i,
    {
        let v: u64 = answers[i];
        if v > u64::MAX - total {
            proof {
                lemma_answers_sum_mono(answers@, i as int + 1, answers.len() as int);
            }
            return None;
        }
        total = total + v;
        i = i + 1;
    }
    Some(total)
}

} // verus!
