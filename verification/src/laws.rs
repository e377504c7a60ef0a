//! Laws of the two questions, stated over the models and proved from them.
use vstd::prelude::*;
use crate::bits::{
    bit, fits, lemma_bit_spread, lemma_weight_fits, spread, weight, weight_below,
};
use crate::counts::{
    hits, is_count_answer, lemma_least_total_unique, lemma_within_total_mono, lemma_zero_counts, all_zero,
    tally, total, within_total,
};
use crate::toggle::{
    chosen, is_answer, is_least_weight, lemma_least_weight_unique, lemma_within_mono, lemma_within_zero,
    pattern_of, reaches, within, xor_fold,
};

verus! {

/// Where the target pattern is all-off, the answer to the first question
/// is zero steps.
pub proof fn law_zero_target(steps: Seq<u32>, res: Option<u64>)
    requires
        is_answer(steps, 0u32, res),
    ensures
        res == Some(0u64),
{
    lemma_within_zero(steps, 0u32);
    assert(is_least_weight(steps, 0u32, 0));
    match res {
        Some(w) => {
            lemma_least_weight_unique(steps, 0u32, w as int, 0);
        },
        None => {
            let x = choose|x: u64| #[trigger] reaches(steps, 0u32, x) && weight(x) <= 0;
            assert(reaches(steps, 0u32, x));
        },
    }
}

/// Where every target count is zero, the answer to the second question is
/// zero applications.
pub proof fn law_zero_counts(steps: Seq<u32>, counts: Seq<u32>, res: Option<u64>)
    requires
        all_zero(counts),
        is_count_answer(steps, counts, res),
    ensures
        res == Some(0u64),
{
    lemma_zero_counts(steps, counts);
    match res {
        Some(k) => {
            lemma_least_total_unique(steps, counts, k as int, 0);
        },
        None => {
            let mu = choose|mu: Seq<nat>| #[trigger] hits(steps, mu, counts) && total(mu, steps.len() as int) <= 0;
            assert(hits(steps, mu, counts));
        },
    }
}

/// An answer to the first question is witnessed: some selection of exactly
/// that many steps, applied to the all-off state, gives the target pattern.
pub proof fn law_round_trip(steps: Seq<u32>, target: u32, w: u64) -> (x: u64)
    requires
        is_answer(steps, target, Some(w)),
    ensures
        fits(x, steps.len() as int),
        pattern_of(steps, x) == target as u64,
        weight(x) == w,
{
    let x = choose|x: u64| #[trigger] reaches(steps, target, x) && weight(x) <= w;
    if weight(x) < w {
        assert(reaches(steps, target, x) && weight(x) <= w - 1);
    }
    x
}

/// An answer to the second question is witnessed: some multiplicities with
/// exactly that total, applied to all-zero counts, give the target counts.
pub proof fn law_count_round_trip(steps: Seq<u32>, counts: Seq<u32>, k: u64) -> (mult: Seq<nat>)
    requires
        is_count_answer(steps, counts, Some(k)),
    ensures
        mult.len() == steps.len(),
        forall|r: int| 0 <= r < counts.len() ==> tally(steps, mult, r, steps.len() as int) == counts[r],
        total(mult, steps.len() as int) == k,
{
    let mult = choose|mu: Seq<nat>| #[trigger] hits(steps, mu, counts) && total(mu, steps.len() as int) <= k;
    if total(mult, steps.len() as int) < k {
        assert(hits(steps, mult, counts) && total(mult, steps.len() as int) <= k - 1);
    }
    mult
}

/// The first question has one answer: two solves of the same problem agree.
pub proof fn law_answer_unique(steps: Seq<u32>, target: u32, a: Option<u64>, b: Option<u64>)
    requires
        is_answer(steps, target, a),
        is_answer(steps, target, b),
    ensures
        a == b,
{
    match (a, b) {
        (Some(x), Some(y)) => {
            lemma_least_weight_unique(steps, target, x as int, y as int);
        },
        (Some(x), None) => {
            let s = choose|s: u64| #[trigger] reaches(steps, target, s) && weight(s) <= x;
            assert(reaches(steps, target, s));
        },
        (None, Some(y)) => {
            let s = choose|s: u64| #[trigger] reaches(steps, target, s) && weight(s) <= y;
            assert(reaches(steps, target, s));
        },
        (None, None) => {},
    }
}

/// The second question has one answer: two solves of the same problem agree.
pub proof fn law_count_answer_unique(steps: Seq<u32>, counts: Seq<u32>, a: Option<u64>, b: Option<u64>)
    requires
        is_count_answer(steps, counts, a),
        is_count_answer(steps, counts, b),
    ensures
        a == b,
{
    let m = steps.len() as int;
    match (a, b) {
        (Some(x), Some(y)) => {
            lemma_least_total_unique(steps, counts, x as int, y as int);
        },
        (Some(x), None) => {
            let mu = choose|mu: Seq<nat>| #[trigger] hits(steps, mu, counts) && total(mu, m) <= x;
            assert(hits(steps, mu, counts));
        },
        (None, Some(y)) => {
            let mu = choose|mu: Seq<nat>| #[trigger] hits(steps, mu, counts) && total(mu, m) <= y;
            assert(hits(steps, mu, counts));
        },
        (None, None) => {},
    }
}

/// Folding a selection of the smaller step set equals folding its spread
/// over the full step set.
proof fn lemma_spread_fold(steps: Seq<u32>, j: int, x: u64, k: int)
    requires
        0 <= j < steps.len() <= 64,
        0 <= k <= steps.len(),
    ensures
        xor_fold(steps, spread(x, j), k) == xor_fold(steps.remove(j), x, if k <= j { k } else { k - 1 }),
        weight_below(spread(x, j), k) == weight_below(x, if k <= j { k } else { k - 1 }),
    decreases k,
{
    lemma_bit_spread(x, j);
    if k > 0 {
        lemma_spread_fold(steps, j, x, k - 1);
        let y = spread(x, j);
        let less = steps.remove(j);
        if k - 1 < j {
            assert(less[k - 1] == steps[k - 1]);
            assert(chosen(steps, y, k - 1) == chosen(less, x, k - 1));
        } else if k - 1 == j {
            assert(!bit(y, j));
            assert(xor_fold(steps, y, k - 1) ^ 0u64 == xor_fold(steps, y, k - 1)) by {
                crate::bits::lemma_xor_algebra(xor_fold(steps, y, k - 1), 0, 0);
            }
        } else {
            assert(less[k - 2] == steps[k - 1]);
            assert(bit(y, k - 1) == bit(x, k - 2));
            assert(chosen(steps, y, k - 1) == chosen(less, x, k - 2));
        }
    }
}

/// Whatever a step set without step `j` reaches within a budget, the full
/// step set reaches within that budget.
pub proof fn lemma_more_steps_reach(steps: Seq<u32>, j: int, target: u32, w: int)
    requires
        0 <= j < steps.len() <= 64,
        within(steps.remove(j), target, w),
    ensures
        within(steps, target, w),
{
    let less = steps.remove(j);
    let m = steps.len() as int;
    let x = choose|x: u64| #[trigger] reaches(less, target, x) && weight(x) <= w;
    let y = spread(x, j);
    lemma_bit_spread(x, j);
    lemma_spread_fold(steps, j, x, m);
    lemma_spread_fold(steps, j, x, 64 - 0 - (64 - m));
    assert(fits(y, m)) by {
        assert forall|i: int| m <= i < 64 implies !#[trigger] bit(y, i) by {
            assert(!bit(x, i - 1));
        }
    }
    lemma_weight_fits(y, m, 64);
    lemma_weight_fits(x, m - 1, 64);
    assert(reaches(steps, target, y) && weight(y) <= w);
}

/// Removing a step never decreases the answer to the first question: if
/// the smaller step set reaches the target, so does the full one, with at
/// most as many steps.
pub proof fn law_fewer_steps(steps: Seq<u32>, j: int, target: u32, full: Option<u64>, less: Option<u64>)
    requires
        0 <= j < steps.len() <= 64,
        is_answer(steps, target, full),
        is_answer(steps.remove(j), target, less),
    ensures
        less matches Some(wl) ==> full is Some && full.unwrap() <= wl,
{
    match less {
        Some(wl) => {
            lemma_more_steps_reach(steps, j, target, wl as int);
            let x = choose|x: u64| #[trigger] reaches(steps, target, x) && weight(x) <= wl;
            assert(reaches(steps, target, x));
            match full {
                Some(wf) => {
                    if wl < wf {
                        lemma_within_mono(steps, target, wl as int, wf - 1);
                    }
                },
                None => {},
            }
        },
        None => {},
    }
}

/// Tallies and totals of multiplicities with a zero inserted at step `j`.
proof fn lemma_insert_tally(steps: Seq<u32>, j: int, mult: Seq<nat>, r: int, k: int)
    requires
        0 <= j < steps.len(),
        mult.len() + 1 == steps.len(),
        0 <= k <= steps.len(),
    ensures
        tally(steps, mult.insert(j, 0nat), r, k) == tally(steps.remove(j), mult, r, if k <= j { k } else { k - 1 }),
        total(mult.insert(j, 0nat), k) == total(mult, if k <= j { k } else { k - 1 }),
    decreases k,
{
    if k > 0 {
        lemma_insert_tally(steps, j, mult, r, k - 1);
        let less = steps.remove(j);
        let more = mult.insert(j, 0nat);
        if k - 1 < j {
            assert(less[k - 1] == steps[k - 1]);
            assert(more[k - 1] == mult[k - 1]);
        } else if k - 1 == j {
            assert(more[j] == 0);
        } else {
            assert(less[k - 2] == steps[k - 1]);
            assert(more[k - 1] == mult[k - 2]);
        }
    }
}

/// Whatever counts a step set without step `j` hits within a budget, the
/// full step set hits within that budget.
pub proof fn lemma_more_steps_hit(steps: Seq<u32>, j: int, counts: Seq<u32>, k: int)
    requires
        0 <= j < steps.len(),
        within_total(steps.remove(j), counts, k),
    ensures
        within_total(steps, counts, k),
{
    let less = steps.remove(j);
    let m = steps.len() as int;
    let mu = choose|mu: Seq<nat>| #[trigger] hits(less, mu, counts) && total(mu, less.len() as int) <= k;
    let more = mu.insert(j, 0nat);
    lemma_insert_tally(steps, j, mu, 0, m);
    assert forall|r: int| 0 <= r < counts.len() implies #[trigger] tally(steps, more, r, m) == counts[r] by {
        lemma_insert_tally(steps, j, mu, r, m);
        assert(tally(less, mu, r, less.len() as int) == counts[r]);
    }
    assert(hits(steps, more, counts) && total(more, m) <= k);
}

/// Removing a step never decreases the answer to the second question.
pub proof fn law_fewer_steps_counts(
    steps: Seq<u32>,
    j: int,
    counts: Seq<u32>,
    full: Option<u64>,
    less: Option<u64>,
)
    requires
        0 <= j < steps.len(),
        is_count_answer(steps, counts, full),
        is_count_answer(steps.remove(j), counts, less),
    ensures
        less matches Some(kl) ==> full is Some && full.unwrap() <= kl,
{
    let m = steps.len() as int;
    match less {
        Some(kl) => {
            lemma_more_steps_hit(steps, j, counts, kl as int);
            let mu = choose|mu: Seq<nat>| #[trigger] hits(steps, mu, counts) && total(mu, m) <= kl;
            assert(hits(steps, mu, counts));
            match full {
                Some(kf) => {
                    if kl < kf {
                        lemma_within_total_mono(steps, counts, kl as int, kf - 1);
                    }
                },
                None => {},
            }
        },
        None => {},
    }
}

} // verus!
