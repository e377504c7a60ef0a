//! Best-first search over count vectors: from the target counts, each
//! step lowers by one the count of every position it touches, and the
//! search looks for the cheapest way down to all zeros, taking first the
//! vector whose cost so far plus a lower bound on the cost still to come
//! is least.
use vstd::prelude::*;
use crate::bits::{bit, fits, lemma_bit_single, lemma_weight_fits, popcount, test_bit, weight_below};
use crate::counts::{
    all_zero, hits, is_count_answer, lemma_idle, lemma_sum_lt, lemma_tally_update, lemma_zero_counts, idle,
    solvable_counts, sum_counts, tally, total, within_total,
};
use crate::counts::{lemma_parity_needed, lemma_untouched};
use crate::search::reachable_mod2;
use crate::solver::{is_all_zero, parity_pattern, same_counts};
use crate::toggle::well_formed;

verus! {

/// Sum of the first `k` counts.
pub open spec fn sum_upto(state: Seq<u32>, k: int) -> nat
    decreases k,
{
    if k <= 0 {
        0
    } else {
        sum_upto(state, k - 1) + state[k - 1] as nat
    }
}

/// The largest of the first `k` counts.
pub open spec fn max_upto(state: Seq<u32>, k: int) -> nat
    decreases k,
{
    if k <= 0 {
        0
    } else if state[k - 1] as nat > max_upto(state, k - 1) {
        state[k - 1] as nat
    } else {
        max_upto(state, k - 1)
    }
}

/// A lower bound on the applications still needed to bring `state` down
/// to zero: no step lowers a count by more than one, nor the sum of the
/// counts by more than `max_step_size`.
pub open spec fn heuristic_value(state: Seq<u32>, max_step_size: int) -> int {
    let by_max = max_upto(state, state.len() as int) as int;
    let by_sum = (sum_upto(state, state.len() as int) + max_step_size - 1) / max_step_size;
    if by_max >= by_sum {
        by_max
    } else {
        by_sum
    }
}

/// The step can be applied: every position it touches has a count left.
pub open spec fn applicable(s: Seq<u32>, mask: u32) -> bool {
    forall|r: int| 0 <= r < s.len() && #[trigger] bit(mask as u64, r) ==> s[r] >= 1
}

/// The counts after the step has been applied once.
pub open spec fn lowered(s: Seq<u32>, mask: u32) -> Seq<u32> {
    Seq::new(s.len(), |r: int| if bit(mask as u64, r) { (s[r] - 1) as u32 } else { s[r] })
}

/// Applying the steps as `mult` says leads from the counts `from` down to
/// the counts `s`.
pub open spec fn leads_to(steps: Seq<u32>, from: Seq<u32>, mult: Seq<nat>, s: Seq<u32>) -> bool {
    &&& mult.len() == steps.len()
    &&& s.len() == from.len()
    &&& forall|r: int| 0 <= r < from.len() ==> #[trigger] tally(steps, mult, r, steps.len() as int) + s[r] == from[r]
}

/// Some `g` applications lead from `from` down to `s`.
pub open spec fn reached(steps: Seq<u32>, from: Seq<u32>, s: Seq<u32>, g: int) -> bool {
    exists|mult: Seq<nat>| #[trigger] leads_to(steps, from, mult, s) && total(mult, steps.len() as int) == g
}

/// The sum over the first `n` positions of how often each is incremented.
pub open spec fn rows(steps: Seq<u32>, mult: Seq<nat>, n: int, k: int) -> nat
    decreases n,
{
    if n <= 0 {
        0
    } else {
        rows(steps, mult, n - 1, k) + tally(steps, mult, n - 1, k)
    }
}

/// No position is incremented more often than steps are applied.
pub proof fn lemma_tally_le_total(steps: Seq<u32>, mult: Seq<nat>, r: int, k: int)
    ensures
        tally(steps, mult, r, k) <= total(mult, k),
    decreases k,
{
    if k > 0 {
        lemma_tally_le_total(steps, mult, r, k - 1);
    }
}

/// Where one multiplicity vector increments a position more often than a
/// smaller one, some step that touches the position is applied more often.
pub proof fn lemma_gap(steps: Seq<u32>, a: Seq<nat>, b: Seq<nat>, r: int, k: int) -> (i: int)
    requires
        0 <= k <= steps.len(),
        tally(steps, a, r, k) < tally(steps, b, r, k),
        forall|j: int| 0 <= j < k ==> a[j] <= b[j],
    ensures
        0 <= i < k,
        bit(steps[i] as u64, r),
        a[i] < b[i],
    decreases k,
{
    if bit(steps[k - 1] as u64, r) && a[k - 1] < b[k - 1] {
        k - 1
    } else {
        lemma_gap(steps, a, b, r, k - 1)
    }
}

/// The tallies of two multiplicity vectors differ at least by what one
/// step that touches the position is applied more often.
pub proof fn lemma_tally_diff(steps: Seq<u32>, a: Seq<nat>, b: Seq<nat>, r: int, k: int, i: int)
    requires
        0 <= i < k <= steps.len(),
        bit(steps[i] as u64, r),
        forall|j: int| 0 <= j < k ==> a[j] <= b[j],
    ensures
        tally(steps, b, r, k) - tally(steps, a, r, k) >= b[i] - a[i],
    decreases k,
{
    if k - 1 > i {
        lemma_tally_diff(steps, a, b, r, k - 1, i);
    } else {
        lemma_tally_le(steps, a, b, r, k - 1);
    }
}

/// A smaller multiplicity vector increments no position more often.
pub proof fn lemma_tally_le(steps: Seq<u32>, a: Seq<nat>, b: Seq<nat>, r: int, k: int)
    requires
        0 <= k <= steps.len(),
        forall|j: int| 0 <= j < k ==> a[j] <= b[j],
    ensures
        tally(steps, a, r, k) <= tally(steps, b, r, k),
        total(a, k) <= total(b, k),
    decreases k,
{
    if k > 0 {
        lemma_tally_le(steps, a, b, r, k - 1);
    }
}

/// One more step adds to the row sums its multiplicity times the number
/// of positions it touches.
pub proof fn lemma_rows_step(steps: Seq<u32>, mult: Seq<nat>, n: int, k: int)
    requires
        0 <= n,
        1 <= k,
    ensures
        rows(steps, mult, n, k) == rows(steps, mult, n, k - 1) + mult[k - 1] * weight_below(steps[k - 1] as u64, n),
    decreases n,
{
    if n > 0 {
        lemma_rows_step(steps, mult, n - 1, k);
        let w = weight_below(steps[k - 1] as u64, n - 1);
        let c = mult[k - 1];
        assert(c * (w + 1) == c * w + c) by (nonlinear_arith);
    } else {
        assert(mult[k - 1] * 0 == 0) by (nonlinear_arith);
    }
}

/// Without steps the row sums are zero.
pub proof fn lemma_rows_none(steps: Seq<u32>, mult: Seq<nat>, n: int)
    ensures
        rows(steps, mult, n, 0) == 0,
    decreases n,
{
    if n > 0 {
        lemma_rows_none(steps, mult, n - 1);
    }
}

/// The row sums are at most the largest step size times the number of
/// applications.
pub proof fn lemma_rows_bound(steps: Seq<u32>, mult: Seq<nat>, n: int, k: int, mss: int)
    requires
        0 <= n,
        0 <= k <= steps.len(),
        forall|i: int| 0 <= i < steps.len() ==> weight_below(#[trigger] steps[i] as u64, n) <= mss,
    ensures
        rows(steps, mult, n, k) <= mss * total(mult, k),
    decreases k,
{
    if k == 0 {
        lemma_rows_none(steps, mult, n);
        assert(mss * 0 == 0) by (nonlinear_arith);
    } else {
        lemma_rows_bound(steps, mult, n, k - 1, mss);
        lemma_rows_step(steps, mult, n, k);
        let c = mult[k - 1] as int;
        let w = weight_below(steps[k - 1] as u64, n) as int;
        let t = total(mult, k - 1) as int;
        assert(w <= mss);
        assert(c * w <= mss * c) by (nonlinear_arith)
            requires
                0 <= w <= mss,
                0 <= c,
        ;
        assert(mss * (t + c) == mss * t + mss * c) by (nonlinear_arith);
    }
}

/// Counts that equal the tallies of some multiplicities have their sum
/// and their largest entry bounded by those multiplicities.
pub proof fn lemma_counts_bound(steps: Seq<u32>, rest: Seq<nat>, s: Seq<u32>, k: int)
    requires
        0 <= k <= s.len(),
        forall|r: int| 0 <= r < s.len() ==> s[r] == #[trigger] tally(steps, rest, r, steps.len() as int),
    ensures
        sum_upto(s, k) == rows(steps, rest, k, steps.len() as int),
        max_upto(s, k) <= total(rest, steps.len() as int),
    decreases k,
{
    if k > 0 {
        lemma_counts_bound(steps, rest, s, k - 1);
        lemma_tally_le_total(steps, rest, k - 1, steps.len() as int);
        assert(s[k - 1] == tally(steps, rest, k - 1, steps.len() as int));
    }
}

/// The lower bound is one: it never exceeds the applications that
/// bring the counts down to zero.
pub proof fn lemma_heuristic_admissible(steps: Seq<u32>, n: int, rest: Seq<nat>, s: Seq<u32>, mss: int)
    requires
        s.len() == n,
        mss >= 1,
        forall|i: int| 0 <= i < steps.len() ==> weight_below(#[trigger] steps[i] as u64, n) <= mss,
        forall|r: int| 0 <= r < s.len() ==> s[r] == #[trigger] tally(steps, rest, r, steps.len() as int),
    ensures
        heuristic_value(s, mss) <= total(rest, steps.len() as int),
{
    let m = steps.len() as int;
    lemma_counts_bound(steps, rest, s, n);
    lemma_rows_bound(steps, rest, n, m, mss);
    let sum = sum_upto(s, n) as int;
    let t = total(rest, m) as int;
    assert((sum + mss - 1) / mss <= t) by (nonlinear_arith)
        requires
            sum <= mss * t,
            mss >= 1,
            0 <= sum,
            0 <= t,
    ;
}

/// Sums of counts that agree on the first `k` are equal.
pub proof fn lemma_sum_prefix(a: Seq<u32>, b: Seq<u32>, k: int)
    requires
        0 <= k <= a.len(),
        k <= b.len(),
        forall|i: int| 0 <= i < k ==> a[i] == b[i],
    ensures
        sum_upto(a, k) == sum_upto(b, k),
    decreases k,
{
    if k > 0 {
        lemma_sum_prefix(a, b, k - 1);
    }
}

/// `base` to the power `e`.
pub open spec fn power(base: nat, e: nat) -> nat
    decreases e,
{
    if e == 0 {
        1
    } else {
        base * power(base, (e - 1) as nat)
    }
}

/// Powers of a positive base are positive and grow with the exponent.
pub proof fn lemma_power_mono(base: nat, a: nat, b: nat)
    requires
        base >= 1,
        a <= b,
    ensures
        1 <= power(base, a) <= power(base, b),
    decreases b,
{
    if b == 0 {
    } else if a == b {
        lemma_power_mono(base, (a - 1) as nat, (b - 1) as nat);
        let p = power(base, (b - 1) as nat);
        assert(base * p >= 1) by (nonlinear_arith)
            requires
                base >= 1,
                p >= 1,
        ;
    } else {
        lemma_power_mono(base, a, (b - 1) as nat);
        let p = power(base, (b - 1) as nat);
        assert(base * p >= p) by (nonlinear_arith)
            requires
                base >= 1,
                p >= 1,
        ;
    }
}

/// A count vector on the way down, with what it cost to get there (`g`)
/// and that cost plus the lower bound on what is still to come (`f`).
pub struct Node {
    /// Cost so far plus lower bound on the cost to come.
    pub f: u64,
    /// Cost so far.
    pub g: u64,
    /// The counts still to be lowered.
    pub state: Vec<u32>,
}

/// What a node weighs in the measure that shows the search to end.
pub open spec fn node_term(node: Node, base: nat) -> nat {
    power(base, sum_counts(node.state@))
}

/// The measure that shows the search to end: it falls whenever a node is
/// replaced by at most `base - 1` nodes with a smaller sum of counts.
pub open spec fn heap_weight(heap: Seq<Node>, base: nat) -> nat
    decreases heap.len(),
{
    if heap.len() == 0 {
        0
    } else {
        heap_weight(heap.drop_last(), base) + node_term(heap.last(), base)
    }
}

/// What a node adds to the measure.
pub proof fn lemma_weight_push(heap: Seq<Node>, node: Node, base: nat)
    ensures
        heap_weight(heap.push(node), base) == heap_weight(heap, base) + node_term(node, base),
{
    assert(heap.push(node).drop_last() =~= heap);
}

/// What replacing a node changes in the measure.
pub proof fn lemma_weight_update(heap: Seq<Node>, i: int, node: Node, base: nat)
    requires
        0 <= i < heap.len(),
    ensures
        heap_weight(heap.update(i, node), base) + node_term(heap[i], base) == heap_weight(heap, base) + node_term(
            node,
            base,
        ),
    decreases heap.len(),
{
    let last = heap.len() - 1;
    if i == last {
        assert(heap.update(i, node).drop_last() =~= heap.drop_last());
    } else {
        lemma_weight_update(heap.drop_last(), i, node, base);
        assert(heap.update(i, node).drop_last() =~= heap.drop_last().update(i, node));
    }
}

/// What taking a node out, the last node moving into its place, removes
/// from the measure.
pub proof fn lemma_weight_take(heap: Seq<Node>, i: int, base: nat)
    requires
        0 <= i < heap.len(),
    ensures
        heap_weight(heap.update(i, heap.last()).drop_last(), base) + node_term(heap[i], base) == heap_weight(
            heap,
            base,
        ),
{
    let last = heap.len() - 1;
    if i == last {
        assert(heap.update(i, heap.last()).drop_last() =~= heap.drop_last());
    } else {
        lemma_weight_update(heap.drop_last(), i, heap.last(), base);
        assert(heap.update(i, heap.last()).drop_last() =~= heap.drop_last().update(i, heap.last()));
    }
}

/// The facts that hold of every node in the heap.
pub open spec fn node_ok(steps: Seq<u32>, from: Seq<u32>, mss: int, best: Map<Seq<u32>, u64>, node: Node) -> bool {
    &&& node.state.len() == from.len()
    &&& node.f == node.g + heuristic_value(node.state@, mss)
    &&& best.contains_key(node.state@)
    &&& best[node.state@] <= node.g
    &&& node.g + sum_counts(node.state@) <= sum_counts(from)
}

/// The facts that hold of every count vector met.
pub open spec fn known_ok(steps: Seq<u32>, from: Seq<u32>, best: Map<Seq<u32>, u64>) -> bool {
    forall|s: Seq<u32>| #[trigger]
        best.contains_key(s) ==> s.len() == from.len() && reached(steps, from, s, best[s] as int) && best[s]
            + sum_counts(s) <= sum_counts(from)
}

/// Some node of the heap holds `s` at its best cost.
pub open spec fn is_open(best: Map<Seq<u32>, u64>, heap: Seq<Node>, s: Seq<u32>) -> bool {
    exists|idx: int| 0 <= idx < heap.len() && (#[trigger] heap[idx]).state@ == s && heap[idx].g == best[s]
}

/// `s` has been expanded at its best cost: whatever one step makes of it
/// has been met, at no more than one more.
pub open spec fn is_closed(steps: Seq<u32>, best: Map<Seq<u32>, u64>, s: Seq<u32>) -> bool {
    &&& !all_zero(s)
    &&& forall|i: int|
        0 <= i < steps.len() && steps[i] != 0 && applicable(s, #[trigger] steps[i]) ==> best.contains_key(
            lowered(s, steps[i]),
        ) && best[lowered(s, steps[i])] <= best[s] + 1
}

/// Every count vector met, but the one being expanded, is open or closed.
pub open spec fn settled(
    steps: Seq<u32>,
    best: Map<Seq<u32>, u64>,
    heap: Seq<Node>,
    except: Option<Seq<u32>>,
) -> bool {
    forall|s: Seq<u32>| #[trigger]
        best.contains_key(s) && Some(s) != except ==> is_open(best, heap, s) || is_closed(steps, best, s)
}

/// What is left of the counts `from` after the steps have been applied as
/// `mult` says.
pub open spec fn left_of(steps: Seq<u32>, from: Seq<u32>, mult: Seq<nat>) -> Seq<u32> {
    Seq::new(from.len(), |r: int| (from[r] - tally(steps, mult, r, steps.len() as int)) as u32)
}

/// The multiplicities by which `b` exceeds `a`.
pub open spec fn excess(a: Seq<nat>, b: Seq<nat>) -> Seq<nat> {
    Seq::new(b.len(), |i: int| (b[i] - a[i]) as nat)
}

/// Tallies and totals of an excess.
pub proof fn lemma_excess(steps: Seq<u32>, a: Seq<nat>, b: Seq<nat>, r: int, k: int)
    requires
        0 <= k <= steps.len(),
        a.len() == steps.len(),
        b.len() == steps.len(),
        forall|j: int| 0 <= j < steps.len() ==> a[j] <= b[j],
    ensures
        tally(steps, excess(a, b), r, k) == tally(steps, b, r, k) - tally(steps, a, r, k),
        total(excess(a, b), k) == total(b, k) - total(a, k),
    decreases k,
{
    if k > 0 {
        lemma_excess(steps, a, b, r, k - 1);
        lemma_tally_le(steps, a, b, r, k - 1);
    }
}

/// As long as the search goes on, every way to hit the counts has a node
/// in the heap that is no dearer: starting from a count vector on that
/// way that has been met at no more than the way's cost so far, either it
/// is open, or it is closed and the next vector on the way has been met.
pub proof fn lemma_walk(
    steps: Seq<u32>,
    n: int,
    from: Seq<u32>,
    mss: int,
    best: Map<Seq<u32>, u64>,
    heap: Seq<Node>,
    star: Seq<nat>,
    cur: Seq<nat>,
) -> (idx: int)
    requires
        well_formed(steps, n),
        from.len() == n,
        mss >= 1,
        forall|i: int| 0 <= i < steps.len() ==> weight_below(#[trigger] steps[i] as u64, n) <= mss,
        hits(steps, star, from),
        cur.len() == steps.len(),
        forall|i: int| 0 <= i < steps.len() ==> cur[i] <= star[i],
        best.contains_key(left_of(steps, from, cur)),
        best[left_of(steps, from, cur)] <= total(cur, steps.len() as int),
        forall|j: int| 0 <= j < heap.len() ==> node_ok(steps, from, mss, best, #[trigger] heap[j]),
        settled(steps, best, heap, None),
    ensures
        0 <= idx < heap.len(),
        heap[idx].f <= total(star, steps.len() as int),
    decreases total(star, steps.len() as int) - total(cur, steps.len() as int),
{
    let m = steps.len() as int;
    let s = left_of(steps, from, cur);
    let rest = excess(cur, star);
    lemma_excess(steps, cur, star, 0, m);
    assert forall|r: int| 0 <= r < s.len() implies s[r] == #[trigger] tally(steps, rest, r, m) by {
        lemma_excess(steps, cur, star, r, m);
        lemma_tally_le(steps, cur, star, r, m);
        assert(tally(steps, star, r, m) == from[r]);
    }
    if is_open(best, heap, s) {
        let idx = choose|idx: int| 0 <= idx < heap.len() && (#[trigger] heap[idx]).state@ == s && heap[idx].g == best[s];
        assert(node_ok(steps, from, mss, best, heap[idx]));
        lemma_heuristic_admissible(steps, n, rest, s, mss);
        idx
    } else {
        assert(is_closed(steps, best, s));
        let r = choose|r: int| 0 <= r < s.len() && #[trigger] s[r] != 0;
        assert(s[r] == tally(steps, rest, r, m));
        lemma_excess(steps, cur, star, r, m);
        let i = lemma_gap(steps, cur, star, r, m);
        lemma_bit_single(0);
        assert(steps[i] != 0) by {
            if steps[i] == 0 {
                assert(!bit(0u64, r));
            }
        }
        assert(applicable(s, steps[i])) by {
            assert forall|q: int| 0 <= q < s.len() && #[trigger] bit(steps[i] as u64, q) implies s[q] >= 1 by {
                lemma_tally_diff(steps, cur, star, q, m, i);
                lemma_excess(steps, cur, star, q, m);
                assert(s[q] == tally(steps, rest, q, m));
            }
        }
        let next = cur.update(i, cur[i] + 1);
        assert(left_of(steps, from, next) =~= lowered(s, steps[i])) by {
            assert forall|q: int| 0 <= q < from.len() implies left_of(steps, from, next)[q] == lowered(s, steps[i])[q] by {
                lemma_tally_update(steps, cur, q, m, i, cur[i] + 1);
                lemma_tally_le(steps, next, star, q, m);
                assert(tally(steps, star, q, m) == from[q]);
            }
        }
        lemma_tally_update(steps, cur, 0, m, i, cur[i] + 1);
        lemma_tally_le(steps, next, star, 0, m);
        lemma_walk(steps, n, from, mss, best, heap, star, next)
    }
}

/// Recording a better cost for a count vector, with a node for it in the
/// heap, keeps the bookkeeping of the search true.
pub proof fn lemma_relax(
    steps: Seq<u32>,
    from: Seq<u32>,
    mss: int,
    best: Map<Seq<u32>, u64>,
    heap: Seq<Node>,
    s: Seq<u32>,
    node: Node,
)
    requires
        forall|j: int| 0 <= j < heap.len() ==> node_ok(steps, from, mss, best, #[trigger] heap[j]),
        known_ok(steps, from, best),
        settled(steps, best, heap, Some(s)),
        node.state@ != s,
        node.state.len() == from.len(),
        node.f == node.g + heuristic_value(node.state@, mss),
        reached(steps, from, node.state@, node.g as int),
        node.g + sum_counts(node.state@) <= sum_counts(from),
        best.contains_key(node.state@) ==> node.g < best[node.state@],
    ensures
        forall|j: int|
            0 <= j < heap.push(node).len() ==> node_ok(
                steps,
                from,
                mss,
                best.insert(node.state@, node.g),
                #[trigger] heap.push(node)[j],
            ),
        known_ok(steps, from, best.insert(node.state@, node.g)),
        settled(steps, best.insert(node.state@, node.g), heap.push(node), Some(s)),
        forall|t: Seq<u32>| #[trigger]
            best.contains_key(t) ==> best.insert(node.state@, node.g).contains_key(t) && best.insert(
                node.state@,
                node.g,
            )[t] <= best[t],
{
    let best2 = best.insert(node.state@, node.g);
    let heap2 = heap.push(node);
    assert forall|j: int| 0 <= j < heap2.len() implies node_ok(steps, from, mss, best2, #[trigger] heap2[j]) by {
        if j < heap.len() {
            assert(node_ok(steps, from, mss, best, heap[j]));
        }
    }
    assert forall|t: Seq<u32>| #[trigger] best2.contains_key(t) && Some(t) != Some(s) implies is_open(best2, heap2, t)
        || is_closed(steps, best2, t) by {
        if t == node.state@ {
            assert(heap2[heap.len() as int].state@ == t && heap2[heap.len() as int].g == best2[t]);
        } else {
            assert(best.contains_key(t));
            if is_open(best, heap, t) {
                let idx = choose|idx: int| 0 <= idx < heap.len() && (#[trigger] heap[idx]).state@ == t && heap[idx].g == best[t];
                assert(heap2[idx].state@ == t && heap2[idx].g == best2[t]);
            } else {
                assert(is_closed(steps, best, t));
                assert forall|i: int|
                    0 <= i < steps.len() && steps[i] != 0 && applicable(t, #[trigger] steps[i]) implies best2.contains_key(
                    lowered(t, steps[i]),
                ) && best2[lowered(t, steps[i])] <= best2[t] + 1 by {
                    assert(best.contains_key(lowered(t, steps[i])));
                }
            }
        }
    }
}

/// The table of best costs holds exactly what `best` says, each count
/// vector once.
pub open spec fn table_ok(keys: Seq<Vec<u32>>, vals: Seq<u64>, best: Map<Seq<u32>, u64>) -> bool {
    &&& keys.len() == vals.len()
    &&& forall|i: int| 0 <= i < keys.len() ==> best.contains_key((#[trigger] keys[i])@) && best[keys[i]@] == vals[i]
    &&& forall|s: Seq<u32>| #[trigger] best.contains_key(s) ==> exists|i: int| 0 <= i < keys.len() && (#[trigger] keys[i])@ == s
    &&& forall|i: int, j: int| 0 <= i < j < keys.len() ==> (#[trigger] keys[i])@ != (#[trigger] keys[j])@
}

/// The sum of counts is at most their number times the largest count
/// there can be.
pub proof fn lemma_sum_cap(s: Seq<u32>)
    ensures
        sum_counts(s) <= s.len() * 0xFFFF_FFFF,
    decreases s.len(),
{
    if s.len() > 0 {
        lemma_sum_cap(s.drop_last());
    }
}

/// Counts that are not all zero have a positive sum.
pub proof fn lemma_sum_positive(s: Seq<u32>)
    requires
        !all_zero(s),
    ensures
        sum_counts(s) >= 1,
    decreases s.len(),
{
    if s.len() > 0 {
        if s.last() == 0 {
            let r = choose|r: int| 0 <= r < s.len() && #[trigger] s[r] != 0;
            assert(s.drop_last()[r] != 0);
            lemma_sum_positive(s.drop_last());
        }
    }
}

/// Computes the lower bound `heuristic_value`.
pub fn heuristic(state: &[u32], max_step_size: u64) -> (h: u64)
    requires
        1 <= max_step_size <= 0xFFFF_FFFF,
        state.len() <= 0xFFFF_FFFF,
    ensures
        h == heuristic_value(state@, max_step_size as int),
        h <= state.len() * 0xFFFF_FFFF,
{
    let mut max_remaining: u64 = 0;
    let mut sum_remaining: u64 = 0;
    let mut i: usize = 0;
    while i < state.len()
        invariant
            i <= state.len() <= 0xFFFF_FFFF,
            max_remaining == max_upto(state@, i as int),
            sum_remaining == sum_upto(state@, i as int),
            sum_remaining <= i * 0xFFFF_FFFF,
            max_remaining <= sum_remaining,
        decreases state.len() - i,
    {
        let val: u64 = state[i] as u64;
        if val > max_remaining {
            max_remaining = val;
        }
        sum_remaining = sum_remaining + val;
        i = i + 1;
    }
    let sum_bound: u64 = (sum_remaining + max_step_size - 1) / max_step_size;
    proof {
        let a = sum_remaining as int;
        let d = max_step_size as int;
        assert((a + d - 1) / d <= a) by (nonlinear_arith)
            requires
                a >= 0,
                d >= 1,
        ;
    }
    if max_remaining >= sum_bound {
        max_remaining
    } else {
        sum_bound
    }
}

/// Applies a step once to the counts; `None` where a position it touches
/// has no count left.
pub fn lower_state(state: &Vec<u32>, mask: u32, n: usize) -> (res: Option<Vec<u32>>)
    requires
        state.len() == n,
        n <= 32,
    ensures
        match res {
            Some(next) => applicable(state@, mask) && next@ == lowered(state@, mask),
            None => !applicable(state@, mask),
        },
{
    let mut next: Vec<u32> = Vec::new();
    let mut r: usize = 0;
    while r < n
        invariant
            r <= n <= 32,
            state.len() == n,
            next.len() == r,
            forall|q: int| 0 <= q < r && #[trigger] bit(mask as u64, q) ==> state[q] >= 1,
            forall|q: int| 0 <= q < r ==> next[q] == lowered(state@, mask)[q],
        decreases n - r,
    {
        if test_bit(mask as u64, r) {
            if state[r] == 0 {
                return None;
            }
            next.push(state[r] - 1);
        } else {
            next.push(state[r]);
        }
        r = r + 1;
    }
    proof {
        assert(next@ =~= lowered(state@, mask));
    }
    Some(next)
}

/// Node `a` comes before node `b`: it has the lower `f`, or the same `f`
/// and the lower `g`.
pub open spec fn comes_before(a: Node, b: Node) -> bool {
    a.f < b.f || (a.f == b.f && a.g < b.g)
}

/// Finds the node that comes first: least `f`, and among those least `g`;
/// of several such nodes the first.
pub fn min_index(heap: &Vec<Node>) -> (idx: usize)
    requires
        heap.len() >= 1,
    ensures
        idx < heap.len(),
        forall|j: int| 0 <= j < heap.len() ==> heap[idx as int].f <= (#[trigger] heap[j]).f,
        forall|j: int| 0 <= j < heap.len() ==> !comes_before(#[trigger] heap[j], heap[idx as int]),
        forall|j: int| 0 <= j < idx ==> comes_before(heap[idx as int], #[trigger] heap[j]),
{
    let mut idx: usize = 0;
    let mut j: usize = 1;
    while j < heap.len()
        invariant
            idx < j <= heap.len(),
            forall|q: int| 0 <= q < j ==> heap[idx as int].f <= (#[trigger] heap[q]).f,
            forall|q: int| 0 <= q < j ==> !comes_before(#[trigger] heap[q], heap[idx as int]),
            forall|q: int| 0 <= q < idx ==> comes_before(heap[idx as int], #[trigger] heap[q]),
        decreases heap.len() - j,
    {
        if heap[j].f < heap[idx].f || (heap[j].f == heap[idx].f && heap[j].g < heap[idx].g) {
            idx = j;
        }
        j = j + 1;
    }
    idx
}

/// Looks a count vector up in the table of best costs.
pub fn find_state(keys: &Vec<Vec<u32>>, state: &Vec<u32>) -> (res: Option<usize>)
    ensures
        match res {
            Some(i) => i < keys.len() && keys[i as int]@ == state@,
            None => forall|i: int| 0 <= i < keys.len() ==> (#[trigger] keys[i])@ != state@,
        },
{
    let mut i: usize = 0;
    while i < keys.len()
        invariant
            i <= keys.len(),
            forall|j: int| 0 <= j < i ==> (#[trigger] keys[j])@ != state@,
        decreases keys.len() - i,
    {
        if same_counts(&keys[i], state) {
            return Some(i);
        }
        i = i + 1;
    }
    None
}

/// The largest number of positions that one step touches, and at least one.
pub fn max_step_size(step_masks: &[u32], positions: usize) -> (mss: u64)
    requires
        well_formed(step_masks@, positions as int),
    ensures
        1 <= mss <= 64,
        forall|i: int| 0 <= i < step_masks.len() ==> weight_below(#[trigger] step_masks[i] as u64, positions as int) <= mss,
{
    let mut mss: u64 = 1;
    let mut i: usize = 0;
    while i < step_masks.len()
        invariant
            i <= step_masks.len(),
            well_formed(step_masks@, positions as int),
            1 <= mss <= 64,
            forall|j: int| 0 <= j < i ==> weight_below(#[trigger] step_masks[j] as u64, positions as int) <= mss,
        decreases step_masks.len() - i,
    {
        let size: u64 = popcount(step_masks[i] as u64);
        proof {
            assert(fits(step_masks@[i as int] as u64, positions as int));
            lemma_weight_fits(step_masks@[i as int] as u64, positions as int, 64);
        }
        if size > mss {
            mss = size;
        }
        i = i + 1;
    }
    mss
}

/// One more application of a step leads one step further down.
pub proof fn lemma_reach_step(steps: Seq<u32>, from: Seq<u32>, s: Seq<u32>, g: int, i: int)
    requires
        reached(steps, from, s, g),
        0 <= i < steps.len(),
        applicable(s, steps[i]),
    ensures
        reached(steps, from, lowered(s, steps[i]), g + 1),
{
    let m = steps.len() as int;
    let mult = choose|mult: Seq<nat>| #[trigger] leads_to(steps, from, mult, s) && total(mult, m) == g;
    let more = mult.update(i, mult[i] + 1);
    let next = lowered(s, steps[i]);
    assert forall|r: int| 0 <= r < from.len() implies #[trigger] tally(steps, more, r, m) + next[r] == from[r] by {
        lemma_tally_update(steps, mult, r, m, i, mult[i] + 1);
        assert(tally(steps, mult, r, m) + s[r] == from[r]);
    }
    lemma_tally_update(steps, mult, 0, m, i, mult[i] + 1);
    assert(leads_to(steps, from, more, next) && total(more, m) == g + 1);
}

/// Taking a node out of the heap keeps every other count vector open
/// that was open, provided the node taken is stale or its count vector is
/// the one to be expanded.
pub proof fn lemma_settled_take(
    steps: Seq<u32>,
    best: Map<Seq<u32>, u64>,
    heap: Seq<Node>,
    idx: int,
    except: Option<Seq<u32>>,
)
    requires
        0 <= idx < heap.len(),
        settled(steps, best, heap, None),
        except == Some(heap[idx].state@) || (except is None && heap[idx].g != best[heap[idx].state@]),
    ensures
        settled(steps, best, heap.update(idx, heap.last()).drop_last(), except),
{
    let after = heap.update(idx, heap.last()).drop_last();
    assert forall|s: Seq<u32>| #[trigger] best.contains_key(s) && Some(s) != except implies is_open(best, after, s)
        || is_closed(steps, best, s) by {
        if is_open(best, heap, s) {
            let w = choose|w: int| 0 <= w < heap.len() && (#[trigger] heap[w]).state@ == s && heap[w].g == best[s];
            assert(w != idx);
            if w == heap.len() - 1 {
                assert(after[idx].state@ == s && after[idx].g == best[s]);
            } else {
                assert(after[w].state@ == s && after[w].g == best[s]);
            }
        }
    }
}

/// Answers the second question for the whole count vector by best-first
/// search over the count vectors, after the quick rejections: a position
/// with a positive target that no step touches, and a parity that no
/// selection of steps matches.
pub fn min_steps_part2(step_masks: &[u32], targets: &[u32], positions: usize) -> (res: Option<u64>)
    requires
        well_formed(step_masks@, positions as int),
        targets.len() == positions,
    ensures
        is_count_answer(step_masks@, targets@, res),
{
    let ghost steps = step_masks@;
    let ghost t0 = targets@;
    let ghost n = positions as int;
    let m: usize = step_masks.len();
    let start: Vec<u32> = vstd::slice::slice_to_vec(targets);
    if is_all_zero(&start) {
        proof {
            lemma_zero_counts(steps, t0);
        }
        return Some(0);
    }
    let mut pos: usize = 0;
    while pos < positions
        invariant
            pos <= positions <= 32,
            targets.len() == positions,
            steps == step_masks@,
            t0 == targets@,
        decreases positions - pos,
    {
        if targets[pos] > 0 {
            let mut covered: bool = false;
            let mut i: usize = 0;
            while i < step_masks.len()
                invariant
                    i <= step_masks.len(),
                    pos < 32,
                    steps == step_masks@,
                    covered == exists|j: int| 0 <= j < i && #[trigger] bit(steps[j] as u64, pos as int),
                decreases step_masks.len() - i,
            {
                if test_bit(step_masks[i] as u64, pos) {
                    covered = true;
                }
                i = i + 1;
            }
            if !covered {
                proof {
                    if solvable_counts(steps, t0) {
                        let mult = choose|mu: Seq<nat>| hits(steps, mu, t0);
                        lemma_untouched(steps, mult, pos as int, steps.len() as int);
                        assert(tally(steps, mult, pos as int, steps.len() as int) == t0[pos as int]);
                    }
                }
                return None;
            }
        }
        pos = pos + 1;
    }
    let target_mask: u32 = parity_pattern(&start);
    if !reachable_mod2(step_masks, target_mask) {
        proof {
            lemma_parity_needed(steps, n, t0, target_mask);
        }
        return None;
    }
    let mss: u64 = max_step_size(step_masks, positions);
    let h0: u64 = heuristic(start.as_slice(), mss);
    let first: Vec<u32> = vstd::slice::slice_to_vec(targets);
    let mut heap: Vec<Node> = Vec::new();
    heap.push(Node { f: h0, g: 0, state: first });
    let mut keys: Vec<Vec<u32>> = Vec::new();
    let mut vals: Vec<u64> = Vec::new();
    keys.push(start);
    vals.push(0);
    let ghost mut best: Map<Seq<u32>, u64> = Map::<Seq<u32>, u64>::empty().insert(t0, 0u64);
    let ghost base: nat = (m + 1) as nat;
    proof {
        lemma_sum_cap(t0);
        let z = idle(steps.len());
        assert forall|r: int| 0 <= r < t0.len() implies #[trigger] tally(steps, z, r, steps.len() as int) + t0[r] == t0[r] by {
            lemma_idle(steps, r, steps.len() as int);
        }
        lemma_idle(steps, 0, steps.len() as int);
        assert(leads_to(steps, t0, z, t0) && total(z, steps.len() as int) == 0);
        assert(reached(steps, t0, t0, 0));
        assert(heap@[0].state@ == t0 && heap@[0].g == best[t0]);
        assert(is_open(best, heap@, t0));
        assert forall|s: Seq<u32>| #[trigger] best.contains_key(s) implies exists|i: int|
            0 <= i < keys@.len() && (#[trigger] keys@[i])@ == s by {
            assert(keys@[0]@ == s);
        }
    }
    while heap.len() > 0
        invariant
            steps == step_masks@,
            t0 == targets@,
            n == positions,
            m == step_masks.len(),
            base == m + 1,
            well_formed(steps, n),
            t0.len() == n,
            1 <= mss <= 64,
            forall|i: int| 0 <= i < steps.len() ==> weight_below(#[trigger] steps[i] as u64, n) <= mss,
            sum_counts(t0) <= 32 * 0xFFFF_FFFF,
            table_ok(keys@, vals@, best),
            forall|j: int| 0 <= j < heap.len() ==> node_ok(steps, t0, mss as int, best, #[trigger] heap@[j]),
            known_ok(steps, t0, best),
            settled(steps, best, heap@, None),
            best.contains_key(t0),
            best[t0] == 0,
        decreases heap_weight(heap@, base),
    {
        let ghost old_heap = heap@;
        let idx: usize = min_index(&heap);
        let node: Node = heap.swap_remove(idx);
        let ghost s = node.state@;
        proof {
            lemma_weight_take(old_heap, idx as int, base);
            lemma_power_mono(base, 0, sum_counts(s));
            assert(node_ok(steps, t0, mss as int, best, old_heap[idx as int]));
            assert forall|j: int| 0 <= j < heap.len() implies node_ok(steps, t0, mss as int, best, #[trigger] heap@[j]) by {
                if j == idx {
                    assert(node_ok(steps, t0, mss as int, best, old_heap[old_heap.len() - 1]));
                } else {
                    assert(node_ok(steps, t0, mss as int, best, old_heap[j]));
                }
            }
        }
        if is_all_zero(&node.state) {
            proof {
                let mlen = steps.len() as int;
                assert(reached(steps, t0, s, best[s] as int));
                let mult = choose|mult: Seq<nat>| #[trigger] leads_to(steps, t0, mult, s) && total(mult, mlen) == best[s];
                assert forall|r: int| 0 <= r < t0.len() implies #[trigger] tally(steps, mult, r, mlen) == t0[r] by {
                    assert(tally(steps, mult, r, mlen) + s[r] == t0[r]);
                }
                assert(hits(steps, mult, t0) && total(mult, mlen) <= node.g);
                if within_total(steps, t0, node.g - 1) {
                    let star = choose|star: Seq<nat>| #[trigger] hits(steps, star, t0) && total(star, mlen) <= node.g - 1;
                    let z = idle(steps.len());
                    assert(left_of(steps, t0, z) =~= t0) by {
                        assert forall|r: int| 0 <= r < t0.len() implies left_of(steps, t0, z)[r] == t0[r] by {
                            lemma_idle(steps, r, mlen);
                        }
                    }
                    lemma_idle(steps, 0, mlen);
                    let w = lemma_walk(steps, n, t0, mss as int, best, old_heap, star, z);
                    assert(old_heap[idx as int].f <= old_heap[w].f);
                }
            }
            return Some(node.g);
        }
        let at: usize = match find_state(&keys, &node.state) {
            Some(j) => j,
            None => {
                proof {
                    let j = choose|j: int| 0 <= j < keys@.len() && (#[trigger] keys@[j])@ == s;
                    assert(false);
                }
                0
            },
        };
        if vals[at] == node.g {
            proof {
                lemma_settled_take(steps, best, old_heap, idx as int, Some(s));
                lemma_sum_positive(s);
                lemma_power_mono(base, 0, (sum_counts(s) - 1) as nat);
            }
            let ghost after_pop: nat = heap_weight(heap@, base);
            let ghost cap: nat = power(base, (sum_counts(s) - 1) as nat);
            let ghost mut spent: nat = 0;
            let mut i: usize = 0;
            while i < m
                invariant
                    i <= m,
                    steps == step_masks@,
                    t0 == targets@,
                    n == positions,
                    m == step_masks.len(),
                    base == m + 1,
                    well_formed(steps, n),
                    t0.len() == n,
                    1 <= mss <= 64,
                    sum_counts(t0) <= 32 * 0xFFFF_FFFF,
                    s == node.state@,
                    s.len() == n,
                    !all_zero(s),
                    sum_counts(s) >= 1,
                    cap == power(base, (sum_counts(s) - 1) as nat),
                    cap >= 1,
                    node.g + sum_counts(s) <= sum_counts(t0),
                    table_ok(keys@, vals@, best),
                    forall|j: int| 0 <= j < heap.len() ==> node_ok(steps, t0, mss as int, best, #[trigger] heap@[j]),
                    known_ok(steps, t0, best),
                    settled(steps, best, heap@, Some(s)),
                    best.contains_key(t0),
                    best[t0] == 0,
                    best.contains_key(s),
                    best[s] == node.g,
                    forall|q: int|
                        0 <= q < i && steps[q] != 0 && applicable(s, #[trigger] steps[q]) ==> best.contains_key(
                            lowered(s, steps[q]),
                        ) && best[lowered(s, steps[q])] <= node.g + 1,
                    heap_weight(heap@, base) <= after_pop + spent,
                    spent <= i * cap,
                decreases m - i,
            {
                let mask: u32 = step_masks[i];
                proof {
                    assert((i + 1) * cap == i * cap + cap) by (nonlinear_arith);
                }
                if mask != 0 {
                    match lower_state(&node.state, mask, positions) {
                        None => {},
                        Some(next) => {
                            let next_g: u64 = node.g + 1;
                            let found = find_state(&keys, &next);
                            let improve: bool = match found {
                                Some(q) => next_g < vals[q],
                                None => true,
                            };
                            proof {
                                if !improve {
                                    assert(best.contains_key(next@));
                                }
                            }
                            if improve {
                                let h: u64 = heuristic(next.as_slice(), mss);
                                let ghost old_best = best;
                                let ghost old_keys = keys@;
                                let ghost old_vals = vals@;
                                let ghost before = heap@;
                                match found {
                                    Some(q) => {
                                        vals.set(q, next_g);
                                    },
                                    None => {
                                        let copy: Vec<u32> = vstd::slice::slice_to_vec(next.as_slice());
                                        keys.push(copy);
                                        vals.push(next_g);
                                    },
                                }
                                let child = Node { f: next_g + h, g: next_g, state: next };
                                proof {
                                    lemma_bit_single(0);
                                    assert(fits(steps[i as int] as u64, n));
                                    if weight_below(mask as u64, 64) == 0 {
                                        crate::bits::lemma_weight_none(mask as u64, 64);
                                        crate::bits::lemma_bit_ext(mask as u64, 0u64);
                                    }
                                    let r = crate::bits::lemma_weight_witness(mask as u64, 64);
                                    assert(r < n);
                                    assert(child.state@[r] < s[r]);
                                    assert(child.state@ != s);
                                    lemma_sum_lt(child.state@, s, r);
                                    lemma_power_mono(base, sum_counts(child.state@), (sum_counts(s) - 1) as nat);
                                    lemma_reach_step(steps, t0, s, node.g as int, i as int);
                                    if !old_best.contains_key(child.state@) {
                                        assert forall|w: int| 0 <= w < old_keys.len() implies (#[trigger] old_keys[w])@ != child.state@ by {}
                                    }
                                    lemma_relax(steps, t0, mss as int, old_best, before, s, child);
                                    best = old_best.insert(child.state@, next_g);
                                    lemma_weight_push(before, child, base);
                                    spent = spent + cap;
                                    assert(table_ok(keys@, vals@, best)) by {
                                        assert forall|w: int| 0 <= w < keys@.len() implies best.contains_key(
                                            (#[trigger] keys@[w])@,
                                        ) && best[keys@[w]@] == vals@[w] by {
                                            if w < old_keys.len() {
                                                assert(old_best.contains_key(old_keys[w]@));
                                            }
                                        }
                                        assert forall|t: Seq<u32>| #[trigger] best.contains_key(t) implies exists|w: int|
                                            0 <= w < keys@.len() && (#[trigger] keys@[w])@ == t by {
                                            if old_best.contains_key(t) {
                                                let w = choose|w: int| 0 <= w < old_keys.len() && (#[trigger] old_keys[w])@ == t;
                                                assert(keys@[w]@ == t);
                                            } else {
                                                assert(keys@[keys@.len() - 1]@ == t);
                                            }
                                        }
                                        assert forall|a: int, b: int| 0 <= a < b < keys@.len() implies (#[trigger] keys@[a])@ != (
                                        #[trigger] keys@[b])@ by {
                                            if b < old_keys.len() {
                                                assert(old_keys[a]@ != old_keys[b]@);
                                            }
                                        }
                                    }
                                }
                                heap.push(child);
                            }
                        },
                    }
                }
                i = i + 1;
            }
            proof {
                assert(is_closed(steps, best, s));
                assert(m * cap < base * cap) by (nonlinear_arith)
                    requires
                        base == m + 1,
                        cap >= 1,
                ;
                assert(power(base, sum_counts(s)) == base * cap);
            }
        } else {
            proof {
                lemma_settled_take(steps, best, old_heap, idx as int, None);
            }
        }
    }
    proof {
        if solvable_counts(steps, t0) {
            let mlen = steps.len() as int;
            let star = choose|star: Seq<nat>| hits(steps, star, t0);
            let z = idle(steps.len());
            assert(left_of(steps, t0, z) =~= t0) by {
                assert forall|r: int| 0 <= r < t0.len() implies left_of(steps, t0, z)[r] == t0[r] by {
                    lemma_idle(steps, r, mlen);
                }
            }
            lemma_idle(steps, 0, mlen);
            let w = lemma_walk(steps, n, t0, mss as int, best, heap@, star, z);
        }
    }
    None
}

} // verus!
