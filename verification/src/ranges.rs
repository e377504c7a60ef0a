//! Inclusive ranges of whole numbers: merging them, counting the values
//! that lie in some range, and measuring what the ranges cover.
use vstd::prelude::*;
use crate::input::RangeData;

verus! {

/// `x` lies in one of the ranges.
pub open spec fn covered(ranges: Seq<(isize, isize)>, x: int) -> bool {
    exists|i: int| 0 <= i < ranges.len() && (#[trigger] ranges[i]).0 <= x <= ranges[i].1
}

/// The ranges rise, and between each and the next at least one number is
/// left out.
pub open spec fn is_merged(merged: Seq<(isize, isize)>) -> bool {
    forall|i: int, j: int| 0 <= i < j < merged.len() ==> (#[trigger] merged[i]).1 + 1 < (#[trigger] merged[j]).0
}

/// Every range has a start and an end taken from `ranges`.
pub open spec fn drawn_from(merged: Seq<(isize, isize)>, ranges: Seq<(isize, isize)>) -> bool {
    forall|k: int|
        0 <= k < merged.len() ==> (exists|i: int| 0 <= i < ranges.len() && (#[trigger] ranges[i]).0 == merged[k].0)
            && (exists|j: int| 0 <= j < ranges.len() && (#[trigger] ranges[j]).1 == (#[trigger] merged[k]).1)
}

/// `merged` is the merged form of `ranges`: it covers the same numbers
/// with ranges that neither overlap nor touch.
pub open spec fn is_merge_of(merged: Seq<(isize, isize)>, ranges: Seq<(isize, isize)>) -> bool {
    &&& forall|x: int| covered(merged, x) <==> covered(ranges, x)
    &&& is_merged(merged)
    &&& drawn_from(merged, ranges)
}

/// No range ends before it starts.
pub open spec fn all_valid(ranges: Seq<(isize, isize)>) -> bool {
    forall|i: int| 0 <= i < ranges.len() ==> (#[trigger] ranges[i]).0 <= ranges[i].1
}

/// How many of the first `k` values lie in one of the ranges.
pub open spec fn values_covered(ranges: Seq<(isize, isize)>, values: Seq<isize>, k: int) -> nat
    decreases k,
{
    if k <= 0 {
        0
    } else {
        values_covered(ranges, values, k - 1) + (if covered(ranges, values[k - 1] as int) { 1nat } else { 0nat })
    }
}

/// The total length of the first `k` ranges.
pub open spec fn span_sum(merged: Seq<(isize, isize)>, k: int) -> int
    decreases k,
{
    if k <= 0 {
        0
    } else {
        span_sum(merged, k - 1) + (merged[k - 1].1 - merged[k - 1].0 + 1)
    }
}

/// A number lies in the ranges with one more range exactly when it lies
/// in the ranges or in that one.
pub proof fn lemma_covered_push(s: Seq<(isize, isize)>, r: (isize, isize), x: int)
    ensures
        covered(s.push(r), x) <==> (covered(s, x) || r.0 <= x <= r.1),
{
    let t = s.push(r);
    if covered(s, x) {
        let i = choose|i: int| 0 <= i < s.len() && (#[trigger] s[i]).0 <= x <= s[i].1;
        assert(t[i].0 <= x <= t[i].1);
    }
    if r.0 <= x <= r.1 {
        assert(t[s.len() as int].0 <= x <= t[s.len() as int].1);
    }
    if covered(t, x) {
        let i = choose|i: int| 0 <= i < t.len() && (#[trigger] t[i]).0 <= x <= t[i].1;
        if i < s.len() {
            assert(s[i].0 <= x <= s[i].1);
        }
    }
}

/// Lists with the same elements cover the same numbers.
pub proof fn lemma_covered_same(a: Seq<(isize, isize)>, b: Seq<(isize, isize)>, x: int)
    requires
        a.to_multiset() == b.to_multiset(),
    ensures
        covered(a, x) == covered(b, x),
{
    a.to_multiset_ensures();
    b.to_multiset_ensures();
    if covered(a, x) {
        let i = choose|i: int| 0 <= i < a.len() && (#[trigger] a[i]).0 <= x <= a[i].1;
        assert(a.contains(a[i]));
        assert(a.to_multiset().count(a[i]) > 0);
        assert(b.to_multiset().count(a[i]) > 0);
        assert(b.contains(a[i]));
        let j = choose|j: int| 0 <= j < b.len() && b[j] == a[i];
        assert(b[j].0 <= x <= b[j].1);
    }
    if covered(b, x) {
        let i = choose|i: int| 0 <= i < b.len() && (#[trigger] b[i]).0 <= x <= b[i].1;
        assert(b.contains(b[i]));
        assert(b.to_multiset().count(b[i]) > 0);
        assert(a.to_multiset().count(b[i]) > 0);
        assert(a.contains(b[i]));
        let j = choose|j: int| 0 <= j < a.len() && a[j] == b[i];
        assert(a[j].0 <= x <= a[j].1);
    }
}

/// `slice::sort_unstable_by_key` with the start of each range as key: the
/// list keeps its elements and comes out in rising order of the starts.
#[verifier::external_body]
fn sort_by_start(v: &mut Vec<(isize, isize)>)
    ensures
        final(v)@.to_multiset() == old(v)@.to_multiset(),
        forall|i: int, j: int| 0 <= i <= j < final(v).len() ==> final(v)[i].0 <= final(v)[j].0,
{
    v.sort_unstable_by_key(|&(start, _)| start);
}

/// Merges ranges that overlap or touch into the least list of ranges
/// that covers the same numbers.
pub fn merge_ranges(ranges: &[(isize, isize)]) -> (merged: Vec<(isize, isize)>)
    requires
        forall|i: int| 0 <= i < ranges.len() ==> (#[trigger] ranges[i]).1 < isize::MAX,
    ensures
        is_merge_of(merged@, ranges@),
        all_valid(ranges@) ==> all_valid(merged@),
{
    if ranges.len() == 0 {
        let merged: Vec<(isize, isize)> = Vec::new();
        proof {
            assert forall|x: int| covered(merged@, x) <==> covered(ranges@, x) by {}
        }
        return merged;
    }
    let mut sorted: Vec<(isize, isize)> = vstd::slice::slice_to_vec(ranges);
    sort_by_start(&mut sorted);
    let ghost all = sorted@;
    proof {
        all.to_multiset_ensures();
        ranges@.to_multiset_ensures();
        assert forall|k: int| 0 <= k < all.len() implies #[trigger] ranges@.contains(all[k]) by {
            assert(all.contains(all[k]));
            assert(all.to_multiset().count(all[k]) > 0);
            assert(ranges@.to_multiset().count(all[k]) > 0);
        }
    }
    let mut merged: Vec<(isize, isize)> = Vec::new();
    let mut current: (isize, isize) = sorted[0];
    let mut i: usize = 1;
    proof {
        assert(all.subrange(0, 1) =~= Seq::<(isize, isize)>::empty().push(all[0]));
        assert forall|x: int| covered(merged@.push(current), x) <==> covered(all.subrange(0, 1), x) by {
            lemma_covered_push(merged@, current, x);
            lemma_covered_push(Seq::<(isize, isize)>::empty(), all[0], x);
        }
        assert(ranges@.contains(all[0]));
        let w = choose|w: int| 0 <= w < ranges@.len() && ranges@[w] == all[0];
        assert(ranges[w].0 == current.0 && ranges[w].1 == current.1);
    }
    while i < sorted.len()
        invariant
            1 <= i <= sorted.len(),
            all == sorted@,
            forall|a: int, b: int| 0 <= a <= b < all.len() ==> all[a].0 <= all[b].0,
            forall|k: int| 0 <= k < all.len() ==> #[trigger] ranges@.contains(all[k]),
            forall|k: int| 0 <= k < ranges.len() ==> (#[trigger] ranges[k]).1 < isize::MAX,
            forall|x: int| covered(merged@.push(current), x) <==> covered(all.subrange(0, i as int), x),
            is_merged(merged@),
            forall|k: int| 0 <= k < merged.len() ==> (#[trigger] merged[k]).1 + 1 < current.0,
            drawn_from(merged@, ranges@),
            all_valid(ranges@) ==> all_valid(merged@) && current.0 <= current.1,
            exists|a: int| 0 <= a < i && (#[trigger] all[a]).0 == current.0,
            exists|b: int| 0 <= b < ranges.len() && (#[trigger] ranges[b]).0 == current.0,
            exists|b: int| 0 <= b < ranges.len() && (#[trigger] ranges[b]).1 == current.1,
        decreases sorted.len() - i,
    {
        let (start, end) = sorted[i];
        let ghost before = merged@;
        let ghost old_current = current;
        proof {
            assert(ranges@.contains(all[i as int]));
            let w = choose|w: int| 0 <= w < ranges@.len() && ranges@[w] == all[i as int];
            assert(ranges[w].0 == start && ranges[w].1 == end);
            let a = choose|a: int| 0 <= a < i && (#[trigger] all[a]).0 == current.0;
            assert(all[a].0 <= all[i as int].0);
            assert(all.subrange(0, i as int + 1) =~= all.subrange(0, i as int).push(all[i as int]));
        }
        if start <= current.1 + 1 {
            if end > current.1 {
                current.1 = end;
            }
            proof {
                assert forall|x: int| covered(merged@.push(current), x) <==> covered(
                    all.subrange(0, i as int + 1),
                    x,
                ) by {
                    lemma_covered_push(before, old_current, x);
                    lemma_covered_push(before, current, x);
                    lemma_covered_push(all.subrange(0, i as int), all[i as int], x);
                }
                assert(all[i as int].0 >= current.0);
            }
        } else {
            merged.push(current);
            current = (start, end);
            proof {
                assert forall|x: int| covered(merged@.push(current), x) <==> covered(
                    all.subrange(0, i as int + 1),
                    x,
                ) by {
                    lemma_covered_push(merged@, current, x);
                    lemma_covered_push(all.subrange(0, i as int), all[i as int], x);
                }
                assert(is_merged(merged@)) by {
                    assert forall|a: int, b: int| 0 <= a < b < merged@.len() implies (#[trigger] merged@[a]).1 + 1 < (
                    #[trigger] merged@[b]).0 by {
                        if b < before.len() {
                            assert(before[a].1 + 1 < before[b].0);
                        } else {
                            assert(before[a].1 + 1 < old_current.0);
                        }
                    }
                }
                assert(drawn_from(merged@, ranges@)) by {
                    assert forall|k: int| 0 <= k < merged@.len() implies (exists|p: int|
                        0 <= p < ranges.len() && (#[trigger] ranges[p]).0 == merged@[k].0) && (exists|q: int|
                        0 <= q < ranges.len() && (#[trigger] ranges[q]).1 == (#[trigger] merged@[k]).1) by {
                        if k < before.len() {
                            assert(merged@[k] == before[k]);
                        }
                    }
                }
                assert(all[i as int].0 == current.0);
            }
        }
        i = i + 1;
    }
    let ghost before = merged@;
    merged.push(current);
    proof {
        assert(all.subrange(0, all.len() as int) =~= all);
        assert forall|x: int| covered(merged@, x) <==> covered(ranges@, x) by {
            lemma_covered_same(all, ranges@, x);
        }
        assert(is_merged(merged@)) by {
            assert forall|a: int, b: int| 0 <= a < b < merged@.len() implies (#[trigger] merged@[a]).1 + 1 < (
            #[trigger] merged@[b]).0 by {
                if b < before.len() {
                    assert(before[a].1 + 1 < before[b].0);
                } else {
                    assert(before[a].1 + 1 < current.0);
                }
            }
        }
        assert(drawn_from(merged@, ranges@)) by {
            assert forall|k: int| 0 <= k < merged@.len() implies (exists|p: int|
                0 <= p < ranges.len() && (#[trigger] ranges[p]).0 == merged@[k].0) && (exists|q: int|
                0 <= q < ranges.len() && (#[trigger] ranges[q]).1 == (#[trigger] merged@[k]).1) by {
                if k < before.len() {
                    assert(merged@[k] == before[k]);
                }
            }
        }
    }
    merged
}

/// Counts the values that lie in at least one range.
pub fn part1(input: &RangeData) -> (count: usize)
    requires
        forall|i: int| 0 <= i < input.ranges.len() ==> (#[trigger] input.ranges[i]).1 < isize::MAX,
    ensures
        count == values_covered(input.ranges@, input.values@, input.values.len() as int),
{
    let merged_ranges = merge_ranges(input.ranges.as_slice());
    let mut count: usize = 0;
    let mut v: usize = 0;
    while v < input.values.len()
        invariant
            v <= input.values.len(),
            count <= v,
            is_merge_of(merged_ranges@, input.ranges@),
            count == values_covered(input.ranges@, input.values@, v as int),
        decreases input.values.len() - v,
    {
        let value: isize = input.values[v];
        let mut hit: bool = false;
        let mut k: usize = 0;
        while k < merged_ranges.len()
            invariant
                k <= merged_ranges.len(),
                hit == covered(merged_ranges@.subrange(0, k as int), value as int),
            decreases merged_ranges.len() - k,
        {
            let (start, end) = merged_ranges[k];
            proof {
                lemma_covered_push(merged_ranges@.subrange(0, k as int), merged_ranges@[k as int], value as int);
                assert(merged_ranges@.subrange(0, k as int + 1) =~= merged_ranges@.subrange(0, k as int).push(
                    merged_ranges@[k as int],
                ));
            }
            if value >= start && value <= end {
                hit = true;
            }
            k = k + 1;
        }
        proof {
            assert(merged_ranges@.subrange(0, merged_ranges@.len() as int) =~= merged_ranges@);
            assert(covered(merged_ranges@, value as int) <==> covered(input.ranges@, value as int));
        }
        if hit {
            count = count + 1;
        }
        v = v + 1;
    }
    count
}

/// The merged ranges up to index `k` fill no more than the stretch from
/// their first start to their last end.
pub proof fn lemma_span_bound(merged: Seq<(isize, isize)>, k: int)
    requires
        is_merged(merged),
        1 <= k <= merged.len(),
        forall|i: int| 0 <= i < merged.len() ==> (#[trigger] merged[i]).0 <= merged[i].1,
    ensures
        0 <= span_sum(merged, k) <= merged[k - 1].1 - merged[0].0 + 1,
    decreases k,
{
    if k > 1 {
        lemma_span_bound(merged, k - 1);
        assert(merged[k - 2].1 + 1 < merged[k - 1].0);
    } else {
        assert(span_sum(merged, 0) == 0);
    }
}

/// Measures what the ranges cover: the total length of their merged
/// form, of which there is one.
pub fn part2(input: &RangeData) -> (total: usize)
    requires
        all_valid(input.ranges@),
        forall|i: int| 0 <= i < input.ranges.len() ==> (#[trigger] input.ranges[i]).1 < isize::MAX,
        forall|i: int, j: int|
            0 <= i < input.ranges.len() && 0 <= j < input.ranges.len() ==> (#[trigger] input.ranges[j]).1 - (
            #[trigger] input.ranges[i]).0 + 1 < isize::MAX,
    ensures
        exists|merged: Seq<(isize, isize)>| #[trigger]
            is_merge_of(merged, input.ranges@) && all_valid(merged) && total == span_sum(merged, merged.len() as int),
{
    let merged_ranges = merge_ranges(input.ranges.as_slice());
    let ghost merged = merged_ranges@;
    let mut total: usize = 0;
    let mut k: usize = 0;
    while k < merged_ranges.len()
        invariant
            k <= merged_ranges.len(),
            merged == merged_ranges@,
            is_merge_of(merged, input.ranges@),
            forall|i: int| 0 <= i < merged.len() ==> (#[trigger] merged[i]).0 <= merged[i].1,
            forall|i: int, j: int|
                0 <= i < input.ranges.len() && 0 <= j < input.ranges.len() ==> (#[trigger] input.ranges[j]).1 - (
                #[trigger] input.ranges[i]).0 + 1 < isize::MAX,
            total == span_sum(merged, k as int),
        decreases merged_ranges.len() - k,
    {
        let (start, end) = merged_ranges[k];
        proof {
            lemma_span_bound(merged, k as int + 1);
            let p = choose|p: int| 0 <= p < input.ranges.len() && (#[trigger] input.ranges[p]).0 == merged[0].0;
            let q = choose|q: int| 0 <= q < input.ranges.len() && (#[trigger] input.ranges[q]).1 == merged[k as int].1;
            assert(input.ranges[q].1 - input.ranges[p].0 + 1 < isize::MAX);
            let ps = choose|ps: int| 0 <= ps < input.ranges.len() && (#[trigger] input.ranges[ps]).0 == merged[k as int].0;
            assert(input.ranges[q].1 - input.ranges[ps].0 + 1 < isize::MAX);
        }
        total = total + (end - start + 1) as usize;
        k = k + 1;
    }
    total
}

/// The first ranges of two merged forms that cover the same numbers are
/// the same.
pub proof fn lemma_merge_first(a: Seq<(isize, isize)>, b: Seq<(isize, isize)>)
    requires
        forall|x: int| covered(a, x) == covered(b, x),
        is_merged(a),
        is_merged(b),
        all_valid(a),
        all_valid(b),
        a.len() > 0,
    ensures
        b.len() > 0,
        a[0].0 <= b[0].0,
        a[0].1 <= b[0].1,
{
    let s = a[0].0 as int;
    assert(covered(a, s));
    assert(covered(b, s));
    let j = choose|j: int| 0 <= j < b.len() && (#[trigger] b[j]).0 <= s <= b[j].1;
    let t = b[0].0 as int;
    assert(b[0].0 <= b[0].1);
    assert(covered(b, t));
    assert(covered(a, t));
    let i = choose|i: int| 0 <= i < a.len() && (#[trigger] a[i]).0 <= t <= a[i].1;
    if i > 0 {
        assert(a[0].1 + 1 < a[i].0);
    }
    assert(a[0].0 <= a[0].1);
    assert(s <= t);
    if j > 0 {
        assert(b[0].1 + 1 < b[j].0);
    }
    assert(t <= s);
    if a[0].1 > b[0].1 {
        let x = b[0].1 + 1;
        assert(a[0].0 <= x <= a[0].1);
        assert(covered(a, x));
        assert(covered(b, x));
        let k = choose|k: int| 0 <= k < b.len() && (#[trigger] b[k]).0 <= x <= b[k].1;
        if k > 0 {
            assert(b[0].1 + 1 < b[k].0);
        }
    }
}

/// Two merged forms that cover the same numbers are the same.
pub proof fn lemma_merge_same(a: Seq<(isize, isize)>, b: Seq<(isize, isize)>)
    requires
        forall|x: int| covered(a, x) == covered(b, x),
        is_merged(a),
        is_merged(b),
        all_valid(a),
        all_valid(b),
    ensures
        a == b,
    decreases a.len(),
{
    if a.len() == 0 {
        if b.len() > 0 {
            assert(b[0].0 <= b[0].1);
            assert(covered(b, b[0].0 as int));
            assert(covered(a, b[0].0 as int));
        }
        assert(a =~= b);
    } else {
        lemma_merge_first(a, b);
        lemma_merge_first(b, a);
        assert(a[0] == b[0]);
        let ra = a.drop_first();
        let rb = b.drop_first();
        assert forall|x: int| covered(ra, x) == covered(rb, x) by {
            if covered(ra, x) {
                let i = choose|i: int| 0 <= i < ra.len() && (#[trigger] ra[i]).0 <= x <= ra[i].1;
                assert(ra[i] == a[i + 1]);
                assert(a[0].1 + 1 < a[i + 1].0);
                assert(covered(a, x));
                assert(covered(b, x));
                let j = choose|j: int| 0 <= j < b.len() && (#[trigger] b[j]).0 <= x <= b[j].1;
                assert(j > 0);
                assert(rb[j - 1] == b[j]);
                assert(covered(rb, x));
            }
            if covered(rb, x) {
                let i = choose|i: int| 0 <= i < rb.len() && (#[trigger] rb[i]).0 <= x <= rb[i].1;
                assert(rb[i] == b[i + 1]);
                assert(b[0].1 + 1 < b[i + 1].0);
                assert(covered(b, x));
                assert(covered(a, x));
                let j = choose|j: int| 0 <= j < a.len() && (#[trigger] a[j]).0 <= x <= a[j].1;
                assert(j > 0);
                assert(ra[j - 1] == a[j]);
                assert(covered(ra, x));
            }
        }
        assert(is_merged(ra)) by {
            assert forall|i: int, j: int| 0 <= i < j < ra.len() implies (#[trigger] ra[i]).1 + 1 < (#[trigger] ra[j]).0 by {
                assert(a[i + 1].1 + 1 < a[j + 1].0);
            }
        }
        assert(is_merged(rb)) by {
            assert forall|i: int, j: int| 0 <= i < j < rb.len() implies (#[trigger] rb[i]).1 + 1 < (#[trigger] rb[j]).0 by {
                assert(b[i + 1].1 + 1 < b[j + 1].0);
            }
        }
        assert(all_valid(ra)) by {
            assert forall|i: int| 0 <= i < ra.len() implies (#[trigger] ra[i]).0 <= ra[i].1 by {
                assert(a[i + 1].0 <= a[i + 1].1);
            }
        }
        assert(all_valid(rb)) by {
            assert forall|i: int| 0 <= i < rb.len() implies (#[trigger] rb[i]).0 <= rb[i].1 by {
                assert(b[i + 1].0 <= b[i + 1].1);
            }
        }
        lemma_merge_same(ra, rb);
        assert(a =~= seq![a[0]] + ra);
        assert(b =~= seq![b[0]] + rb);
    }
}

/// Ranges have one merged form: two merged forms of the same ranges, each
/// of them rising from start to end, are the same.
pub proof fn lemma_merge_unique(a: Seq<(isize, isize)>, b: Seq<(isize, isize)>, ranges: Seq<(isize, isize)>)
    requires
        is_merge_of(a, ranges),
        is_merge_of(b, ranges),
        all_valid(a),
        all_valid(b),
    ensures
        a == b,
{
    lemma_merge_same(a, b);
}

/// Each range rises from start to end and ends below the largest number
/// of the machine, and from the lowest start to the highest end there
/// are fewer numbers than that.
pub open spec fn ranges_fit(ranges: Seq<(isize, isize)>) -> bool {
    &&& all_valid(ranges)
    &&& forall|i: int| 0 <= i < ranges.len() ==> (#[trigger] ranges[i]).1 < isize::MAX
    &&& forall|i: int, j: int|
        0 <= i < ranges.len() && 0 <= j < ranges.len() ==> (#[trigger] ranges[j]).1 - (#[trigger] ranges[i]).0 + 1
            < isize::MAX
}

/// Tells whether the ranges can be counted: whether `ranges_fit` holds
/// of them.
pub fn check_ranges(input: &RangeData) -> (ok: bool)
    ensures
        ok == ranges_fit(input.ranges@),
{
    let n: usize = input.ranges.len();
    if n == 0 {
        return true;
    }
    let mut low: isize = input.ranges[0].0;
    let mut high: isize = input.ranges[0].1;
    let ghost mut at_low: int = 0;
    let ghost mut at_high: int = 0;
    let mut k: usize = 0;
    while k < n
        invariant
            k <= n,
            n == input.ranges.len(),
            n >= 1,
            0 <= at_low < n,
            0 <= at_high < n,
            low == input.ranges[at_low].0,
            high == input.ranges[at_high].1,
            forall|i: int| 0 <= i < k ==> low <= (#[trigger] input.ranges[i]).0 && input.ranges[i].1 <= high,
            forall|i: int|
                0 <= i < k ==> (#[trigger] input.ranges[i]).0 <= input.ranges[i].1 && input.ranges[i].1 < isize::MAX,
        decreases n - k,
    {
        let (start, end) = input.ranges[k];
        if start > end || end == isize::MAX {
            return false;
        }
        if start < low {
            low = start;
            proof {
                at_low = k as int;
            }
        }
        if end > high {
            high = end;
            proof {
                at_high = k as int;
            }
        }
        k = k + 1;
    }
    let span: i128 = high as i128 - low as i128 + 1;
    if span >= isize::MAX as i128 {
        proof {
            assert(input.ranges[at_high].1 - input.ranges[at_low].0 + 1 >= isize::MAX);
        }
        return false;
    }
    true
}

/// Tells whether every range ends below the largest number of the
/// machine, so that the values in the ranges can be counted.
pub fn check_ends(input: &RangeData) -> (ok: bool)
    ensures
        ok == forall|i: int| 0 <= i < input.ranges.len() ==> (#[trigger] input.ranges[i]).1 < isize::MAX,
{
    let mut k: usize = 0;
    while k < input.ranges.len()
        invariant
            k <= input.ranges.len(),
            forall|i: int| 0 <= i < k ==> (#[trigger] input.ranges[i]).1 < isize::MAX,
        decreases input.ranges.len() - k,
    {
        if input.ranges[k].1 == isize::MAX {
            return false;
        }
        k = k + 1;
    }
    true
}

} // verus!
