//! Selections: entries of a row picked in order, the number that they
//! spell, and the greatest selection of a given length, the one that no
//! other comes after when selections are compared entry by entry.
use vstd::prelude::*;

verus! {

/// The number that the first `k` of the digits spell, first digit
/// highest.
pub open spec fn spelled(digits: Seq<u8>, k: int) -> nat
    decreases k,
{
    if k <= 0 {
        0
    } else {
        spelled(digits, k - 1) * 10 + digits[k - 1] as nat
    }
}

/// The places `picks` rise and lie within `row`.
pub open spec fn rising(picks: Seq<int>, len: int) -> bool {
    &&& forall|i: int| 0 <= i < picks.len() ==> 0 <= #[trigger] picks[i] < len
    &&& forall|i: int, j: int| 0 <= i < j < picks.len() ==> #[trigger] picks[i] < #[trigger] picks[j]
}

/// `chosen` holds the entries of `row` at the places `picks`.
pub open spec fn picked(row: Seq<u8>, picks: Seq<int>, chosen: Seq<u8>) -> bool {
    &&& rising(picks, row.len() as int)
    &&& picks.len() == chosen.len()
    &&& forall|i: int| 0 <= i < picks.len() ==> chosen[i] == row[#[trigger] picks[i]]
}

/// `chosen` is a selection of entries of `row`, in order.
pub open spec fn is_selection(row: Seq<u8>, chosen: Seq<u8>) -> bool {
    exists|picks: Seq<int>| picked(row, picks, chosen)
}

/// The entries of `row` at the places `picks`.
pub open spec fn entries_at(row: Seq<u8>, picks: Seq<int>) -> Seq<u8> {
    Seq::new(picks.len(), |i: int| row[picks[i]])
}

/// `a` and `b` agree before place `j`, where `a` is lower.
pub open spec fn lower_at(a: Seq<u8>, b: Seq<u8>, j: int) -> bool {
    &&& 0 <= j < a.len()
    &&& j < b.len()
    &&& a[j] < b[j]
    &&& forall|i: int| 0 <= i < j ==> a[i] == b[i]
}

/// `a` equals `b` or is lower at the first place where they differ.
pub open spec fn lex_le(a: Seq<u8>, b: Seq<u8>) -> bool {
    a.len() == b.len() && (a == b || exists|j: int| lower_at(a, b, j))
}

/// `chosen` is a selection of `n` entries of `row`, in order, and no such
/// selection comes after it.
pub open spec fn is_greatest(row: Seq<u8>, n: int, chosen: Seq<u8>) -> bool {
    &&& chosen.len() == n
    &&& is_selection(row, chosen)
    &&& forall|picks: Seq<int>| #[trigger]
        rising(picks, row.len() as int) && picks.len() == n ==> lex_le(entries_at(row, picks), chosen)
}

/// The greatest selection of `n` entries of `row`.
pub open spec fn greatest(row: Seq<u8>, n: int) -> Seq<u8> {
    choose|chosen: Seq<u8>| is_greatest(row, n, chosen)
}

/// The number that the greatest selection of `n` entries spells; zero for
/// a row of fewer than `n` entries.
pub open spec fn pick_value(row: Seq<u8>, n: int) -> nat {
    if row.len() < n {
        0
    } else {
        spelled(greatest(row, n), n)
    }
}

/// Sum of `pick_value` over the first `k` rows.
pub open spec fn picks_sum(grid: Seq<Vec<u8>>, n: int, k: int) -> nat
    decreases k,
{
    if k <= 0 {
        0
    } else {
        picks_sum(grid, n, k - 1) + pick_value(grid[k - 1]@, n)
    }
}

/// The most that `k` entries spell.
pub open spec fn cap(k: int) -> nat
    decreases k,
{
    if k <= 0 {
        0
    } else {
        cap(k - 1) * 10 + 255
    }
}

/// Numbers spelled alike up to `k` entries are the same.
pub proof fn lemma_spelled_same(a: Seq<u8>, b: Seq<u8>, k: int)
    requires
        0 <= k <= a.len(),
        k <= b.len(),
        forall|i: int| 0 <= i < k ==> a[i] == b[i],
    ensures
        spelled(a, k) == spelled(b, k),
    decreases k,
{
    if k > 0 {
        lemma_spelled_same(a, b, k - 1);
    }
}

/// What `k` entries spell is at most `cap(k)`, which grows with `k`.
pub proof fn lemma_cap(digits: Seq<u8>, k: int, top: int)
    requires
        0 <= k <= top,
    ensures
        spelled(digits, k) <= cap(k),
        cap(k) <= cap(top),
    decreases top,
{
    if k > 0 {
        lemma_cap(digits, k - 1, top - 1);
    } else if top > 0 {
        lemma_cap(digits, 0, top - 1);
    }
}

/// Seventeen entries spell less than three times ten to the eighteenth.
pub proof fn lemma_cap_seventeen()
    ensures
        cap(17) == 2_833_333_333_333_333_305,
{
    reveal_with_fuel(cap, 18);
}

/// Places that rise are at least as far apart as they are in the list.
pub proof fn lemma_rising_apart(picks: Seq<int>, len: int, i: int, j: int)
    requires
        rising(picks, len),
        0 <= i <= j < picks.len(),
    ensures
        picks[j] - picks[i] >= j - i,
    decreases j - i,
{
    if i < j {
        lemma_rising_apart(picks, len, i, j - 1);
        assert(picks[j - 1] < picks[j]);
    }
}

/// There is one greatest selection only.
pub proof fn lemma_greatest_unique(row: Seq<u8>, n: int, a: Seq<u8>, b: Seq<u8>)
    requires
        is_greatest(row, n, a),
        is_greatest(row, n, b),
    ensures
        a == b,
{
    let pa = choose|picks: Seq<int>| picked(row, picks, a);
    let pb = choose|picks: Seq<int>| picked(row, picks, b);
    assert(rising(pa, row.len() as int));
    assert(rising(pb, row.len() as int));
    assert(entries_at(row, pa) =~= a);
    assert(entries_at(row, pb) =~= b);
    assert(lex_le(a, b));
    assert(lex_le(b, a));
    if a != b {
        let j = choose|j: int| lower_at(a, b, j);
        let k = choose|k: int| lower_at(b, a, k);
        if j < k {
            assert(b[j] == a[j]);
        } else if k < j {
            assert(a[k] == b[k]);
        }
    }
}

/// Among entries of at most nine, a selection that comes first spells the
/// lower number.
pub proof fn lemma_lex_spelled(a: Seq<u8>, b: Seq<u8>, k: int)
    requires
        lex_le(a, b),
        0 <= k <= a.len(),
        forall|i: int| 0 <= i < a.len() ==> a[i] <= 9,
    ensures
        spelled(a, k) <= spelled(b, k),
        (exists|j: int| lower_at(a, b, j) && j < k) ==> spelled(a, k) < spelled(b, k),
    decreases k,
{
    if k > 0 {
        lemma_lex_spelled(a, b, k - 1);
        if a == b {
            assert forall|j: int| !lower_at(a, b, j) by {}
        } else {
            let j = choose|j: int| lower_at(a, b, j);
            assert forall|j2: int| lower_at(a, b, j2) implies j2 == j by {
                if j2 < j {
                    assert(a[j2] == b[j2]);
                } else if j < j2 {
                    assert(a[j] == b[j]);
                }
            }
            if j < k - 1 {
                assert(lower_at(a, b, j) && j < k - 1);
            } else if j == k - 1 {
                lemma_spelled_same(a, b, k - 1);
            } else {
                lemma_spelled_same(a, b, k);
            }
        }
    }
}

/// Where every entry of the row is at most nine, no `n` entries picked in
/// order spell a larger number than the greatest selection does.
pub proof fn lemma_greatest_largest(row: Seq<u8>, n: int, picks: Seq<int>)
    requires
        0 <= n <= row.len(),
        forall|i: int| 0 <= i < row.len() ==> row[i] <= 9,
        exists|chosen: Seq<u8>| is_greatest(row, n, chosen),
        rising(picks, row.len() as int),
        picks.len() == n,
    ensures
        spelled(entries_at(row, picks), n) <= pick_value(row, n),
{
    let g = greatest(row, n);
    assert(is_greatest(row, n, g));
    assert(lex_le(entries_at(row, picks), g));
    lemma_lex_spelled(entries_at(row, picks), g, n);
}

/// A selection of `n` entries either is lower than `g` somewhere among the
/// first `k`, or agrees with `g` there and picks its next entry at `start`
/// or later.
pub open spec fn behind(row: Seq<u8>, picks: Seq<int>, g: Seq<u8>, k: int, start: int) -> bool {
    ||| exists|j: int| 0 <= j < k && row[picks[j]] < g[j] && forall|i: int| 0 <= i < j ==> row[picks[i]] == g[i]
    ||| ((forall|i: int| 0 <= i < k ==> row[picks[i]] == g[i]) && (k < picks.len() ==> picks[k] >= start))
}

/// The sums of `picks_sum` grow with the number of rows.
pub proof fn lemma_picks_sum_mono(grid: Seq<Vec<u8>>, n: int, a: int, b: int)
    requires
        a <= b,
    ensures
        picks_sum(grid, n, a) <= picks_sum(grid, n, b),
    decreases b - a,
{
    if a < b {
        lemma_picks_sum_mono(grid, n, a, b - 1);
    }
}


/// The place from which entry `k` is picked: the one after the place of
/// the entry before it.
pub open spec fn window_start(p: Seq<int>, k: int) -> int {
    if k <= 0 {
        0
    } else {
        p[k - 1] + 1
    }
}

/// Among the first `upto` entries of `g`, each is the largest of its
/// window, the places from its start that leave room for the `n` entries,
/// and stands at the first place of the window that holds it.
pub open spec fn windowed(row: Seq<u8>, n: int, p: Seq<int>, g: Seq<u8>, upto: int) -> bool {
    &&& forall|k: int, j: int| 0 <= k < upto ==> #[trigger] largest_in_window(row, n, p, g, k, j)
    &&& forall|k: int, j: int| 0 <= k < upto ==> #[trigger] first_in_window(row, p, g, k, j)
}

/// Entry `j` of the row, where it lies in the window of entry `k` of `g`,
/// is no larger than that entry.
pub open spec fn largest_in_window(row: Seq<u8>, n: int, p: Seq<int>, g: Seq<u8>, k: int, j: int) -> bool {
    window_start(p, k) <= j <= row.len() - n + k ==> row[j] <= g[k]
}

/// Entry `j` of the row, where it lies in the window of entry `k` of `g`
/// before the place of that entry, is lower than it.
pub open spec fn first_in_window(row: Seq<u8>, p: Seq<int>, g: Seq<u8>, k: int, j: int) -> bool {
    window_start(p, k) <= j < p[k] ==> row[j] < g[k]
}

/// A selection picked window by window leaves every selection behind.
pub proof fn lemma_window_behind(row: Seq<u8>, n: int, p: Seq<int>, g: Seq<u8>, picks: Seq<int>, k: int)
    requires
        picked(row, p, g),
        p.len() == n,
        windowed(row, n, p, g, n),
        rising(picks, row.len() as int),
        picks.len() == n,
        0 <= k <= n,
    ensures
        behind(row, picks, g, k, window_start(p, k)),
    decreases k,
{
    if k > 0 {
        let c = k - 1;
        lemma_window_behind(row, n, p, g, picks, c);
        if exists|j: int| 0 <= j < c && row[picks[j]] < g[j] && forall|i: int| 0 <= i < j ==> row[picks[i]] == g[i] {
            let j = choose|j: int|
                0 <= j < c && row[picks[j]] < g[j] && forall|i: int| 0 <= i < j ==> row[picks[i]] == g[i];
            assert(0 <= j < k && row[picks[j]] < g[j] && forall|i: int| 0 <= i < j ==> row[picks[i]] == g[i]);
        } else {
            lemma_rising_apart(picks, row.len() as int, c, n - 1);
            assert(picks[n - 1] < row.len());
            assert(window_start(p, c) <= picks[c] <= row.len() - n + c);
            assert(largest_in_window(row, n, p, g, c, picks[c]));
            assert(first_in_window(row, p, g, c, picks[c]));
            assert(row[picks[c]] <= g[c]);
            if row[picks[c]] < g[c] {
                assert(0 <= c < k && row[picks[c]] < g[c] && forall|i: int| 0 <= i < c ==> row[picks[i]] == g[i]);
            } else {
                if picks[c] < p[c] {
                    assert(row[picks[c]] < g[c]);
                }
                assert forall|i: int| 0 <= i < k implies row[picks[i]] == g[i] by {}
                if k < n {
                    assert(picks[c] < picks[k]);
                }
            }
        }
    }
}

/// A selection of `n` entries picked window by window is the greatest.
pub proof fn lemma_window_greatest(row: Seq<u8>, n: int, p: Seq<int>, g: Seq<u8>)
    requires
        picked(row, p, g),
        p.len() == n,
        windowed(row, n, p, g, n),
    ensures
        is_greatest(row, n, g),
        greatest(row, n) == g,
        pick_value(row, n) == spelled(g, n),
{
    assert(is_selection(row, g));
    assert forall|picks: Seq<int>| #[trigger] rising(picks, row.len() as int) && picks.len() == n implies lex_le(
        entries_at(row, picks),
        g,
    ) by {
        let e = entries_at(row, picks);
        lemma_window_behind(row, n, p, g, picks, n);
        if exists|j: int| 0 <= j < n && row[picks[j]] < g[j] && forall|i: int| 0 <= i < j ==> row[picks[i]] == g[i] {
            let j = choose|j: int|
                0 <= j < n && row[picks[j]] < g[j] && forall|i: int| 0 <= i < j ==> row[picks[i]] == g[i];
            assert(lower_at(e, g, j));
        } else {
            assert(e =~= g);
        }
    }
    assert(is_greatest(row, n, g));
    lemma_greatest_unique(row, n, g, greatest(row, n));
    lemma_rising_count(p, row.len() as int);
}

/// Places that rise within a row are no more than the row has entries.
pub proof fn lemma_rising_count(picks: Seq<int>, len: int)
    requires
        rising(picks, len),
        len >= 0,
    ensures
        picks.len() <= len,
{
    if picks.len() > 0 {
        lemma_rising_apart(picks, len, 0, picks.len() - 1);
        assert(picks[0] >= 0);
        assert(picks[picks.len() - 1] < len);
    }
}

/// The whole row is its only selection of as many entries as it has, and
/// so the greatest.
pub proof fn lemma_whole_row(row: Seq<u8>)
    ensures
        is_greatest(row, row.len() as int, row),
        greatest(row, row.len() as int) == row,
        pick_value(row, row.len() as int) == spelled(row, row.len() as int),
{
    let n = row.len() as int;
    let all = Seq::new(row.len(), |i: int| i);
    assert(picked(row, all, row));
    assert forall|picks: Seq<int>| #[trigger] rising(picks, n) && picks.len() == n implies lex_le(
        entries_at(row, picks),
        row,
    ) by {
        assert forall|i: int| 0 <= i < n implies picks[i] == i by {
            lemma_rising_apart(picks, n, 0, i);
            lemma_rising_apart(picks, n, i, n - 1);
            assert(picks[0] >= 0);
            assert(picks[n - 1] < n);
        }
        assert(entries_at(row, picks) =~= row);
    }
    assert(is_greatest(row, n, row));
    lemma_greatest_unique(row, n, row, greatest(row, n));
}

} // verus!
