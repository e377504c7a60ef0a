//! Beams that fall through rows of splitters: a beam that meets a
//! splitter `^` goes on to its left and to its right. How often beams are
//! split, and in how many ways a single beam can come down.
use vstd::prelude::*;
use crate::crowding::{columns, lines_view, wide_enough};

verus! {

/// The byte `S`, where the beam starts.
pub const START: u8 = 83;

/// The byte `^`, a splitter.
pub const SPLITTER: u8 = 94;

/// The first place in the first `k` bytes of `row` that holds `S`; `k`
/// where there is none.
pub open spec fn start_place(row: Seq<u8>, k: int) -> int
    decreases k,
{
    if k <= 0 {
        0
    } else if start_place(row, k - 1) < k - 1 {
        start_place(row, k - 1)
    } else if row[k - 1] == START {
        k - 1
    } else {
        k
    }
}

/// How many ways lead to each column after the first row: one to the
/// column of the first `S`.
pub open spec fn first_ways(row: Seq<u8>) -> Seq<nat> {
    Seq::new(row.len(), |c: int| if c == start_place(row, row.len() as int) { 1nat } else { 0nat })
}

/// How many ways lead to column `j` of the next row, counting what comes
/// from the columns below `c` only.
pub open spec fn ways_into(row: Seq<u8>, ways: Seq<nat>, j: int, c: int) -> nat {
    (if j < c && row[j] != SPLITTER { ways[j] } else { 0nat }) + (if j + 1 < c && j + 1 < ways.len() && row[j + 1]
        == SPLITTER {
        ways[j + 1]
    } else {
        0nat
    }) + (if 1 <= j && j - 1 < c && row[j - 1] == SPLITTER {
        ways[j - 1]
    } else {
        0nat
    })
}

/// How many ways lead to each column below a row.
pub open spec fn next_ways(row: Seq<u8>, ways: Seq<nat>) -> Seq<nat> {
    Seq::new(ways.len(), |j: int| ways_into(row, ways, j, ways.len() as int))
}

/// How many ways lead to each column after the first `k + 1` rows.
pub open spec fn ways_after(rows: Seq<Seq<u8>>, k: int) -> Seq<nat>
    decreases k,
{
    if k <= 0 {
        first_ways(rows[0])
    } else {
        next_ways(rows[k], ways_after(rows, k - 1))
    }
}

/// How many of the first `c` columns hold a splitter that a beam meets.
pub open spec fn splits_in_row(row: Seq<u8>, ways: Seq<nat>, c: int) -> nat
    decreases c,
{
    if c <= 0 {
        0
    } else {
        splits_in_row(row, ways, c - 1) + (if ways[c - 1] > 0 && row[c - 1] == SPLITTER { 1nat } else { 0nat })
    }
}

/// How often beams are split in the rows `1..=k`.
pub open spec fn splits_upto(rows: Seq<Seq<u8>>, k: int) -> nat
    decreases k,
{
    if k <= 0 {
        0
    } else {
        splits_upto(rows, k - 1) + splits_in_row(rows[k], ways_after(rows, k - 1), rows[0].len() as int)
    }
}

/// Sum of the first `c` entries.
pub open spec fn ways_sum(ways: Seq<nat>, c: int) -> nat
    decreases c,
{
    if c <= 0 {
        0
    } else {
        ways_sum(ways, c - 1) + ways[c - 1]
    }
}

/// Where no beam is left, none is split and none comes about.
pub proof fn lemma_dark(rows: Seq<Seq<u8>>, a: int, b: int)
    requires
        0 <= a <= b,
        rows.len() >= 1,
        forall|c: int| 0 <= c < ways_after(rows, a).len() ==> ways_after(rows, a)[c] == 0,
    ensures
        ways_after(rows, b).len() == ways_after(rows, a).len(),
        forall|c: int| 0 <= c < ways_after(rows, b).len() ==> ways_after(rows, b)[c] == 0,
        splits_upto(rows, b) == splits_upto(rows, a),
    decreases b - a,
{
    if a < b {
        lemma_dark(rows, a, b - 1);
        lemma_ways_len(rows, b - 1);
        lemma_no_splits(rows[b], ways_after(rows, b - 1), rows[0].len() as int);
    }
}

/// Without beams there are no splits.
pub proof fn lemma_no_splits(row: Seq<u8>, ways: Seq<nat>, c: int)
    requires
        forall|j: int| 0 <= j < ways.len() ==> ways[j] == 0,
        c <= ways.len(),
    ensures
        splits_in_row(row, ways, c) == 0,
    decreases c,
{
    if c > 0 {
        lemma_no_splits(row, ways, c - 1);
    }
}

/// The number of ways has one entry per column of the first row.
pub proof fn lemma_ways_len(rows: Seq<Seq<u8>>, k: int)
    requires
        rows.len() >= 1,
    ensures
        ways_after(rows, k).len() == rows[0].len(),
    decreases k,
{
    if k > 0 {
        lemma_ways_len(rows, k - 1);
    }
}

/// Finds the column of the first `S` in the first row.
pub fn find_start(row: &[u8]) -> (place: usize)
    ensures
        place == start_place(row@, row.len() as int),
        place <= row.len(),
{
    let mut c: usize = 0;
    while c < row.len()
        invariant
            c <= row.len(),
            start_place(row@, c as int) == c,
        decreases row.len() - c,
    {
        if row[c] == START {
            proof {
                lemma_start_found(row@, c as int, row.len() as int);
            }
            return c;
        }
        c = c + 1;
    }
    c
}

/// Once the first `S` is found, later bytes do not matter.
pub proof fn lemma_start_found(row: Seq<u8>, c: int, k: int)
    requires
        0 <= c < k <= row.len(),
        start_place(row, c) == c,
        row[c] == START,
    ensures
        start_place(row, k) == c,
    decreases k,
{
    if k > c + 1 {
        lemma_start_found(row, c, k - 1);
    }
}

/// Carries the ways one row down; tells also how many splitters were met
/// and whether any way is left.
pub fn step_down(row: &[u8], ways: &Vec<u64>, width: usize, Ghost(model): Ghost<Seq<nat>>) -> (res: (
    Vec<u64>,
    u64,
    bool,
))
    requires
        ways.len() == width,
        row.len() >= width,
        model.len() == width,
        forall|c: int| 0 <= c < width ==> ways[c] == model[c],
        forall|j: int| 0 <= j < width ==> ways_into(row@, model, j, width as int) <= u64::MAX,
    ensures
        res.0.len() == width,
        forall|j: int| 0 <= j < width ==> res.0[j] == next_ways(row@, model)[j],
        res.1 == splits_in_row(row@, model, width as int),
        res.2 == exists|j: int| 0 <= j < width && #[trigger] next_ways(row@, model)[j] > 0,
{
    let mut next: Vec<u64> = Vec::new();
    let mut z: usize = 0;
    while z < width
        invariant
            z <= width,
            next.len() == z,
            forall|j: int| 0 <= j < z ==> next[j] == 0,
        decreases width - z,
    {
        next.push(0);
        z = z + 1;
    }
    let mut splits: u64 = 0;
    let mut c: usize = 0;
    while c < width
        invariant
            c <= width,
            ways.len() == width,
            row.len() >= width,
            model.len() == width,
            next.len() == width,
            forall|q: int| 0 <= q < width ==> ways[q] == model[q],
            forall|j: int| 0 <= j < width ==> ways_into(row@, model, j, width as int) <= u64::MAX,
            forall|j: int| 0 <= j < width ==> next[j] == ways_into(row@, model, j, c as int),
            splits == splits_in_row(row@, model, c as int),
            splits <= c,
        decreases width - c,
    {
        let w: u64 = ways[c];
        let ghost before = next@;
        if w != 0 {
            if row[c] == SPLITTER {
                splits = splits + 1;
                if c > 0 {
                    proof {
                        assert(ways_into(row@, model, c - 1, width as int) <= u64::MAX);
                    }
                    let old: u64 = next[c - 1];
                    next.set(c - 1, old + w);
                }
                if c + 1 < width {
                    proof {
                        assert(ways_into(row@, model, c + 1, width as int) <= u64::MAX);
                    }
                    let old: u64 = next[c + 1];
                    next.set(c + 1, old + w);
                }
            } else {
                proof {
                    assert(ways_into(row@, model, c as int, width as int) <= u64::MAX);
                }
                let old: u64 = next[c];
                next.set(c, old + w);
            }
        }
        proof {
            assert forall|j: int| 0 <= j < width implies next[j] == ways_into(row@, model, j, c as int + 1) by {
                assert(before[j] == ways_into(row@, model, j, c as int));
            }
        }
        c = c + 1;
    }
    let mut any: bool = false;
    let mut j: usize = 0;
    while j < width
        invariant
            j <= width,
            next.len() == width,
            any == exists|q: int| 0 <= q < j && #[trigger] next[q] > 0,
        decreases width - j,
    {
        if next[j] > 0 {
            any = true;
        }
        j = j + 1;
    }
    proof {
        if any {
            let q = choose|q: int| 0 <= q < width && #[trigger] next[q] > 0;
            assert(next_ways(row@, model)[q] > 0);
        }
        if exists|q: int| 0 <= q < width && #[trigger] next_ways(row@, model)[q] > 0 {
            let q = choose|q: int| 0 <= q < width && #[trigger] next_ways(row@, model)[q] > 0;
            assert(next[q] > 0);
        }
    }
    (next, splits, any)
}

/// Every count of ways, at every row, fits 64 bits.
pub open spec fn ways_fit(rows: Seq<Seq<u8>>) -> bool {
    forall|k: int, c: int|
        0 <= k < rows.len() && 0 <= c < rows[0].len() ==> #[trigger] ways_after(rows, k)[c] <= u64::MAX
}

/// Carries the beams one row down; tells also how many splitters were
/// met and whether any beam is left.
pub fn step_beams(row: &[u8], beams: &Vec<bool>, width: usize, Ghost(model): Ghost<Seq<nat>>) -> (res: (
    Vec<bool>,
    u64,
    bool,
))
    requires
        beams.len() == width,
        row.len() >= width,
        model.len() == width,
        forall|c: int| 0 <= c < width ==> beams[c] == (model[c] > 0),
    ensures
        res.0.len() == width,
        forall|j: int| 0 <= j < width ==> res.0[j] == (next_ways(row@, model)[j] > 0),
        res.1 == splits_in_row(row@, model, width as int),
        res.2 == exists|j: int| 0 <= j < width && #[trigger] next_ways(row@, model)[j] > 0,
{
    let mut next: Vec<bool> = Vec::new();
    let mut z: usize = 0;
    while z < width
        invariant
            z <= width,
            next.len() == z,
            forall|j: int| 0 <= j < z ==> !next[j],
        decreases width - z,
    {
        next.push(false);
        z = z + 1;
    }
    let mut splits: u64 = 0;
    let mut c: usize = 0;
    while c < width
        invariant
            c <= width,
            beams.len() == width,
            row.len() >= width,
            model.len() == width,
            next.len() == width,
            forall|q: int| 0 <= q < width ==> beams[q] == (model[q] > 0),
            forall|j: int| 0 <= j < width ==> next[j] == (ways_into(row@, model, j, c as int) > 0),
            splits == splits_in_row(row@, model, c as int),
            splits <= c,
        decreases width - c,
    {
        let ghost before = next@;
        if beams[c] {
            if row[c] == SPLITTER {
                splits = splits + 1;
                if c > 0 {
                    next.set(c - 1, true);
                }
                if c + 1 < width {
                    next.set(c + 1, true);
                }
            } else {
                next.set(c, true);
            }
        }
        proof {
            assert forall|j: int| 0 <= j < width implies next[j] == (ways_into(row@, model, j, c as int + 1) > 0) by {
                assert(before[j] == (ways_into(row@, model, j, c as int) > 0));
            }
        }
        c = c + 1;
    }
    let mut any: bool = false;
    let mut j: usize = 0;
    while j < width
        invariant
            j <= width,
            next.len() == width,
            any == exists|q: int| 0 <= q < j && #[trigger] next[q],
        decreases width - j,
    {
        if next[j] {
            any = true;
        }
        j = j + 1;
    }
    proof {
        if any {
            let q = choose|q: int| 0 <= q < width && #[trigger] next[q];
            assert(next_ways(row@, model)[q] > 0);
        }
        if exists|q: int| 0 <= q < width && #[trigger] next_ways(row@, model)[q] > 0 {
            let q = choose|q: int| 0 <= q < width && #[trigger] next_ways(row@, model)[q] > 0;
            assert(next[q]);
        }
    }
    (next, splits, any)
}

/// Counts how often beams are split on the way down from the `S` of the
/// first row. The grid is as wide as its first row.
pub fn part1(input: &[String]) -> (total: u64)
    requires
        wide_enough(lines_view(input@), columns(input@)),
        splits_upto(lines_view(input@), input.len() - 1) <= u64::MAX,
    ensures
        total == splits_upto(lines_view(input@), input.len() - 1),
{
    let ghost rows = lines_view(input@);
    if input.len() == 0 {
        return 0;
    }
    let first = input[0].as_str().as_bytes();
    let width: usize = first.len();
    let start: usize = find_start(first);
    let mut beams: Vec<bool> = Vec::new();
    let mut c: usize = 0;
    while c < width
        invariant
            c <= width,
            beams.len() == c,
            forall|j: int| 0 <= j < c ==> beams[j] == (j == start),
        decreases width - c,
    {
        beams.push(c == start);
        c = c + 1;
    }
    let mut total: u64 = 0;
    let mut k: usize = 1;
    proof {
        assert(rows[0] == first@);
    }
    while k < input.len()
        invariant
            1 <= k <= input.len(),
            rows == lines_view(input@),
            rows.len() == input.len(),
            width == columns(input@),
            width == rows[0].len(),
            wide_enough(rows, width as int),
            beams.len() == width,
            forall|j: int| 0 <= j < width ==> beams[j] == (ways_after(rows, k - 1)[j] > 0),
            total == splits_upto(rows, k - 1),
            splits_upto(rows, input.len() - 1) <= u64::MAX,
        decreases input.len() - k,
    {
        let row = input[k].as_str().as_bytes();
        let ghost model = ways_after(rows, k - 1);
        proof {
            lemma_ways_len(rows, k - 1);
            assert(rows[k as int] == row@);
            assert(rows[k as int].len() >= width);
            lemma_splits_mono(rows, k as int, input.len() - 1);
        }
        let (next, splits, any) = step_beams(row, &beams, width, Ghost(model));
        total = total + splits;
        beams = next;
        if !any {
            proof {
                assert forall|j: int| 0 <= j < ways_after(rows, k as int).len() implies ways_after(rows, k as int)[j]
                    == 0 by {
                    if ways_after(rows, k as int)[j] > 0 {
                        assert(next_ways(row@, model)[j] > 0);
                    }
                }
                lemma_dark(rows, k as int, input.len() - 1);
            }
            return total;
        }
        k = k + 1;
    }
    total
}

/// Counts the ways in which a single beam, taking one side at each
/// splitter, comes out below the last row.
pub fn part2(input: &[String]) -> (total: u64)
    requires
        wide_enough(lines_view(input@), columns(input@)),
        ways_fit(lines_view(input@)),
        input.len() >= 1 ==> ways_sum(
            ways_after(lines_view(input@), input.len() - 1),
            columns(input@),
        ) <= u64::MAX,
    ensures
        input.len() == 0 ==> total == 0,
        input.len() >= 1 ==> total == ways_sum(ways_after(lines_view(input@), input.len() - 1), columns(input@)),
{
    if input.len() == 0 {
        return 0;
    }
    let ways = fall(input);
    let ghost model = ways_after(lines_view(input@), input.len() - 1);
    let mut total: u64 = 0;
    let mut c: usize = 0;
    proof {
        lemma_ways_len(lines_view(input@), input.len() - 1);
    }
    while c < ways.len()
        invariant
            c <= ways.len(),
            ways.len() == model.len(),
            ways.len() == columns(input@),
            forall|j: int| 0 <= j < ways.len() ==> ways[j] == model[j],
            total == ways_sum(model, c as int),
            ways_sum(model, ways.len() as int) <= u64::MAX,
        decreases ways.len() - c,
    {
        proof {
            lemma_ways_sum_mono(model, c as int + 1, ways.len() as int);
        }
        total = total + ways[c];
        c = c + 1;
    }
    total
}

/// Partial sums only grow.
pub proof fn lemma_ways_sum_mono(ways: Seq<nat>, a: int, b: int)
    requires
        a <= b,
    ensures
        ways_sum(ways, a) <= ways_sum(ways, b),
    decreases b - a,
{
    if a < b {
        lemma_ways_sum_mono(ways, a, b - 1);
    }
}

/// Lets the beam fall through all the rows: returns how many ways lead
/// to each column below the last row.
pub fn fall(input: &[String]) -> (ways: Vec<u64>)
    requires
        input.len() >= 1,
        wide_enough(lines_view(input@), columns(input@)),
        ways_fit(lines_view(input@)),
    ensures
        ways.len() == columns(input@),
        forall|c: int| 0 <= c < ways.len() ==> ways[c] == ways_after(lines_view(input@), input.len() - 1)[c],
{
    let ghost rows = lines_view(input@);
    let first = input[0].as_str().as_bytes();
    let width: usize = first.len();
    let start: usize = find_start(first);
    let mut ways: Vec<u64> = Vec::new();
    let mut c: usize = 0;
    while c < width
        invariant
            c <= width,
            ways.len() == c,
            forall|j: int| 0 <= j < c ==> ways[j] == (if j == start { 1u64 } else { 0u64 }),
        decreases width - c,
    {
        ways.push(if c == start { 1 } else { 0 });
        c = c + 1;
    }
    let mut k: usize = 1;
    proof {
        assert(rows[0] == first@);
    }
    while k < input.len()
        invariant
            1 <= k <= input.len(),
            rows == lines_view(input@),
            rows.len() == input.len(),
            width == columns(input@),
            width == rows[0].len(),
            wide_enough(rows, width as int),
            ways_fit(rows),
            ways.len() == width,
            forall|j: int| 0 <= j < width ==> ways[j] == ways_after(rows, k - 1)[j],
        decreases input.len() - k,
    {
        let row = input[k].as_str().as_bytes();
        let ghost model = ways_after(rows, k - 1);
        proof {
            lemma_ways_len(rows, k - 1);
            assert(rows[k as int] == row@);
            assert(rows[k as int].len() >= width);
            assert forall|j: int| 0 <= j < width implies ways_into(row@, model, j, width as int) <= u64::MAX by {
                assert(ways_after(rows, k as int)[j] <= u64::MAX);
            }
        }
        let (next, _splits, any) = step_down(row, &ways, width, Ghost(model));
        ways = next;
        if !any {
            proof {
                assert forall|j: int| 0 <= j < ways_after(rows, k as int).len() implies ways_after(rows, k as int)[j]
                    == 0 by {
                    if ways_after(rows, k as int)[j] > 0 {
                        assert(next_ways(row@, model)[j] > 0);
                    }
                }
                lemma_dark(rows, k as int, input.len() - 1);
                lemma_ways_len(rows, k as int);
            }
            return ways;
        }
        k = k + 1;
    }
    ways
}

/// The count of splits only grows from row to row.
pub proof fn lemma_splits_mono(rows: Seq<Seq<u8>>, a: int, b: int)
    requires
        a <= b,
    ensures
        splits_upto(rows, a) <= splits_upto(rows, b),
    decreases b - a,
{
    if a < b {
        lemma_splits_mono(rows, a, b - 1);
    }
}

} // verus!
