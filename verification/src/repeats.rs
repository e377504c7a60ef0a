//! Numbers whose decimal digits repeat: twice the same half, or a block
//! of digits repeated at least twice. The sum of such numbers over ranges
//! given as text, each number being tested in turn.
use vstd::prelude::*;
use vstd::string::StringSliceAdditionalSpecFns;
use crate::text::{
    find_byte, lemma_next_at, lemma_trim, next_at, parse_unsigned, reads_unsigned, trim_hi, trim_lo,
    trim_range,
};

verus! {

/// The decimal digits of `n`, highest first.
pub open spec fn digits(n: nat) -> Seq<u8>
    decreases n,
{
    if n < 10 {
        seq![n as u8]
    } else {
        digits(n / 10).push((n % 10) as u8)
    }
}

/// The digits are two equal halves.
pub open spec fn is_doubled(n: nat) -> bool {
    let d = digits(n);
    d.len() % 2 == 0 && forall|i: int| 0 <= i < d.len() / 2 ==> #[trigger] d[i] == d[i + d.len() / 2]
}

/// The digits are a block of `p` digits repeated at least twice.
pub open spec fn repeats_every(d: Seq<u8>, p: int) -> bool {
    &&& 1 <= p
    &&& 2 * p <= d.len()
    &&& (d.len() as int) % p == 0
    &&& forall|i: int| p <= i < d.len() ==> #[trigger] d[i] == d[i - p]
}

/// The digits are some block repeated at least twice.
pub open spec fn is_repeated(n: nat) -> bool {
    exists|p: int| #[trigger] repeats_every(digits(n), p)
}

/// Sum of the doubled numbers from `lo` to `hi`.
pub open spec fn doubled_sum(lo: int, hi: int) -> nat
    decreases hi - lo + 1,
{
    if hi < lo || hi < 0 {
        0
    } else {
        doubled_sum(lo, hi - 1) + (if is_doubled(hi as nat) { hi as nat } else { 0nat })
    }
}

/// Sum of the repeated numbers from `lo` to `hi`.
pub open spec fn repeated_sum(lo: int, hi: int) -> nat
    decreases hi - lo + 1,
{
    if hi < lo || hi < 0 {
        0
    } else {
        repeated_sum(lo, hi - 1) + (if is_repeated(hi as nat) { hi as nat } else { 0nat })
    }
}

/// Appends the decimal digits of `n`, highest first.
pub fn push_digits(out: &mut Vec<u8>, n: u64)
    ensures
        final(out)@ == old(out)@ + digits(n as nat),
    decreases n,
{
    if n >= 10 {
        push_digits(out, n / 10);
        let ghost mid = out@;
        out.push((n % 10) as u8);
        proof {
            assert(out@ =~= old(out)@ + digits(n as nat));
        }
    } else {
        out.push(n as u8);
        proof {
            assert(out@ =~= old(out)@ + digits(n as nat));
        }
    }
}

/// The decimal digits of `n`, highest first.
pub fn decimal_digits(n: u64) -> (d: Vec<u8>)
    ensures
        d@ == digits(n as nat),
{
    let mut d: Vec<u8> = Vec::new();
    push_digits(&mut d, n);
    proof {
        assert(d@ =~= digits(n as nat));
    }
    d
}

/// Tells whether the digits of `n` are two equal halves.
pub fn is_invalid_id(n: u64) -> (b: bool)
    ensures
        b == is_doubled(n as nat),
{
    let s = decimal_digits(n);
    let len: usize = s.len();
    if len % 2 != 0 {
        return false;
    }
    let half: usize = len / 2;
    let mut i: usize = 0;
    while i < half
        invariant
            i <= half,
            half == len / 2,
            len == s.len(),
            len % 2 == 0,
            s@ == digits(n as nat),
            forall|j: int| 0 <= j < i ==> #[trigger] s[j] == s[j + half],
        decreases half - i,
    {
        if s[i] != s[i + half] {
            return false;
        }
        i = i + 1;
    }
    true
}

/// Sums the numbers from `start` to `end` whose digits are two equal
/// halves.
pub fn sum_invalid_ids_in_range(start: u64, end: u64) -> (sum: u64)
    requires
        doubled_sum(start as int, end as int) <= u64::MAX,
    ensures
        sum == doubled_sum(start as int, end as int),
{
    if start > end {
        return 0;
    }
    let mut sum: u64 = 0;
    let mut n: u64 = start;
    let mut done: bool = false;
    while !done
        invariant
            start <= n <= end,
            doubled_sum(start as int, end as int) <= u64::MAX,
            sum == doubled_sum(start as int, n - 1 + (if done { 1int } else { 0int })),
            done ==> n == end,
        decreases end - n + (if done { 0int } else { 1int }),
    {
        proof {
            lemma_doubled_mono(start as int, n as int, end as int);
        }
        if is_invalid_id(n) {
            sum = sum + n;
        }
        if n == end {
            done = true;
        } else {
            n = n + 1;
        }
    }
    sum
}

/// Partial sums of doubled numbers only grow.
pub proof fn lemma_doubled_mono(lo: int, a: int, b: int)
    requires
        a <= b,
    ensures
        doubled_sum(lo, a) <= doubled_sum(lo, b),
    decreases b - a,
{
    if a < b {
        lemma_doubled_mono(lo, a, b - 1);
    }
}

/// Partial sums of repeated numbers only grow.
pub proof fn lemma_repeated_mono(lo: int, a: int, b: int)
    requires
        a <= b,
    ensures
        repeated_sum(lo, a) <= repeated_sum(lo, b),
    decreases b - a,
{
    if a < b {
        lemma_repeated_mono(lo, a, b - 1);
    }
}

/// Tells whether the digits of `n` are some block repeated at least twice.
pub fn is_invalid_id_part2(n: u64) -> (b: bool)
    ensures
        b == is_repeated(n as nat),
{
    let s = decimal_digits(n);
    let len: usize = s.len();
    let mut pattern_len: usize = 1;
    while pattern_len <= len / 2
        invariant
            1 <= pattern_len,
            len == s.len(),
            s@ == digits(n as nat),
            forall|p: int| 1 <= p < pattern_len ==> !repeats_every(s@, p),
        decreases len - pattern_len,
    {
        if len % pattern_len == 0 {
            let mut matches: bool = true;
            let mut i: usize = pattern_len;
            while i < len && matches
                invariant
                    1 <= pattern_len <= i <= len,
                    pattern_len <= len / 2,
                    len % pattern_len == 0,
                    len == s.len(),
                    matches ==> forall|j: int| pattern_len <= j < i ==> #[trigger] s[j] == s[j - pattern_len],
                    !matches ==> !repeats_every(s@, pattern_len as int),
                decreases len - i + (if matches { 1int } else { 0int }),
            {
                if s[i] != s[i - pattern_len] {
                    matches = false;
                } else {
                    i = i + 1;
                }
            }
            if matches {
                proof {
                    assert(repeats_every(s@, pattern_len as int));
                }
                return true;
            }
        }
        pattern_len = pattern_len + 1;
    }
    proof {
        assert forall|p: int| !repeats_every(s@, p) by {
            if repeats_every(s@, p) {
                assert(p < pattern_len);
            }
        }
    }
    false
}

/// Sums the numbers from `start` to `end` whose digits are some block
/// repeated at least twice.
pub fn sum_invalid_ids_in_range_part2(start: u64, end: u64) -> (sum: u64)
    requires
        repeated_sum(start as int, end as int) <= u64::MAX,
    ensures
        sum == repeated_sum(start as int, end as int),
{
    if start > end {
        return 0;
    }
    let mut sum: u64 = 0;
    let mut n: u64 = start;
    let mut done: bool = false;
    while !done
        invariant
            start <= n <= end,
            repeated_sum(start as int, end as int) <= u64::MAX,
            sum == repeated_sum(start as int, n - 1 + (if done { 1int } else { 0int })),
            done ==> n == end,
        decreases end - n + (if done { 0int } else { 1int }),
    {
        proof {
            lemma_repeated_mono(start as int, n as int, end as int);
        }
        if is_invalid_id_part2(n) {
            sum = sum + n;
        }
        if n == end {
            done = true;
        } else {
            n = n + 1;
        }
    }
    sum
}

/// The byte `,`.
pub const COMMA: u8 = 44;

/// The byte `-`.
pub const DASH: u8 = 45;

/// The ends of the range that the trimmed piece `s[a..b]` names, where it
/// has a dash: the numbers before and after the first dash.
pub open spec fn piece_range(s: Seq<u8>, a: int, b: int) -> Option<(nat, nat)> {
    let dash = next_at(s, a, b, DASH);
    match (reads_unsigned(s, a, dash, u64::MAX as nat), reads_unsigned(s, dash + 1, b, u64::MAX as nat)) {
        (Some(lo), Some(hi)) => Some((lo, hi)),
        _ => None,
    }
}

/// The piece that starts at `i` has no dash, or names a range.
pub open spec fn piece_ok(s: Seq<u8>, i: int) -> bool {
    let end = next_at(s, i, s.len() as int, COMMA);
    let a = trim_lo(s, i, end);
    let b = trim_hi(s, a, end);
    next_at(s, a, b, DASH) >= b || piece_range(s, a, b) is Some
}

/// Every piece from place `i` on has no dash, or names a range.
pub open spec fn pieces_ok(s: Seq<u8>, i: int) -> bool
    decreases s.len() - i,
{
    if i > s.len() || i < 0 {
        true
    } else {
        let end = next_at(s, i, s.len() as int, COMMA);
        piece_ok(s, i) && (end >= s.len() || end < i || pieces_ok(s, end + 1))
    }
}

/// What the piece that starts at `i` adds: the sum over its range of the
/// numbers that `wide` admits (repeated blocks) or else of the doubled
/// numbers; zero for a piece without dash.
pub open spec fn piece_sum(s: Seq<u8>, i: int, wide: bool) -> nat {
    let end = next_at(s, i, s.len() as int, COMMA);
    let a = trim_lo(s, i, end);
    let b = trim_hi(s, a, end);
    if next_at(s, a, b, DASH) >= b {
        0
    } else {
        match piece_range(s, a, b) {
            Some((lo, hi)) => if wide {
                repeated_sum(lo as int, hi as int)
            } else {
                doubled_sum(lo as int, hi as int)
            },
            None => 0,
        }
    }
}

/// The sum over the pieces from place `i` on.
pub open spec fn pieces_sum(s: Seq<u8>, i: int, wide: bool) -> nat
    decreases s.len() - i,
{
    if i > s.len() || i < 0 {
        0
    } else {
        let end = next_at(s, i, s.len() as int, COMMA);
        piece_sum(s, i, wide) + (if end >= s.len() || end < i {
            0nat
        } else {
            pieces_sum(s, end + 1, wide)
        })
    }
}

/// Sums over the ranges of a text: the pieces between commas, each
/// trimmed, each of the form `start-end`; pieces without dash are passed
/// over.
pub fn sum_over_ranges(ranges: &str, wide: bool) -> (total: u64)
    requires
        pieces_ok(ranges.spec_bytes(), 0),
        pieces_sum(ranges.spec_bytes(), 0, wide) <= u64::MAX,
    ensures
        total == pieces_sum(ranges.spec_bytes(), 0, wide),
{
    let s = ranges.as_bytes();
    let len: usize = s.len();
    let mut total: u64 = 0;
    let mut pos: usize = 0;
    let mut done: bool = false;
    while !done
        invariant
            pos <= len,
            len == s.len(),
            s@ == ranges.spec_bytes(),
            !done ==> pieces_ok(s@, pos as int),
            pieces_sum(s@, 0, wide) <= u64::MAX,
            total + (if done { 0nat } else { pieces_sum(s@, pos as int, wide) }) == pieces_sum(s@, 0, wide),
        decreases len - pos + (if done { 0int } else { 1int }),
    {
        let end: usize = match find_byte(s, pos, len, COMMA) {
            Some(i) => i,
            None => len,
        };
        let (a, b) = trim_range(s, pos, end);
        proof {
            lemma_next_at(s@, pos as int, len as int, COMMA, end as int);
            lemma_trim(s@, pos as int, end as int, a as int, b as int);
        }
        if a < b {
            let found = find_byte(s, a, b, DASH);
            proof {
                let at = match found {
                    Some(i) => i as int,
                    None => b as int,
                };
                lemma_next_at(s@, a as int, b as int, DASH, at);
            }
            if let Some(dash) = found {
                let start: u64 = parse_unsigned(s, a, dash, u64::MAX).unwrap();
                let stop: u64 = parse_unsigned(s, dash + 1, b, u64::MAX).unwrap();
                let add: u64 = if wide {
                    sum_invalid_ids_in_range_part2(start, stop)
                } else {
                    sum_invalid_ids_in_range(start, stop)
                };
                total = total + add;
            }
        } else {
            proof {
                assert(trim_lo(s@, pos as int, end as int) == end);
                assert(trim_hi(s@, end as int, end as int) == end);
                assert(next_at(s@, end as int, end as int, DASH) == end);
            }
        }
        if end == len {
            done = true;
        } else {
            pos = end + 1;
        }
    }
    total
}

/// Sums, over the ranges of the text, the numbers whose digits are two
/// equal halves.
pub fn part1(ranges: &str) -> (total: u64)
    requires
        pieces_ok(ranges.spec_bytes(), 0),
        pieces_sum(ranges.spec_bytes(), 0, false) <= u64::MAX,
    ensures
        total == pieces_sum(ranges.spec_bytes(), 0, false),
{
    sum_over_ranges(ranges, false)
}

/// Sums, over the ranges of the text, the numbers whose digits are some
/// block repeated at least twice.
pub fn part2(ranges: &str) -> (total: u64)
    requires
        pieces_ok(ranges.spec_bytes(), 0),
        pieces_sum(ranges.spec_bytes(), 0, true) <= u64::MAX,
    ensures
        total == pieces_sum(ranges.spec_bytes(), 0, true),
{
    sum_over_ranges(ranges, true)
}

/// The sum over a range of the repeated numbers where `wide`, of the
/// doubled numbers else.
pub open spec fn range_sum(lo: int, hi: int, wide: bool) -> nat {
    if wide {
        repeated_sum(lo, hi)
    } else {
        doubled_sum(lo, hi)
    }
}

/// Sums the numbers from `start` to `end` that `wide` admits, as
/// `range_sum` does; `None` where the sum does not fit 64 bits.
pub fn checked_sum_in_range(start: u64, end: u64, wide: bool) -> (res: Option<u64>)
    ensures
        match res {
            Some(sum) => sum == range_sum(start as int, end as int, wide),
            None => range_sum(start as int, end as int, wide) > u64::MAX,
        },
{
    if start > end {
        return Some(0);
    }
    let mut sum: u64 = 0;
    let mut n: u64 = start;
    let mut done: bool = false;
    while !done
        invariant
            start <= n <= end,
            sum == range_sum(start as int, n - 1 + (if done { 1int } else { 0int }), wide),
            done ==> n == end,
        decreases end - n + (if done { 0int } else { 1int }),
    {
        let hit: bool = if wide {
            is_invalid_id_part2(n)
        } else {
            is_invalid_id(n)
        };
        if hit {
            if sum > u64::MAX - n {
                proof {
                    lemma_repeated_mono(start as int, n as int, end as int);
                    lemma_doubled_mono(start as int, n as int, end as int);
                }
                return None;
            }
            sum = sum + n;
        }
        if n == end {
            done = true;
        } else {
            n = n + 1;
        }
    }
    Some(sum)
}

/// Sums over the ranges of a text as `sum_over_ranges` does; `None` where
/// a piece with a dash names no range, or the sum does not fit 64 bits.
pub fn try_sum_over_ranges(ranges: &str, wide: bool) -> (res: Option<u64>)
    ensures
        match res {
            Some(total) => pieces_ok(ranges.spec_bytes(), 0) && total == pieces_sum(ranges.spec_bytes(), 0, wide),
            None => !pieces_ok(ranges.spec_bytes(), 0) || pieces_sum(ranges.spec_bytes(), 0, wide) > u64::MAX,
        },
{
    let s = ranges.as_bytes();
    let len: usize = s.len();
    let mut total: u64 = 0;
    let mut pos: usize = 0;
    let mut done: bool = false;
    while !done
        invariant
            pos <= len,
            len == s.len(),
            s@ == ranges.spec_bytes(),
            pieces_ok(s@, 0) == (done || pieces_ok(s@, pos as int)),
            pieces_sum(s@, 0, wide) == total + (if done { 0nat } else { pieces_sum(s@, pos as int, wide) }),
        decreases len - pos + (if done { 0int } else { 1int }),
    {
        let end: usize = match find_byte(s, pos, len, COMMA) {
            Some(i) => i,
            None => len,
        };
        let (a, b) = trim_range(s, pos, end);
        proof {
            lemma_next_at(s@, pos as int, len as int, COMMA, end as int);
            lemma_trim(s@, pos as int, end as int, a as int, b as int);
        }
        if a < b {
            let found = find_byte(s, a, b, DASH);
            proof {
                let at = match found {
                    Some(i) => i as int,
                    None => b as int,
                };
                lemma_next_at(s@, a as int, b as int, DASH, at);
            }
            if let Some(dash) = found {
                let start: u64 = match parse_unsigned(s, a, dash, u64::MAX) {
                    Some(v) => v,
                    None => {
                        proof {
                            assert(!piece_ok(s@, pos as int));
                        }
                        return None;
                    },
                };
                let stop: u64 = match parse_unsigned(s, dash + 1, b, u64::MAX) {
                    Some(v) => v,
                    None => {
                        proof {
                            assert(!piece_ok(s@, pos as int));
                        }
                        return None;
                    },
                };
                let add: u64 = match checked_sum_in_range(start, stop, wide) {
                    Some(v) => v,
                    None => {
                        proof {
                            assert(piece_sum(s@, pos as int, wide) > u64::MAX);
                        }
                        return None;
                    },
                };
                if total > u64::MAX - add {
                    return None;
                }
                total = total + add;
            }
        } else {
            proof {
                assert(trim_lo(s@, pos as int, end as int) == end);
                assert(trim_hi(s@, end as int, end as int) == end);
                assert(next_at(s@, end as int, end as int, DASH) == end);
            }
        }
        if end == len {
            done = true;
        } else {
            pos = end + 1;
        }
    }
    Some(total)
}

} // verus!
