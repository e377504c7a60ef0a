//! The pieces that the puzzle's line notation is made of: a row of `.` and
//! `#`, and lists of numbers separated by commas.
use vstd::prelude::*;
use crate::bits::{bit, fits, lemma_bit_ops, lemma_bit_single, lemma_fits_lt, with_bit};
use crate::text::{find_byte, next_at, reads_unsigned, trim_hi, trim_lo, trim_range};

verus! {

/// The byte `#`.
pub const ON: u8 = 35;

/// The byte `.`.
pub const OFF: u8 = 46;

/// The byte `,`.
pub const COMMA: u8 = 44;

/// Every byte of `s[from..to]` is `.` or `#`.
pub open spec fn is_pattern(s: Seq<u8>, from: int, to: int) -> bool {
    forall|i: int| from <= i < to ==> (#[trigger] s[i]) == ON || s[i] == OFF
}

/// The first place in `s[from..to]` that holds neither `.` nor `#`; `to`
/// where there is none.
pub open spec fn first_other(s: Seq<u8>, from: int, to: int) -> int
    decreases to - from,
{
    if from >= to {
        to
    } else if s[from] != ON && s[from] != OFF {
        from
    } else {
        first_other(s, from + 1, to)
    }
}

/// A place that holds another byte, before which the bytes are `.` and
/// `#`, is the first such place.
pub proof fn lemma_first_other(s: Seq<u8>, from: int, to: int, at: int)
    requires
        from <= at < to,
        is_pattern(s, from, at),
        s[at] != ON,
        s[at] != OFF,
    ensures
        first_other(s, from, to) == at,
    decreases at - from,
{
    if from < at {
        assert(s[from] == ON || s[from] == OFF);
        assert(is_pattern(s, from + 1, at));
        lemma_first_other(s, from + 1, to, at);
    }
}

/// The bit pattern that the first `k` bytes from `from` on spell: bit `i`
/// for a `#` at place `from + i`.
pub open spec fn pattern_fold(s: Seq<u8>, from: int, k: int) -> u64
    decreases k,
{
    if k <= 0 {
        0u64
    } else {
        pattern_fold(s, from, k - 1) | (if s[from + k - 1] == ON {
            1u64 << ((k - 1) as u64)
        } else {
            0u64
        })
    }
}

/// The bit pattern with the bits that the first `k` numbers name.
pub open spec fn mask_fold(list: Seq<nat>, k: int) -> u64
    decreases k,
{
    if k <= 0 {
        0u64
    } else {
        mask_fold(list, k - 1) | (1u64 << (list[k - 1] as u64))
    }
}

/// Folds over lists that agree on the first `k` numbers are equal.
pub proof fn lemma_mask_fold_same(a: Seq<nat>, b: Seq<nat>, k: int)
    requires
        0 <= k <= a.len(),
        k <= b.len(),
        forall|i: int| 0 <= i < k ==> a[i] == b[i],
    ensures
        mask_fold(a, k) == mask_fold(b, k),
    decreases k,
{
    if k > 0 {
        lemma_mask_fold_same(a, b, k - 1);
    }
}

/// The folded pattern has exactly the bits that the numbers name.
pub proof fn lemma_mask_fold_bits(list: Seq<nat>, k: int)
    requires
        0 <= k <= list.len(),
        forall|i: int| 0 <= i < k ==> list[i] < 64,
    ensures
        forall|r: int|
            #[trigger] bit(mask_fold(list, k), r) <==> exists|i: int| 0 <= i < k && #[trigger] list[i] == r,
    decreases k,
{
    lemma_bit_single(0);
    if k > 0 {
        lemma_mask_fold_bits(list, k - 1);
        let before = mask_fold(list, k - 1);
        let one = 1u64 << (list[k - 1] as u64);
        lemma_bit_single(list[k - 1] as int);
        lemma_bit_ops(before, one);
        assert forall|r: int| #[trigger] bit(mask_fold(list, k), r) <==> exists|i: int|
            0 <= i < k && #[trigger] list[i] == r by {
            if bit(before, r) {
                let i = choose|i: int| 0 <= i < k - 1 && #[trigger] list[i] == r;
                assert(list[i] == r);
            }
            if r == list[k - 1] {
                assert(list[k - 1] == r);
            }
        }
    }
}

/// The piece of a comma-separated list that starts at `x`: its bounds,
/// trimmed where asked for.
pub open spec fn piece_span(s: Seq<u8>, x: int, end: int, trim: bool) -> (int, int) {
    let c = next_at(s, x, end, COMMA);
    if trim {
        let a = trim_lo(s, x, c);
        (a, trim_hi(s, a, c))
    } else {
        (x, c)
    }
}

/// What `s[x..end]` reads as: numbers of at most `limit`, separated by
/// commas; `None` where a piece is no such number.
pub open spec fn number_list(s: Seq<u8>, x: int, end: int, trim: bool, limit: nat) -> Option<Seq<nat>>
    decreases end - x,
{
    let c = next_at(s, x, end, COMMA);
    let span = piece_span(s, x, end, trim);
    match reads_unsigned(s, span.0, span.1, limit) {
        None => None,
        Some(v) => if c >= end || c < x {
            Some(seq![v])
        } else {
            match number_list(s, c + 1, end, trim, limit) {
                None => None,
                Some(rest) => Some(seq![v] + rest),
            }
        },
    }
}

/// The first piece of the list `s[x..end]` that is no number of at most
/// `limit`: its place, from where it starts to the comma or the end that
/// closes it. Where every piece is a number, the place `end` twice.
pub open spec fn bad_piece(s: Seq<u8>, x: int, end: int, trim: bool, limit: nat) -> (int, int)
    decreases end - x,
{
    let c = next_at(s, x, end, COMMA);
    let span = piece_span(s, x, end, trim);
    if reads_unsigned(s, span.0, span.1, limit) is None {
        (x, c)
    } else if c >= end || c < x {
        (end, end)
    } else {
        bad_piece(s, c + 1, end, trim, limit)
    }
}

/// A list with numbers put in front; nothing where there is no list.
pub open spec fn prepend(acc: Seq<nat>, list: Option<Seq<nat>>) -> Option<Seq<nat>> {
    match list {
        None => None,
        Some(rest) => Some(acc + rest),
    }
}

/// The numbers as 32-bit values.
pub open spec fn narrowed(list: Seq<nat>) -> Seq<u32> {
    Seq::new(list.len(), |i: int| list[i] as u32)
}

/// Reads a row of `.` and `#` as a bit pattern, first byte lowest; where
/// another byte occurs, returns the place of the first such byte.
pub fn read_pattern(s: &[u8], from: usize, to: usize) -> (r: Result<u32, usize>)
    requires
        from <= to <= s.len(),
        to - from <= 32,
    ensures
        match r {
            Ok(mask) => is_pattern(s@, from as int, to as int) && fits(mask as u64, to - from) && (forall|
                i: int,
            |
                0 <= i < to - from ==> (#[trigger] bit(mask as u64, i)) == (s[from + i] == ON)) && mask as u64
                == pattern_fold(s@, from as int, to - from),
            Err(at) => from <= at < to && s[at as int] != ON && s[at as int] != OFF && is_pattern(
                s@,
                from as int,
                at as int,
            ),
        },
{
    let mut acc: u64 = 0;
    let mut i: usize = from;
    proof {
        lemma_bit_single(0);
    }
    while i < to
        invariant
            from <= i <= to <= s.len(),
            to - from <= 32,
            is_pattern(s@, from as int, i as int),
            forall|j: int| 0 <= j < 64 ==> (#[trigger] bit(acc, j)) == (j < i - from && s[from + j] == ON),
            acc == pattern_fold(s@, from as int, i - from),
        decreases to - i,
    {
        let b: u8 = s[i];
        proof {
            crate::bits::lemma_xor_algebra(acc, 0, 0);
            assert(acc | 0u64 == acc) by (bit_vector);
        }
        if b == ON {
            acc = with_bit(acc, i - from);
        } else if b != OFF {
            return Err(i);
        }
        i = i + 1;
    }
    proof {
        assert(fits(acc, to - from));
        assert(fits(acc, 32));
        lemma_fits_lt(acc, 32);
    }
    Ok(acc as u32)
}

/// Bounds of the piece of a comma-separated list that starts at `a`:
/// the piece itself (trimmed where asked for) and the place of the comma or
/// end that closes it.
pub fn piece_bounds(s: &[u8], a: usize, to: usize, trim: bool) -> (r: (usize, usize, usize))
    requires
        a <= to <= s.len(),
    ensures
        a <= r.0 <= r.1 <= r.2 <= to,
        r.2 < to ==> s[r.2 as int] == COMMA,
        forall|j: int| a <= j < r.2 ==> s[j] != COMMA,
        r.2 == next_at(s@, a as int, to as int, COMMA),
        (r.0 as int, r.1 as int) == piece_span(s@, a as int, to as int, trim),
{
    let b: usize = match find_byte(s, a, to, COMMA) {
        Some(i) => i,
        None => to,
    };
    if trim {
        let (pa, pb) = trim_range(s, a, b);
        (pa, pb, b)
    } else {
        (a, b, b)
    }
}

/// The bytes `s[from..to]` as characters, a byte outside ASCII as `?`.
pub open spec fn shown(s: Seq<u8>, from: int, to: int) -> Seq<char> {
    Seq::new(
        (to - from) as nat,
        |i: int|
            if s[from + i] < 128 {
                s[from + i] as char
            } else {
                '?'
            },
    )
}

/// Copies `s[from..to]` into a text; bytes outside ASCII are shown as `?`.
pub fn piece_text(s: &[u8], from: usize, to: usize) -> (t: String)
    requires
        from <= to <= s.len(),
    ensures
        t@ == shown(s@, from as int, to as int),
{
    let mut bytes: Vec<u8> = Vec::new();
    let mut i: usize = from;
    while i < to
        invariant
            from <= i <= to <= s.len(),
            bytes.len() == i - from,
            forall|j: int| 0 <= j < bytes.len() ==> bytes[j] < 128,
            forall|j: int|
                0 <= j < bytes.len() ==> #[trigger] bytes[j] as char == shown(s@, from as int, to as int)[j],
        decreases to - i,
    {
        let b: u8 = s[i];
        if b < 128 {
            bytes.push(b);
        } else {
            bytes.push(63);
        }
        i = i + 1;
    }
    let t = ascii_text(bytes);
    proof {
        assert(t@ =~= shown(s@, from as int, to as int));
    }
    t
}

/// `String::from_utf8` on bytes that are all ASCII: the text has one
/// character per byte, the character with the byte's code.
#[verifier::external_body]
fn ascii_text(bytes: Vec<u8>) -> (t: String)
    requires
        forall|j: int| 0 <= j < bytes.len() ==> bytes[j] < 128,
    ensures
        t@.len() == bytes.len(),
        forall|j: int| 0 <= j < bytes.len() ==> t@[j] == bytes[j] as char,
{
    String::from_utf8(bytes).unwrap()
}

} // verus!
