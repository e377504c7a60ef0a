//! Reading puzzle text: bytes, white space, decimal numbers, and the
//! building of messages.
use vstd::prelude::*;
use vstd::string::StringExecFns;

verus! {

/// ASCII white space: space, tab, line feed, vertical tab, form feed and
/// carriage return.
pub open spec fn is_space(b: u8) -> bool {
    b == 32 || (9 <= b && b <= 13)
}

/// An ASCII decimal digit.
pub open spec fn is_digit(b: u8) -> bool {
    48 <= b && b <= 57
}

/// Every byte of `s[from..to]` is a decimal digit.
pub open spec fn all_digits(s: Seq<u8>, from: int, to: int) -> bool {
    forall|i: int| from <= i < to ==> is_digit(#[trigger] s[i])
}

/// The number that the digits `s[from..to]` spell.
pub open spec fn digits_value(s: Seq<u8>, from: int, to: int) -> nat
    decreases to - from,
{
    if to <= from {
        0
    } else {
        digits_value(s, from, to - 1) * 10 + (s[to - 1] - 48) as nat
    }
}

/// Where the digits of a number start: past one leading plus sign.
pub open spec fn digits_start(s: Seq<u8>, from: int, to: int) -> int {
    if from < to && s[from] == 43 {
        from + 1
    } else {
        from
    }
}

/// What `s[from..to]` reads as: an optional plus sign and at least one
/// digit, spelling a number of at most `limit`.
pub open spec fn reads_unsigned(s: Seq<u8>, from: int, to: int, limit: nat) -> Option<nat> {
    let start = digits_start(s, from, to);
    if start < to && all_digits(s, start, to) && digits_value(s, start, to) <= limit {
        Some(digits_value(s, start, to))
    } else {
        None
    }
}

/// The first place in `s[i..end]` that holds byte `b`; `end` where there
/// is none.
pub open spec fn next_at(s: Seq<u8>, i: int, end: int, b: u8) -> int
    decreases end - i,
{
    if i >= end {
        end
    } else if s[i] == b {
        i
    } else {
        next_at(s, i + 1, end, b)
    }
}

/// The first place in `s[a..b]` that holds no white space; `b` where
/// there is none.
pub open spec fn trim_lo(s: Seq<u8>, a: int, b: int) -> int
    decreases b - a,
{
    if a >= b {
        b
    } else if !is_space(s[a]) {
        a
    } else {
        trim_lo(s, a + 1, b)
    }
}

/// The place after the last byte of `s[a..b]` that is no white space; `a`
/// where there is none.
pub open spec fn trim_hi(s: Seq<u8>, a: int, b: int) -> int
    decreases b - a,
{
    if b <= a {
        a
    } else if !is_space(s[b - 1]) {
        b
    } else {
        trim_hi(s, a, b - 1)
    }
}

/// The first place in `s[i..end]` that holds white space; `end` where
/// there is none.
pub open spec fn next_space(s: Seq<u8>, i: int, end: int) -> int
    decreases end - i,
{
    if i >= end {
        end
    } else if is_space(s[i]) {
        i
    } else {
        next_space(s, i + 1, end)
    }
}

/// A place that holds white space, before which none does, is the first
/// such place.
pub proof fn lemma_next_space(s: Seq<u8>, i: int, end: int, found: int)
    requires
        i <= found <= end,
        forall|j: int| i <= j < found ==> !is_space(s[j]),
        found < end ==> is_space(s[found]),
    ensures
        next_space(s, i, end) == found,
    decreases found - i,
{
    if i < found {
        lemma_next_space(s, i + 1, end, found);
    }
}

/// A place that holds `b`, before which none does, is the first such place.
pub proof fn lemma_next_at(s: Seq<u8>, i: int, end: int, b: u8, found: int)
    requires
        i <= found <= end,
        forall|j: int| i <= j < found ==> s[j] != b,
        found < end ==> s[found] == b,
    ensures
        next_at(s, i, end, b) == found,
    decreases found - i,
{
    if i < found {
        lemma_next_at(s, i + 1, end, b, found);
    }
}

/// What `trim_range` finds is what `trim_lo` and `trim_hi` say.
pub proof fn lemma_trim(s: Seq<u8>, a: int, b: int, lo: int, hi: int)
    requires
        a <= lo <= hi <= b,
        forall|j: int| a <= j < lo ==> is_space(s[j]),
        forall|j: int| hi <= j < b ==> is_space(s[j]),
        lo < hi ==> !is_space(s[lo]) && !is_space(s[hi - 1]),
    ensures
        trim_lo(s, a, b) == (if lo < hi { lo } else { b }),
        lo < hi ==> trim_hi(s, lo, b) == hi,
    decreases b - a, b - hi,
{
    if a < lo {
        lemma_trim(s, a + 1, b, lo, hi);
    } else if lo < hi {
        lemma_trim_hi(s, lo, b, hi);
    } else {
        lemma_trim_all(s, a, b);
    }
}

/// The upper end of a trimmed range.
pub proof fn lemma_trim_hi(s: Seq<u8>, lo: int, b: int, hi: int)
    requires
        lo < hi <= b,
        forall|j: int| hi <= j < b ==> is_space(s[j]),
        !is_space(s[hi - 1]),
    ensures
        trim_hi(s, lo, b) == hi,
    decreases b - hi,
{
    if hi < b {
        lemma_trim_hi(s, lo, b - 1, hi);
    }
}

/// A range of white space trims to nothing.
pub proof fn lemma_trim_all(s: Seq<u8>, a: int, b: int)
    requires
        forall|j: int| a <= j < b ==> is_space(s[j]),
    ensures
        trim_lo(s, a, b) == (if a < b { b } else { b }),
    decreases b - a,
{
    if a < b {
        lemma_trim_all(s, a + 1, b);
    }
}

/// Tells whether a byte is ASCII white space.
pub fn is_space_byte(b: u8) -> (r: bool)
    ensures
        r == is_space(b),
{
    b == 32 || (9 <= b && b <= 13)
}

/// Tells whether a byte is a decimal digit.
pub fn is_digit_byte(b: u8) -> (r: bool)
    ensures
        r == is_digit(b),
{
    48 <= b && b <= 57
}

/// Finds the first occurrence of `b` in `s[from..to]`.
pub fn find_byte(s: &[u8], from: usize, to: usize, b: u8) -> (r: Option<usize>)
    requires
        from <= to <= s.len(),
    ensures
        match r {
            Some(i) => from <= i < to && s[i as int] == b && (forall|j: int| from <= j < i ==> s[j] != b) && i
                == next_at(s@, from as int, to as int, b),
            None => (forall|j: int| from <= j < to ==> s[j] != b) && next_at(s@, from as int, to as int, b) == to,
        },
{
    let mut i: usize = from;
    while i < to
        invariant
            from <= i <= to <= s.len(),
            forall|j: int| from <= j < i ==> s[j] != b,
        decreases to - i,
    {
        if s[i] == b {
            proof {
                lemma_next_at(s@, from as int, to as int, b, i as int);
            }
            return Some(i);
        }
        i = i + 1;
    }
    proof {
        lemma_next_at(s@, from as int, to as int, b, to as int);
    }
    None
}

/// Narrows `s[from..to]` to the part without white space at either end.
pub fn trim_range(s: &[u8], from: usize, to: usize) -> (r: (usize, usize))
    requires
        from <= to <= s.len(),
    ensures
        from <= r.0 <= r.1 <= to,
        forall|j: int| from <= j < r.0 ==> is_space(s[j]),
        forall|j: int| r.1 <= j < to ==> is_space(s[j]),
        r.0 < r.1 ==> !is_space(s[r.0 as int]) && !is_space(s[r.1 - 1]),
        r.0 == trim_lo(s@, from as int, to as int),
        r.1 == trim_hi(s@, r.0 as int, to as int),
{
    let mut a: usize = from;
    while a < to && is_space_byte(s[a])
        invariant
            from <= a <= to <= s.len(),
            forall|j: int| from <= j < a ==> is_space(s[j]),
        decreases to - a,
    {
        a = a + 1;
    }
    let mut b: usize = to;
    while b > a && is_space_byte(s[b - 1])
        invariant
            a <= b <= to <= s.len(),
            forall|j: int| b <= j < to ==> is_space(s[j]),
        decreases b,
    {
        b = b - 1;
    }
    proof {
        lemma_trim(s@, from as int, to as int, a as int, b as int);
        if a == b {
            assert(a == to);
        }
    }
    (a, b)
}

/// Finds the next run of bytes that are not white space at or after
/// `from`, before `to`.
pub fn next_token(s: &[u8], from: usize, to: usize) -> (r: Option<(usize, usize)>)
    requires
        from <= to <= s.len(),
    ensures
        match r {
            Some((a, b)) => from <= a < b <= to && (forall|j: int| from <= j < a ==> is_space(s[j])) && (
            forall|j: int| a <= j < b ==> !is_space(s[j])) && (b < to ==> is_space(s[b as int])) && a
                == trim_lo(s@, from as int, to as int) && b == next_space(s@, a as int, to as int),
            None => (forall|j: int| from <= j < to ==> is_space(s[j])) && trim_lo(s@, from as int, to as int)
                == to,
        },
{
    let mut a: usize = from;
    while a < to && is_space_byte(s[a])
        invariant
            from <= a <= to <= s.len(),
            forall|j: int| from <= j < a ==> is_space(s[j]),
        decreases to - a,
    {
        a = a + 1;
    }
    if a >= to {
        proof {
            lemma_trim_all(s@, from as int, to as int);
        }
        return None;
    }
    let mut b: usize = a + 1;
    while b < to && !is_space_byte(s[b])
        invariant
            a < b <= to <= s.len(),
            forall|j: int| a <= j < b ==> !is_space(s[j]),
        decreases to - b,
    {
        b = b + 1;
    }
    proof {
        lemma_next_space(s@, a as int, to as int, b as int);
        lemma_trim_lo(s@, from as int, to as int, a as int);
    }
    Some((a, b))
}

/// A place without white space, before which all is white space, is where
/// trimming arrives.
pub proof fn lemma_trim_lo(s: Seq<u8>, a: int, b: int, lo: int)
    requires
        a <= lo < b,
        forall|j: int| a <= j < lo ==> is_space(s[j]),
        !is_space(s[lo]),
    ensures
        trim_lo(s, a, b) == lo,
    decreases lo - a,
{
    if a < lo {
        lemma_trim_lo(s, a + 1, b, lo);
    }
}

/// The value of a non-empty run of digits only grows as digits are added.
pub proof fn lemma_digits_grow(s: Seq<u8>, from: int, mid: int, to: int)
    requires
        from <= mid <= to,
        all_digits(s, from, to),
    ensures
        digits_value(s, from, mid) <= digits_value(s, from, to),
    decreases to - mid,
{
    if mid < to {
        lemma_digits_grow(s, from, mid, to - 1);
        assert(is_digit(s[to - 1]));
    }
}

/// Reads `s[from..to]` as an unsigned decimal number of at most `limit`:
/// an optional plus sign, then at least one digit.
pub fn parse_unsigned(s: &[u8], from: usize, to: usize, limit: u64) -> (r: Option<u64>)
    requires
        from <= to <= s.len(),
    ensures
        match r {
            Some(v) => reads_unsigned(s@, from as int, to as int, limit as nat) == Some(v as nat),
            None => reads_unsigned(s@, from as int, to as int, limit as nat) is None,
        },
{
    let start: usize = if from < to && s[from] == 43 {
        from + 1
    } else {
        from
    };
    if start >= to {
        return None;
    }
    let mut acc: u64 = 0;
    let mut i: usize = start;
    while i < to
        invariant
            start <= i <= to <= s.len(),
            start < to,
            start == digits_start(s@, from as int, to as int),
            all_digits(s@, start as int, i as int),
            acc == digits_value(s@, start as int, i as int),
            acc <= limit,
        decreases to - i,
    {
        let b: u8 = s[i];
        if !is_digit_byte(b) {
            proof {
                assert(!is_digit(s@[i as int]));
            }
            return None;
        }
        let d: u64 = (b - 48) as u64;
        if d > limit || acc > (limit - d) / 10 {
            proof {
                let far = digits_value(s@, start as int, i as int + 1);
                assert(far == acc * 10 + d);
                assert(far > limit);
                if all_digits(s@, start as int, to as int) {
                    lemma_digits_grow(s@, start as int, i as int + 1, to as int);
                }
            }
            return None;
        }
        acc = acc * 10 + d;
        i = i + 1;
    }
    Some(acc)
}

/// What `s[from..to]` reads as: an optional sign and at least one digit,
/// spelling a number between `low` and `high`.
pub open spec fn reads_signed(s: Seq<u8>, from: int, to: int, low: int, high: int) -> Option<int> {
    let negative = from < to && s[from] == 45;
    let start = if from < to && (s[from] == 43 || s[from] == 45) {
        from + 1
    } else {
        from
    };
    let magnitude = digits_value(s, start, to) as int;
    let value = if negative {
        -magnitude
    } else {
        magnitude
    };
    if start < to && all_digits(s, start, to) && low <= value <= high {
        Some(value)
    } else {
        None
    }
}

/// Reads `s[from..to]` as a signed decimal number that fits 32 bits: an
/// optional sign, then at least one digit.
pub fn parse_i32(s: &[u8], from: usize, to: usize) -> (r: Option<i32>)
    requires
        from <= to <= s.len(),
    ensures
        match r {
            Some(v) => reads_signed(s@, from as int, to as int, -0x8000_0000, 0x7FFF_FFFF) == Some(v as int),
            None => reads_signed(s@, from as int, to as int, -0x8000_0000, 0x7FFF_FFFF) is None,
        },
{
    let negative: bool = from < to && s[from] == 45;
    let start: usize = if from < to && (s[from] == 43 || s[from] == 45) {
        from + 1
    } else {
        from
    };
    if start >= to {
        return None;
    }
    let limit: u64 = if negative {
        0x8000_0000
    } else {
        0x7FFF_FFFF
    };
    let mut acc: u64 = 0;
    let mut i: usize = start;
    while i < to
        invariant
            start <= i <= to <= s.len(),
            start < to,
            negative == (from < to && s[from as int] == 45),
            start == (if from < to && (s[from as int] == 43 || s[from as int] == 45) {
                from + 1
            } else {
                from as int
            }),
            limit == (if negative { 0x8000_0000u64 } else { 0x7FFF_FFFFu64 }),
            all_digits(s@, start as int, i as int),
            acc == digits_value(s@, start as int, i as int),
            acc <= limit,
        decreases to - i,
    {
        let b: u8 = s[i];
        if !is_digit_byte(b) {
            proof {
                assert(!is_digit(s@[i as int]));
            }
            return None;
        }
        let d: u64 = (b - 48) as u64;
        if acc > (limit - d) / 10 {
            proof {
                let far = digits_value(s@, start as int, i as int + 1);
                assert(far == acc * 10 + d);
                assert(far > limit);
                if all_digits(s@, start as int, to as int) {
                    lemma_digits_grow(s@, start as int, i as int + 1, to as int);
                }
            }
            return None;
        }
        acc = acc * 10 + d;
        i = i + 1;
    }
    if negative {
        Some((0 - acc as i64) as i32)
    } else {
        Some(acc as i32)
    }
}

/// Reads `s[from..to]` as a signed decimal number that fits 64 bits: an
/// optional sign, then at least one digit.
pub fn parse_i64(s: &[u8], from: usize, to: usize) -> (r: Option<i64>)
    requires
        from <= to <= s.len(),
    ensures
        match r {
            Some(v) => reads_signed(s@, from as int, to as int, -0x8000_0000_0000_0000, 0x7FFF_FFFF_FFFF_FFFF)
                == Some(v as int),
            None => reads_signed(s@, from as int, to as int, -0x8000_0000_0000_0000, 0x7FFF_FFFF_FFFF_FFFF) is None,
        },
{
    let negative: bool = from < to && s[from] == 45;
    let start: usize = if from < to && (s[from] == 43 || s[from] == 45) {
        from + 1
    } else {
        from
    };
    if start >= to {
        return None;
    }
    let limit: u64 = if negative {
        0x8000_0000_0000_0000
    } else {
        0x7FFF_FFFF_FFFF_FFFF
    };
    let mut acc: u64 = 0;
    let mut i: usize = start;
    while i < to
        invariant
            start <= i <= to <= s.len(),
            start < to,
            negative == (from < to && s[from as int] == 45),
            start == (if from < to && (s[from as int] == 43 || s[from as int] == 45) {
                from + 1
            } else {
                from as int
            }),
            limit == (if negative { 0x8000_0000_0000_0000u64 } else { 0x7FFF_FFFF_FFFF_FFFFu64 }),
            all_digits(s@, start as int, i as int),
            acc == digits_value(s@, start as int, i as int),
            acc <= limit,
        decreases to - i,
    {
        let b: u8 = s[i];
        if !is_digit_byte(b) {
            proof {
                assert(!is_digit(s@[i as int]));
            }
            return None;
        }
        let d: u64 = (b - 48) as u64;
        if acc > (limit - d) / 10 {
            proof {
                let far = digits_value(s@, start as int, i as int + 1);
                assert(far == acc * 10 + d);
                assert(far > limit);
                if all_digits(s@, start as int, to as int) {
                    lemma_digits_grow(s@, start as int, i as int + 1, to as int);
                }
            }
            return None;
        }
        acc = acc * 10 + d;
        i = i + 1;
    }
    if negative {
        if acc == 0x8000_0000_0000_0000 {
            Some(-0x8000_0000_0000_0000)
        } else {
            Some(0 - (acc as i64))
        }
    } else {
        Some(acc as i64)
    }
}

/// The character of a decimal digit.
pub open spec fn digit_char(d: nat) -> char {
    if d == 0 {
        '0'
    } else if d == 1 {
        '1'
    } else if d == 2 {
        '2'
    } else if d == 3 {
        '3'
    } else if d == 4 {
        '4'
    } else if d == 5 {
        '5'
    } else if d == 6 {
        '6'
    } else if d == 7 {
        '7'
    } else if d == 8 {
        '8'
    } else {
        '9'
    }
}

/// The decimal text of a number, without leading zeros.
pub open spec fn decimal_text(n: nat) -> Seq<char>
    decreases n,
{
    if n < 10 {
        seq![digit_char(n)]
    } else {
        decimal_text(n / 10).push(digit_char(n % 10))
    }
}

/// The text of a single decimal digit.
pub fn digit_text(d: u64) -> (t: &'static str)
    requires
        d < 10,
    ensures
        t@ == seq![digit_char(d as nat)],
{
    proof {
        reveal_strlit("0");
        reveal_strlit("1");
        reveal_strlit("2");
        reveal_strlit("3");
        reveal_strlit("4");
        reveal_strlit("5");
        reveal_strlit("6");
        reveal_strlit("7");
        reveal_strlit("8");
        reveal_strlit("9");
    }
    match d {
        0 => "0",
        1 => "1",
        2 => "2",
        3 => "3",
        4 => "4",
        5 => "5",
        6 => "6",
        7 => "7",
        8 => "8",
        _ => "9",
    }
}

/// Appends the decimal text of `n` to `out`.
pub fn push_decimal(out: &mut String, n: u64)
    ensures
        final(out)@ == old(out)@ + decimal_text(n as nat),
    decreases n,
{
    if n >= 10 {
        push_decimal(out, n / 10);
    }
    out.append(digit_text(n % 10));
    proof {
        if n >= 10 {
            assert(old(out)@ + decimal_text((n / 10) as nat) + seq![digit_char((n % 10) as nat)] =~= old(out)@
                + decimal_text(n as nat));
        }
    }
}

/// Builds the message `head`, the decimal text of `n`, then `tail`.
pub fn message_with_number(head: &str, n: u64, tail: &str) -> (msg: String)
    ensures
        msg@ == head@ + decimal_text(n as nat) + tail@,
{
    let mut msg = String::from_str(head);
    push_decimal(&mut msg, n);
    msg.append(tail);
    msg
}

} // verus!
