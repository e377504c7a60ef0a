//! A dial of one hundred positions, started at fifty and turned left or
//! right by each line of input: how often it comes to rest at zero, and how
//! often it passes zero.
use vstd::prelude::*;
use vstd::string::StringSliceAdditionalSpecFns;
use crate::text::{parse_i32, reads_signed};

verus! {

/// The byte `L`.
pub const LEFT: u8 = 76;

/// The byte `R`.
pub const RIGHT: u8 = 82;

/// The bytes of line `i`.
pub open spec fn line_bytes(lines: Seq<String>, i: int) -> Seq<u8> {
    vstd::utf8::encode_utf8(lines[i]@)
}

/// The line is one ASCII character followed by a number that fits 32 bits.
pub open spec fn is_turn(line: Seq<u8>) -> bool {
    &&& line.len() >= 1
    &&& line[0] < 128
    &&& reads_signed(line, 1, line.len() as int, -0x8000_0000, 0x7FFF_FFFF) is Some
}

/// The number of clicks that the line turns the dial by.
pub open spec fn clicks(line: Seq<u8>) -> int {
    reads_signed(line, 1, line.len() as int, -0x8000_0000, 0x7FFF_FFFF).unwrap()
}

/// The line turns the dial left: it begins with `L`. Any other line turns
/// it right.
pub open spec fn turns_left(line: Seq<u8>) -> bool {
    line[0] == LEFT
}

/// Where the dial rests after the first `k` lines.
pub open spec fn rest_after(lines: Seq<String>, k: int) -> int
    decreases k,
{
    if k <= 0 {
        50
    } else {
        let line = line_bytes(lines, k - 1);
        let before = rest_after(lines, k - 1);
        if turns_left(line) {
            (before - clicks(line)) % 100
        } else {
            (before + clicks(line)) % 100
        }
    }
}

/// How often, among the first `k` lines, the dial came to rest at zero.
pub open spec fn rests_at_zero(lines: Seq<String>, k: int) -> int
    decreases k,
{
    if k <= 0 {
        0
    } else {
        rests_at_zero(lines, k - 1) + (if rest_after(lines, k) == 0 { 1int } else { 0int })
    }
}

/// The quotient of `x` by 100, rounded towards zero.
pub open spec fn hundreds(x: int) -> int {
    if x >= 0 {
        x / 100
    } else {
        -((-x) / 100)
    }
}

/// What is left of `x` after its hundreds are taken away; it has the sign
/// of `x`.
pub open spec fn below_hundred(x: int) -> int {
    x - 100 * hundreds(x)
}

/// How often a turn passes or reaches zero, as counted turn by turn: once
/// for each full hundred of clicks, and once more where what is left of
/// the clicks carries the dial to zero or past it.
pub open spec fn passes_in_turn(before: int, line: Seq<u8>) -> int {
    let rem = below_hundred(clicks(line));
    hundreds(clicks(line)) + (if turns_left(line) {
        if before > 0 && rem >= before {
            1int
        } else {
            0int
        }
    } else {
        if before + rem >= 100 {
            1int
        } else {
            0int
        }
    })
}

/// Where the dial rests after the first `k` lines, each turn being taken
/// as its hundreds and what is left of them.
pub open spec fn rest_by_rem(lines: Seq<String>, k: int) -> int
    decreases k,
{
    if k <= 0 {
        50
    } else {
        let line = line_bytes(lines, k - 1);
        let before = rest_by_rem(lines, k - 1);
        let rem = below_hundred(clicks(line));
        if turns_left(line) {
            (before - rem) % 100
        } else {
            (before + rem) % 100
        }
    }
}

/// How often the dial passed or reached zero during the first `k` lines.
pub open spec fn passes(lines: Seq<String>, k: int) -> int
    decreases k,
{
    if k <= 0 {
        0
    } else {
        passes(lines, k - 1) + passes_in_turn(rest_by_rem(lines, k - 1), line_bytes(lines, k - 1))
    }
}

/// The remainder of `x` by 100 that lies in `0..100`.
pub fn wrap(x: i32) -> (r: i32)
    ensures
        r == x % 100,
        0 <= r < 100,
{
    let r: i32 = x % 100;
    if r < 0 {
        r + 100
    } else {
        r
    }
}

/// Reads one line: whether it turns left, and by how many clicks.
pub fn read_turn(line: &str) -> (r: (bool, i32))
    requires
        is_turn(line.spec_bytes()),
    ensures
        r.0 == turns_left(line.spec_bytes()),
        r.1 == clicks(line.spec_bytes()),
{
    let s = line.as_bytes();
    let left: bool = s[0] == LEFT;
    let distance: i32 = parse_i32(s, 1, s.len()).unwrap();
    (left, distance)
}

/// Counts how often the dial comes to rest at zero.
pub fn part1(inputs: &[String]) -> (count: i32)
    requires
        inputs.len() <= 0x7FFF_FFFF,
        forall|i: int| 0 <= i < inputs.len() ==> is_turn(#[trigger] line_bytes(inputs@, i)),
        forall|i: int|
            0 <= i < inputs.len() ==> -0x7FFF_FF00 <= clicks(#[trigger] line_bytes(inputs@, i)) <= 0x7FFF_FF00,
    ensures
        count == rests_at_zero(inputs@, inputs.len() as int),
{
    let mut position: i32 = 50;
    let mut count: i32 = 0;
    let mut i: usize = 0;
    while i < inputs.len()
        invariant
            i <= inputs.len() <= 0x7FFF_FFFF,
            forall|j: int| 0 <= j < inputs.len() ==> is_turn(#[trigger] line_bytes(inputs@, j)),
            forall|j: int|
                0 <= j < inputs.len() ==> -0x7FFF_FF00 <= clicks(#[trigger] line_bytes(inputs@, j))
                    <= 0x7FFF_FF00,
            position == rest_after(inputs@, i as int),
            0 <= position < 100,
            count == rests_at_zero(inputs@, i as int),
            0 <= count <= i,
        decreases inputs.len() - i,
    {
        proof {
            assert(is_turn(line_bytes(inputs@, i as int)));
        }
        let (left, distance) = read_turn(inputs[i].as_str());
        if left {
            position = wrap(position - distance);
        } else {
            position = wrap(position + distance);
        }
        if position == 0 {
            count = count + 1;
        }
        i = i + 1;
    }
    count
}

/// Counts how often the dial passes or reaches zero.
pub fn part2(inputs: &[String]) -> (count: i32)
    requires
        forall|i: int| 0 <= i < inputs.len() ==> is_turn(#[trigger] line_bytes(inputs@, i)),
        forall|k: int| 0 <= k <= inputs.len() ==> -0x8000_0000 <= #[trigger] passes(inputs@, k) <= 0x7FFF_FFFF,
    ensures
        count == passes(inputs@, inputs.len() as int),
{
    let mut position: i32 = 50;
    let mut count: i32 = 0;
    let mut i: usize = 0;
    while i < inputs.len()
        invariant
            i <= inputs.len(),
            forall|j: int| 0 <= j < inputs.len() ==> is_turn(#[trigger] line_bytes(inputs@, j)),
            forall|k: int|
                0 <= k <= inputs.len() ==> -0x8000_0000 <= #[trigger] passes(inputs@, k) <= 0x7FFF_FFFF,
            position == rest_by_rem(inputs@, i as int),
            0 <= position < 100,
            count == passes(inputs@, i as int),
        decreases inputs.len() - i,
    {
        proof {
            assert(is_turn(line_bytes(inputs@, i as int)));
            assert(-0x8000_0000 <= passes(inputs@, i as int + 1) <= 0x7FFF_FFFF);
        }
        let (left, distance) = read_turn(inputs[i].as_str());
        let full: i32 = distance / 100;
        let rem: i32 = distance % 100;
        let extra: i32 = if left {
            if position > 0 && rem >= position {
                1
            } else {
                0
            }
        } else {
            if position + rem >= 100 {
                1
            } else {
                0
            }
        };
        let step: i64 = full as i64 + extra as i64;
        count = (count as i64 + step) as i32;
        if left {
            position = wrap(position - rem);
        } else {
            position = wrap(position + rem);
        }
        i = i + 1;
    }
    count
}

/// The line is a turn of no more clicks than leave room for the dial in
/// 32 bits; where `marked`, it begins with `L` or `R`.
pub open spec fn turn_fits(line: Seq<u8>, marked: bool) -> bool {
    &&& is_turn(line)
    &&& -0x7FFF_FF00 <= clicks(line) <= 0x7FFF_FF00
    &&& marked ==> line[0] == LEFT || line[0] == RIGHT
}

/// Tells whether the lines can be counted: there are no more of them than
/// fit 32 bits, and each is a turn that fits.
pub fn turns_fit(inputs: &[String], marked: bool) -> (ok: bool)
    ensures
        ok == (inputs.len() <= 0x7FFF_FFFF && forall|i: int|
            0 <= i < inputs.len() ==> turn_fits(#[trigger] line_bytes(inputs@, i), marked)),
{
    if inputs.len() > 0x7FFF_FFFF {
        return false;
    }
    let mut i: usize = 0;
    while i < inputs.len()
        invariant
            i <= inputs.len(),
            forall|j: int| 0 <= j < i ==> turn_fits(#[trigger] line_bytes(inputs@, j), marked),
        decreases inputs.len() - i,
    {
        let s = inputs[i].as_str().as_bytes();
        proof {
            assert(s@ == line_bytes(inputs@, i as int));
        }
        if s.len() == 0 || s[0] >= 128 {
            return false;
        }
        match parse_i32(s, 1, s.len()) {
            None => {
                return false;
            },
            Some(distance) => {
                if distance < -0x7FFF_FF00 || distance > 0x7FFF_FF00 {
                    return false;
                }
            },
        }
        if marked && s[0] != LEFT && s[0] != RIGHT {
            return false;
        }
        i = i + 1;
    }
    true
}

/// Tells whether the count of passes stays within 32 bits from the first
/// line to the last.
pub fn passes_fit(inputs: &[String]) -> (ok: bool)
    requires
        forall|i: int| 0 <= i < inputs.len() ==> is_turn(#[trigger] line_bytes(inputs@, i)),
    ensures
        ok == forall|k: int| 0 <= k <= inputs.len() ==> -0x8000_0000 <= #[trigger] passes(inputs@, k) <= 0x7FFF_FFFF,
{
    let mut position: i32 = 50;
    let mut count: i64 = 0;
    let mut i: usize = 0;
    while i < inputs.len()
        invariant
            i <= inputs.len(),
            forall|j: int| 0 <= j < inputs.len() ==> is_turn(#[trigger] line_bytes(inputs@, j)),
            forall|k: int| 0 <= k <= i ==> -0x8000_0000 <= #[trigger] passes(inputs@, k) <= 0x7FFF_FFFF,
            position == rest_by_rem(inputs@, i as int),
            0 <= position < 100,
            count == passes(inputs@, i as int),
        decreases inputs.len() - i,
    {
        proof {
            assert(is_turn(line_bytes(inputs@, i as int)));
        }
        let (left, distance) = read_turn(inputs[i].as_str());
        let full: i32 = distance / 100;
        let rem: i32 = distance % 100;
        let extra: i32 = if left {
            if position > 0 && rem >= position {
                1
            } else {
                0
            }
        } else {
            if position + rem >= 100 {
                1
            } else {
                0
            }
        };
        count = count + (full as i64 + extra as i64);
        if count < -0x8000_0000 || count > 0x7FFF_FFFF {
            proof {
                assert(passes(inputs@, i as int + 1) == count);
            }
            return false;
        }
        if left {
            position = wrap(position - rem);
        } else {
            position = wrap(position + rem);
        }
        i = i + 1;
    }
    true
}

} // verus!
