//! The dial, first question only: how often it comes to rest at zero.
use vstd::prelude::*;
use crate::dial::{clicks, is_turn, line_bytes, read_turn, rest_after, rests_at_zero, wrap};

verus! {

/// Counts how often the dial comes to rest at zero.
pub fn part1(inputs: &[String]) -> (count: i32)
    requires
        inputs.len() <= 0x7FFF_FFFF,
        forall|i: int| 0 <= i < inputs.len() ==> is_turn(#[trigger] line_bytes(inputs@, i)),
        forall|i: int|
            0 <= i < inputs.len() ==> -0x7FFF_FF00 <= clicks(#[trigger] line_bytes(inputs@, i)) <= 0x7FFF_FF00,
    ensures
        count == rests_at_zero(inputs@, inputs.len() as int),
{
    let mut position: i32 = 50;
    let mut count: i32 = 0;
    let mut i: usize = 0;
    while i < inputs.len()
        invariant
            i <= inputs.len() <= 0x7FFF_FFFF,
            forall|j: int| 0 <= j < inputs.len() ==> is_turn(#[trigger] line_bytes(inputs@, j)),
            forall|j: int|
                0 <= j < inputs.len() ==> -0x7FFF_FF00 <= clicks(#[trigger] line_bytes(inputs@, j))
                    <= 0x7FFF_FF00,
            position == rest_after(inputs@, i as int),
            0 <= position < 100,
            count == rests_at_zero(inputs@, i as int),
            0 <= count <= i,
        decreases inputs.len() - i,
    {
        proof {
            assert(is_turn(line_bytes(inputs@, i as int)));
        }
        let (left, distance) = read_turn(inputs[i].as_str());
        if left {
            position = wrap(position - distance);
        } else {
            position = wrap(position + distance);
        }
        if position == 0 {
            count = count + 1;
        }
        i = i + 1;
    }
    count
}

/// The second question is not answered here: the result is always zero.
pub fn part2(_inputs: &[String]) -> (count: i32)
    ensures
        count == 0,
{
    0
}

} // verus!
