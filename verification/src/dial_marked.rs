//! The dial for lines that are marked `L` or `R`: how often it comes to
//! rest at zero.
use vstd::prelude::*;
use crate::dial::{clicks, is_turn, line_bytes, read_turn, rest_after, rests_at_zero, wrap, LEFT, RIGHT};

verus! {

/// The line is a turn that begins with `L` or `R`.
pub open spec fn is_marked_turn(line: Seq<u8>) -> bool {
    is_turn(line) && (line[0] == LEFT || line[0] == RIGHT)
}

/// Counts how often the dial comes to rest at zero.
pub fn part1(inputs: &[String]) -> (count: i32)
    requires
        inputs.len() <= 0x7FFF_FFFF,
        forall|i: int| 0 <= i < inputs.len() ==> is_marked_turn(#[trigger] line_bytes(inputs@, i)),
        forall|i: int|
            0 <= i < inputs.len() ==> -0x7FFF_FF00 <= clicks(#[trigger] line_bytes(inputs@, i)) <= 0x7FFF_FF00,
    ensures
        count == rests_at_zero(inputs@, inputs.len() as int),
{
    let mut position: i32 = 50;
    let mut count: i32 = 0;
    let mut i: usize = 0;
    while i < inputs.len()
        invariant
            i <= inputs.len() <= 0x7FFF_FFFF,
            forall|j: int| 0 <= j < inputs.len() ==> is_marked_turn(#[trigger] line_bytes(inputs@, j)),
            forall|j: int|
                0 <= j < inputs.len() ==> -0x7FFF_FF00 <= clicks(#[trigger] line_bytes(inputs@, j))
                    <= 0x7FFF_FF00,
            position == rest_after(inputs@, i as int),
            0 <= position < 100,
            count == rests_at_zero(inputs@, i as int),
            0 <= count <= i,
        decreases inputs.len() - i,
    {
        proof {
            assert(is_marked_turn(line_bytes(inputs@, i as int)));
        }
        let (left, distance) = read_turn(inputs[i].as_str());
        if left {
            position = wrap(position - distance + 100);
        } else {
            position = wrap(position + distance);
        }
        if position == 0 {
            count = count + 1;
        }
        i = i + 1;
    }
    count
}

} // verus!
