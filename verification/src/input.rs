//! The input wire byte: a bitmask of held controls, one byte per player per
//! frame.  Bit 0 is forward, bit 1 reverse, bit 2 left, bit 3 right, bit 4
//! fire; bits 5 to 7 are reserved and must be zero.

use vstd::prelude::*;

verus! {

pub const INPUT_FORWARD: u8 = 1;

pub const INPUT_REVERSE: u8 = 2;

pub const INPUT_LEFT: u8 = 4;

pub const INPUT_RIGHT: u8 = 8;

pub const INPUT_FIRE: u8 = 16;

/// A byte is a valid input word when its reserved bits (5 to 7) are zero.
pub open spec fn valid_bits(b: u8) -> bool {
    b < 32
}

pub open spec fn has_forward(b: u8) -> bool {
    b & INPUT_FORWARD != 0
}

pub open spec fn has_reverse(b: u8) -> bool {
    b & INPUT_REVERSE != 0
}

pub open spec fn has_left(b: u8) -> bool {
    b & INPUT_LEFT != 0
}

pub open spec fn has_right(b: u8) -> bool {
    b & INPUT_RIGHT != 0
}

pub open spec fn has_fire(b: u8) -> bool {
    b & INPUT_FIRE != 0
}

/// Packs the sampled control states into the wire byte, in the fixed bit
/// positions of the wire contract.
pub fn pack_inputs(forward: bool, reverse: bool, left: bool, right: bool, fire: bool) -> (r: u8)
    ensures
        valid_bits(r),
        has_forward(r) == forward,
        has_reverse(r) == reverse,
        has_left(r) == left,
        has_right(r) == right,
        has_fire(r) == fire,
{
    let mut r: u8 = 0;
    if forward {
        r = r + 1;
    }
    if reverse {
        r = r + 2;
    }
    if left {
        r = r + 4;
    }
    if right {
        r = r + 8;
    }
    if fire {
        r = r + 16;
    }
    proof {
        let f: u8 = if forward { 1 } else { 0 };
        let v: u8 = if reverse { 1 } else { 0 };
        let l: u8 = if left { 1 } else { 0 };
        let t: u8 = if right { 1 } else { 0 };
        let g: u8 = if fire { 1 } else { 0 };
        assert(r == f + 2 * v + 4 * l + 8 * t + 16 * g);
        let x = r;
        assert((x & 1 == f) && (x & 2 == 2 * v) && (x & 4 == 4 * l) && (x & 8 == 8 * t) && (x & 16
            == 16 * g)) by (bit_vector)
            requires
                x == f + 2 * v + 4 * l + 8 * t + 16 * g,
                f <= 1,
                v <= 1,
                l <= 1,
                t <= 1,
                g <= 1,
        ;
    }
    r
}

} // verus!
