//! Scores as bit patterns.
//!
//! A confidence or a similarity is a real number between zero and one that an
//! outside crate computes in IEEE-754 binary64. The library carries such a
//! number as its 64-bit pattern and compares patterns with integer
//! arithmetic, in the order of the numbers they encode.

use vstd::prelude::*;

verus! {

/// The bit that holds the sign of a binary64 number.
pub const SIGN_BIT: u64 = 0x8000_0000_0000_0000;

/// The pattern of positive infinity: every greater magnitude is not a number.
pub const INFINITY_BITS: u64 = 0x7FF0_0000_0000_0000;

/// The pattern of the number one: the patterns from zero up to it are the
/// numbers from zero to one.
pub const UNIT_BITS: u64 = 0x3FF0_0000_0000_0000;

/// The pattern without its sign bit.
pub open spec fn magnitude(bits: u64) -> u64 {
    if bits >= SIGN_BIT {
        (bits - SIGN_BIT) as u64
    } else {
        bits
    }
}

/// Whether the sign bit is set.
pub open spec fn is_negative(bits: u64) -> bool {
    bits >= SIGN_BIT
}

/// Whether the pattern encodes no number.
pub open spec fn is_nan(bits: u64) -> bool {
    magnitude(bits) > INFINITY_BITS
}

/// The order of binary64 numbers, on their patterns: `a < b`.
///
/// Nothing is below or above a pattern that encodes no number, and the two
/// zeros are equal.
pub open spec fn score_lt(a: u64, b: u64) -> bool {
    &&& !is_nan(a)
    &&& !is_nan(b)
    &&& if is_negative(a) && is_negative(b) {
        magnitude(a) > magnitude(b)
    } else if is_negative(a) {
        magnitude(a) != 0 || magnitude(b) != 0
    } else if is_negative(b) {
        false
    } else {
        magnitude(a) < magnitude(b)
    }
}

/// Decides `a < b` for two binary64 bit patterns.
pub fn score_less_than(a: u64, b: u64) -> (r: bool)
    ensures
        r == score_lt(a, b),
{
    let a_neg: bool = a >= SIGN_BIT;
    let b_neg: bool = b >= SIGN_BIT;
    let a_mag: u64 = if a_neg { a - SIGN_BIT } else { a };
    let b_mag: u64 = if b_neg { b - SIGN_BIT } else { b };
    if a_mag > INFINITY_BITS || b_mag > INFINITY_BITS {
        false
    } else if a_neg && b_neg {
        a_mag > b_mag
    } else if a_neg {
        a_mag != 0 || b_mag != 0
    } else if b_neg {
        false
    } else {
        a_mag < b_mag
    }
}

} // verus!
