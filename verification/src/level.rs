//! Real-valued quantities of the music model (note strengths, intensities,
//! chord positions) are held as *levels*: integer order keys taken from the
//! IEEE-754 single-precision bit pattern of the number. For every value that
//! is not NaN, `a <= b` between two numbers holds exactly when it holds between
//! their levels, and both zeros share the level 0, so every threshold test of
//! the music logic can be decided on levels alone.
use vstd::prelude::*;

verus! {

/// Bit pattern of the sign of an IEEE-754 single.
pub const SIGN_BIT: u32 = 0x8000_0000;

/// Level of the number 0.0 (and of -0.0).
pub const LEVEL_ZERO: i32 = 0;

/// Level of 0.1.
pub const LEVEL_TENTH: i32 = 0x3dcc_cccd;

/// Level of 0.2.
pub const LEVEL_FIFTH: i32 = 0x3e4c_cccd;

/// Level of 0.25.
pub const LEVEL_QUARTER: i32 = 0x3e80_0000;

/// Level of 0.3.
pub const LEVEL_THREE_TENTHS: i32 = 0x3e99_999a;

/// Level of 0.33 (about a third).
pub const LEVEL_THIRD: i32 = 0x3ea8_f5c3;

/// Level of 0.4.
pub const LEVEL_FOUR_TENTHS: i32 = 0x3ecc_cccd;

/// Level of 0.5.
pub const LEVEL_HALF: i32 = 0x3f00_0000;

/// Level of 0.6.
pub const LEVEL_THREE_FIFTHS: i32 = 0x3f19_999a;

/// Level of 0.67 (about two thirds).
pub const LEVEL_TWO_THIRDS: i32 = 0x3f2b_851f;

/// Level of 0.7.
pub const LEVEL_SEVEN_TENTHS: i32 = 0x3f33_3333;

/// Level of 0.75.
pub const LEVEL_THREE_QUARTERS: i32 = 0x3f40_0000;

/// Level of 1.0.
pub const LEVEL_ONE: i32 = 0x3f80_0000;

/// Level of 2.0.
pub const LEVEL_TWO: i32 = 0x4000_0000;

/// Level of 3.0.
pub const LEVEL_THREE: i32 = 0x4040_0000;

/// The level of the single-precision number with bit pattern `bits`: its
/// magnitude bits, negated when the sign bit is set.
pub open spec fn level_of_bits(bits: u32) -> int {
    let magnitude = bits as int % (SIGN_BIT as int);
    if bits >= SIGN_BIT {
        -magnitude
    } else {
        magnitude
    }
}

/// Computes the level of the single-precision number whose bit pattern is
/// `bits` (as given by `f32::to_bits`).
pub fn level_from_bits(bits: u32) -> (level: i32)
    ensures
        level == level_of_bits(bits),
        bits < SIGN_BIT ==> level == bits,
        -(SIGN_BIT as int) < level < SIGN_BIT,
{
    let magnitude = bits % SIGN_BIT;
    let magnitude_level: i32 = magnitude as i32;
    if bits >= SIGN_BIT {
        -magnitude_level
    } else {
        magnitude_level
    }
}

/// Two bit patterns that differ only in their sign bit and have zero
/// magnitude (the two zeros) share one level.
pub proof fn lemma_zeros_share_a_level()
    ensures
        level_of_bits(0) == level_of_bits(SIGN_BIT),
{
}

/// Among non-negative numbers the level is the bit pattern itself, and among
/// negative numbers a larger magnitude gives a smaller level: the level order
/// is the order of the numbers.
pub proof fn lemma_level_order(a: u32, b: u32)
    ensures
        a < SIGN_BIT && b < SIGN_BIT ==> (level_of_bits(a) <= level_of_bits(b) <==> a <= b),
        a >= SIGN_BIT && b >= SIGN_BIT ==> (level_of_bits(a) <= level_of_bits(b) <==> a >= b),
        a >= SIGN_BIT && b < SIGN_BIT ==> level_of_bits(a) <= level_of_bits(b),
{
}

} // verus!
