use vstd::prelude::*;

verus! {

/// The sign bit of a double's bit pattern.
pub const SIGN_BIT: u64 = 0x8000_0000_0000_0000;

/// The bit pattern of positive infinity: every exponent bit set, no fraction bit.
pub const INFINITY_BITS: u64 = 0x7FF0_0000_0000_0000;

/// The bit pattern without its sign bit.
pub open spec fn magnitude(bits: u64) -> int {
    if bits < SIGN_BIT {
        bits as int
    } else {
        bits - SIGN_BIT
    }
}

/// Whether the pattern stands for a finite number: neither an infinity nor a NaN.
pub open spec fn is_finite(bits: u64) -> bool {
    magnitude(bits) < INFINITY_BITS
}

/// An integer that orders bit patterns as their numbers are ordered: below
/// the NaNs, the magnitude grows with the pattern, and a set sign bit mirrors
/// it. Both zeros have key 0.
pub open spec fn order_key(bits: u64) -> int {
    if bits < SIGN_BIT {
        bits as int
    } else {
        -(bits - SIGN_BIT)
    }
}

/// Tells whether `bits` stands for a finite number.
pub fn finite(bits: u64) -> (r: bool)
    ensures
        r == is_finite(bits),
{
    if bits < SIGN_BIT {
        bits < INFINITY_BITS
    } else {
        bits - SIGN_BIT < INFINITY_BITS
    }
}

/// Computes the order key of `bits`.
pub fn key(bits: u64) -> (k: i64)
    ensures
        k == order_key(bits),
{
    if bits < SIGN_BIT {
        bits as i64
    } else {
        let rest: u64 = bits - SIGN_BIT;
        -(rest as i64)
    }
}

} // verus!
