//! Reading IEEE 754 binary64 bit patterns without doing arithmetic on them.
//!
//! A pattern is a sign bit above 63 bits of magnitude. Magnitudes are ordered
//! as the numbers they encode: zero, the subnormal numbers, the normal
//! numbers, infinity, and above infinity the NaNs.

use vstd::prelude::*;

verus! {

/// The pattern of positive zero.
pub const ZERO: u64 = 0;

/// The pattern of one.
pub const ONE: u64 = 0x3ff0_0000_0000_0000;

/// The sign bit.
pub const SIGN: u64 = 0x8000_0000_0000_0000;

/// The pattern of positive infinity.
pub const INFINITY: u64 = 0x7ff0_0000_0000_0000;

/// The pattern of the smallest positive normal number.
pub const SMALLEST_NORMAL: u64 = 0x0010_0000_0000_0000;

/// The pattern without its sign bit.
pub open spec fn magnitude(bits: u64) -> u64 {
    if bits >= SIGN {
        (bits - SIGN) as u64
    } else {
        bits
    }
}

/// The pattern with its sign bit flipped.
pub open spec fn negated(bits: u64) -> u64 {
    if bits >= SIGN {
        (bits - SIGN) as u64
    } else {
        (bits + SIGN) as u64
    }
}

/// Neither an infinity nor a NaN.
pub open spec fn finite(bits: u64) -> bool {
    magnitude(bits) < INFINITY
}

/// Positive or negative zero.
pub open spec fn zero(bits: u64) -> bool {
    magnitude(bits) == 0
}

/// Zero or subnormal: too small to divide by.
pub open spec fn negligible(bits: u64) -> bool {
    magnitude(bits) < SMALLEST_NORMAL
}

/// The absolute value encoded by `a` is less than the number encoded by
/// `bound`. Nothing is below a bound that is negative, zero or a NaN, and a
/// NaN is below nothing.
pub open spec fn below(a: u64, bound: u64) -> bool {
    bound <= INFINITY && magnitude(a) < bound
}

/// Clears the sign bit.
pub fn abs(bits: u64) -> (r: u64)
    ensures
        r == magnitude(bits),
{
    if bits >= SIGN {
        bits - SIGN
    } else {
        bits
    }
}

/// Flips the sign bit.
pub fn negate(bits: u64) -> (r: u64)
    ensures
        r == negated(bits),
        magnitude(r) == magnitude(bits),
{
    if bits >= SIGN {
        bits - SIGN
    } else {
        bits + SIGN
    }
}

/// Tells whether `bits` encodes a finite number.
pub fn is_finite(bits: u64) -> (r: bool)
    ensures
        r == finite(bits),
{
    abs(bits) < INFINITY
}

/// Tells whether `bits` encodes positive or negative zero.
pub fn is_zero(bits: u64) -> (r: bool)
    ensures
        r == zero(bits),
{
    abs(bits) == 0
}

/// Tells whether `bits` encodes zero or a subnormal number.
pub fn is_negligible(bits: u64) -> (r: bool)
    ensures
        r == negligible(bits),
{
    abs(bits) < SMALLEST_NORMAL
}

/// Tells whether the absolute value of `a` is less than `bound`.
pub fn is_below(a: u64, bound: u64) -> (r: bool)
    ensures
        r == below(a, bound),
{
    bound <= INFINITY && abs(a) < bound
}

} // verus!
