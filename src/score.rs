//! Confidence scores are carried as IEEE-754 single-precision bit patterns.
//! The library never does arithmetic on them; it only compares them, and the
//! order of the encoded numbers is a plain integer order on sign and magnitude.
use vstd::prelude::*;

verus! {

/// The pattern without its sign bit.
pub open spec fn magnitude(bits: u32) -> int {
    (bits as int) % 0x8000_0000
}

/// Exponent all ones and a non-zero fraction.
pub open spec fn is_nan(bits: u32) -> bool {
    magnitude(bits) > 0x7f80_0000
}

/// Neither NaN nor an infinity: the exponent is not all ones.
pub open spec fn is_finite(bits: u32) -> bool {
    magnitude(bits) < 0x7f80_0000
}

/// An integer that orders the numbers encoded by non-NaN patterns as the
/// numbers themselves are ordered; both zeros map to 0.
pub open spec fn score_key(bits: u32) -> int {
    if bits >= 0x8000_0000 {
        -magnitude(bits)
    } else {
        magnitude(bits)
    }
}

/// `a > b` on the encoded numbers: false whenever either one is NaN.
pub open spec fn float_gt(a: u32, b: u32) -> bool {
    !is_nan(a) && !is_nan(b) && score_key(a) > score_key(b)
}

/// The order key of a pattern.
pub fn order_key(bits: u32) -> (r: i64)
    ensures
        r == score_key(bits),
{
    if bits >= 0x8000_0000 {
        -((bits - 0x8000_0000) as i64)
    } else {
        bits as i64
    }
}

/// Whether a pattern encodes NaN.
pub fn is_nan_bits(bits: u32) -> (r: bool)
    ensures
        r == is_nan(bits),
{
    let m: u32 = if bits >= 0x8000_0000 { bits - 0x8000_0000 } else { bits };
    m > 0x7f80_0000
}

/// Whether a pattern encodes a finite number.
pub fn is_finite_bits(bits: u32) -> (r: bool)
    ensures
        r == is_finite(bits),
{
    let m: u32 = if bits >= 0x8000_0000 { bits - 0x8000_0000 } else { bits };
    m < 0x7f80_0000
}

/// `a > b` on the encoded numbers.
pub fn greater(a: u32, b: u32) -> (r: bool)
    ensures
        r == float_gt(a, b),
{
    !is_nan_bits(a) && !is_nan_bits(b) && order_key(a) > order_key(b)
}

} // verus!
