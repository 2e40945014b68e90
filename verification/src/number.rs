use vstd::prelude::*;

verus! {

/// Bounds of numeric domains carry IEEE-754 binary64 values in their raw bit
/// encoding.  This module states how such encoded numbers are ordered.
pub open spec fn exponent_field(bits: u64) -> int {
    (bits as int / 0x10_0000_0000_0000) % 0x800
}

pub open spec fn mantissa_field(bits: u64) -> int {
    bits as int % 0x10_0000_0000_0000
}

/// The encoding is a NaN: all exponent bits set and a nonzero mantissa.
pub open spec fn is_nan(bits: u64) -> bool {
    exponent_field(bits) == 0x7ff && mantissa_field(bits) != 0
}

/// The position of an encoded (non-NaN) number on the number line: sign and
/// magnitude mapped to one integer, so that both zeros share position 0.
pub open spec fn order_key(bits: u64) -> int {
    if bits >= 0x8000_0000_0000_0000 {
        0x8000_0000_0000_0000 - bits as int
    } else {
        bits as int
    }
}

/// `a <= b` on the numbers the two encodings stand for.
pub open spec fn num_le(a: u64, b: u64) -> bool {
    !is_nan(a) && !is_nan(b) && order_key(a) <= order_key(b)
}

/// `a < b` on the numbers the two encodings stand for.
pub open spec fn num_lt(a: u64, b: u64) -> bool {
    !is_nan(a) && !is_nan(b) && order_key(a) < order_key(b)
}

/// The encoding of positive zero.
pub const ZERO_BITS: u64 = 0;

pub fn encoded_is_nan(bits: u64) -> (r: bool)
    ensures
        r == is_nan(bits),
{
    (bits / 0x10_0000_0000_0000) % 0x800 == 0x7ff && bits % 0x10_0000_0000_0000 != 0
}

/// Compares two encoded numbers: `a <= b`.
pub fn encoded_le(a: u64, b: u64) -> (r: bool)
    ensures
        r == num_le(a, b),
{
    if encoded_is_nan(a) || encoded_is_nan(b) {
        return false;
    }
    let a_neg = a >= 0x8000_0000_0000_0000;
    let b_neg = b >= 0x8000_0000_0000_0000;
    if a_neg && b_neg {
        b <= a
    } else if a_neg {
        true
    } else if b_neg {
        a == 0 && b == 0x8000_0000_0000_0000
    } else {
        a <= b
    }
}

/// Compares two encoded numbers: `a < b`.
pub fn encoded_lt(a: u64, b: u64) -> (r: bool)
    ensures
        r == num_lt(a, b),
{
    if encoded_is_nan(a) || encoded_is_nan(b) {
        return false;
    }
    let a_neg = a >= 0x8000_0000_0000_0000;
    let b_neg = b >= 0x8000_0000_0000_0000;
    if a_neg && b_neg {
        b < a
    } else if a_neg {
        !(a == 0x8000_0000_0000_0000 && b == 0)
    } else if b_neg {
        false
    } else {
        a < b
    }
}

} // verus!
