use vstd::prelude::*;

verus! {

// A similarity score is an IEEE-754 single-precision number, handled here by
// its 32-bit pattern: the sign bit, then 8 exponent bits, then 23 mantissa bits.
/// The sign bit of a bit pattern.
pub open spec fn is_negative_bits(b: u32) -> bool {
    b >= 0x8000_0000
}

/// Exponent and mantissa taken together as one unsigned integer. For numbers
/// of one sign, a larger magnitude field is a larger absolute value.
pub open spec fn magnitude_bits(b: u32) -> int {
    b as int % 0x8000_0000
}

/// The bit pattern of a NaN: all exponent bits set and a nonzero mantissa.
pub open spec fn is_nan_bits(b: u32) -> bool {
    magnitude_bits(b) > 0x7F80_0000
}

/// Whether two non-NaN patterns denote the same number (`+0` equals `-0`).
pub open spec fn float_eq(a: u32, b: u32) -> bool {
    a == b || (magnitude_bits(a) == 0 && magnitude_bits(b) == 0)
}

/// Whether the number with pattern `a` is below the one with pattern `b`,
/// for non-NaN patterns.
pub open spec fn float_lt(a: u32, b: u32) -> bool {
    if float_eq(a, b) {
        false
    } else if !is_negative_bits(a) && !is_negative_bits(b) {
        magnitude_bits(a) < magnitude_bits(b)
    } else if is_negative_bits(a) && is_negative_bits(b) {
        magnitude_bits(a) > magnitude_bits(b)
    } else {
        is_negative_bits(a)
    }
}

/// The key of a non-NaN pattern: negative numbers below `2^31`, zero at `2^31`
/// and positive numbers above it.
pub open spec fn key_of(b: u32) -> int {
    if magnitude_bits(b) == 0 {
        0x8000_0000
    } else if is_negative_bits(b) {
        0x7FFF_FFFF - magnitude_bits(b)
    } else {
        0x8000_0000 + magnitude_bits(b)
    }
}

/// Maps the bit pattern of a score to an unsigned key that orders as the
/// scores do, or to `None` for a NaN, which has no place in a ranking.
pub fn order_key(bits: u32) -> (r: Option<u32>)
    ensures
        r is None <==> is_nan_bits(bits),
        r matches Some(key) ==> key == key_of(bits),
{
    let magnitude: u32 = bits % 0x8000_0000;
    if magnitude > 0x7F80_0000 {
        None
    } else if magnitude == 0 {
        Some(0x8000_0000)
    } else if bits >= 0x8000_0000 {
        Some(0x7FFF_FFFF - magnitude)
    } else {
        Some(0x8000_0000 + magnitude)
    }
}

/// Keys order exactly as the numbers do: for two non-NaN scores, one key is
/// below the other precisely when its score is below the other's, and the
/// keys are equal precisely when the scores are.
pub proof fn lemma_key_order(a: u32, b: u32)
    requires
        !is_nan_bits(a),
        !is_nan_bits(b),
    ensures
        key_of(a) < key_of(b) <==> float_lt(a, b),
        key_of(a) == key_of(b) <==> float_eq(a, b),
{
}

} // verus!
