use vstd::prelude::*;

verus! {

/// The bits of a 64-bit float other than its sign: for every value that is
/// not NaN they grow with the value's magnitude.
pub open spec fn magnitude_bits(bits: u64) -> u64 {
    bits & 0x7fff_ffff_ffff_ffff
}

/// The sign bit of a 64-bit float.
pub open spec fn sign_bit(bits: u64) -> bool {
    bits >= 0x8000_0000_0000_0000
}

/// Whether a 64-bit pattern encodes NaN: all exponent bits set and a nonzero
/// fraction.
pub open spec fn is_nan_bits(bits: u64) -> bool {
    magnitude_bits(bits) > 0x7ff0_0000_0000_0000
}

/// `a <= b` between two floats that are not NaN, given by their bit patterns:
/// the sign decides first, the magnitude then, and the two zeros are equal.
pub open spec fn float_bits_le(a: u64, b: u64) -> bool {
    if !sign_bit(a) && !sign_bit(b) {
        magnitude_bits(a) <= magnitude_bits(b)
    } else if sign_bit(a) && sign_bit(b) {
        magnitude_bits(b) <= magnitude_bits(a)
    } else if sign_bit(a) {
        true
    } else {
        magnitude_bits(a) == 0 && magnitude_bits(b) == 0
    }
}

/// The magnitude bits, negated for a negative float.
pub open spec fn signed_magnitude(bits: u64) -> int {
    if sign_bit(bits) {
        -(magnitude_bits(bits) as int)
    } else {
        magnitude_bits(bits) as int
    }
}

/// An integer that stands for a float in comparisons: `None` for NaN, which
/// compares with nothing, and otherwise its signed magnitude, so that both
/// zeros get the key 0.
pub fn order_key(bits: u64) -> (key: Option<i64>)
    ensures
        key is None <==> is_nan_bits(bits),
        key matches Some(k) ==> k == signed_magnitude(bits),
{
    let magnitude = bits & 0x7fff_ffff_ffff_ffff;
    assert(magnitude <= 0x7fff_ffff_ffff_ffff) by (bit_vector)
        requires
            magnitude == bits & 0x7fff_ffff_ffff_ffff,
    ;
    if magnitude > 0x7ff0_0000_0000_0000 {
        None
    } else if bits >= 0x8000_0000_0000_0000 {
        Some(-(magnitude as i64))
    } else {
        Some(magnitude as i64)
    }
}

/// Keys compare as the floats they stand for: for floats that are not NaN,
/// `key(a) <= key(b)` exactly when `a <= b`, and `key(a) == key(b)` exactly
/// when `a == b`.
pub proof fn lemma_order_key_preserves_order(a: u64, b: u64)
    requires
        !is_nan_bits(a),
        !is_nan_bits(b),
    ensures
        signed_magnitude(a) <= signed_magnitude(b) <==> float_bits_le(a, b),
        signed_magnitude(a) == signed_magnitude(b) <==> (float_bits_le(a, b) && float_bits_le(
            b,
            a,
        )),
{
}

} // verus!
