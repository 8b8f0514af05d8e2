use vstd::prelude::*;

verus! {

/// The sign bit of an IEEE 754 binary32 bit pattern.
pub open spec fn sign_bit(bits: u32) -> bool {
    bits >= 0x8000_0000
}

/// The bits of an IEEE 754 binary32 pattern below the sign bit
/// (exponent and fraction together).
pub open spec fn magnitude(bits: u32) -> int {
    if sign_bit(bits) { bits - 0x8000_0000 } else { bits as int }
}

/// The position of a bit pattern in sign-magnitude order. For every pattern
/// that is not a NaN, this is the order of the binary32 values themselves:
/// `-0.0` and `+0.0` share the position 0, and the infinities are the ends.
pub open spec fn signed_magnitude(bits: u32) -> int {
    if sign_bit(bits) { -magnitude(bits) } else { magnitude(bits) }
}

/// A binary32 pattern is a NaN when its exponent is all ones and its
/// fraction is not zero.
pub open spec fn is_nan_bits(bits: u32) -> bool {
    magnitude(bits) > 0x7f80_0000
}

/// Maps a binary32 bit pattern to an unsigned key whose integer order is the
/// sign-magnitude order of the pattern: `-0.0` and `+0.0` get the same key.
pub fn order_key(bits: u32) -> (key: u32)
    ensures
        key as int == signed_magnitude(bits) + 0x8000_0000,
{
    if bits >= 0x8000_0000 {
        0x8000_0000 - (bits - 0x8000_0000)
    } else {
        0x8000_0000 + bits
    }
}

/// Whether a binary32 bit pattern is a NaN.
pub fn is_nan(bits: u32) -> (r: bool)
    ensures
        r == is_nan_bits(bits),
        r == ((bits & 0x7f80_0000) == 0x7f80_0000 && (bits & 0x007f_ffff) != 0),
{
    proof {
        lemma_nan_fields(bits);
    }
    let m: u32 = if bits >= 0x8000_0000 { bits - 0x8000_0000 } else { bits };
    m > 0x7f80_0000
}

/// Two bit patterns share a key exactly when they are the same pattern or
/// both are zeros (`-0.0` and `+0.0`).
pub proof fn lemma_same_key(a: u32, b: u32)
    ensures
        signed_magnitude(a) == signed_magnitude(b) <==> (a == b || (magnitude(a) == 0
            && magnitude(b) == 0)),
{
}

/// A pattern is a NaN exactly when its exponent field is all ones and its
/// fraction field is not zero; so no finite value and no infinity is a NaN.
pub proof fn lemma_nan_fields(bits: u32)
    ensures
        is_nan_bits(bits) == ((bits & 0x7f80_0000) == 0x7f80_0000 && (bits & 0x007f_ffff) != 0),
        (bits & 0x7f80_0000) != 0x7f80_0000 ==> !is_nan_bits(bits),
{
    let m: u32 = if bits >= 0x8000_0000 { (bits - 0x8000_0000) as u32 } else { bits };
    assert(m as int == magnitude(bits));
    assert(m == bits & 0x7fff_ffff) by (bit_vector)
        requires
            m == if bits >= 0x8000_0000 { (bits - 0x8000_0000) as u32 } else { bits },
    ;
    assert((m > 0x7f80_0000) == ((bits & 0x7f80_0000) == 0x7f80_0000 && (bits & 0x007f_ffff) != 0))
        by (bit_vector)
        requires
            m == bits & 0x7fff_ffff,
    ;
}

/// The sign-magnitude position, and so the key of `order_key`, follows the
/// binary32 order of the values: among patterns without the sign bit a larger
/// pattern is a larger value; among patterns with the sign bit a larger pattern
/// is a smaller value; every negative value is below every positive one; and
/// the two zeros are the same place.
pub proof fn lemma_order_key_monotone(a: u32, b: u32)
    ensures
        a < b < 0x8000_0000 ==> signed_magnitude(a) < signed_magnitude(b),
        0x8000_0000 <= a < b ==> signed_magnitude(b) < signed_magnitude(a),
        a >= 0x8000_0000 && b < 0x8000_0000 && !(a == 0x8000_0000 && b == 0) ==> signed_magnitude(a)
            < signed_magnitude(b),
        signed_magnitude(0x8000_0000) == signed_magnitude(0),
        0 <= signed_magnitude(a) + 0x8000_0000 <= u32::MAX,
{
}

} // verus!
