//! Total-order key mapping for 32-bit values.
//!
//! The sort engine works on `u32` keys under the native unsigned order. Other
//! element kinds are mapped into that key space by an order-preserving
//! bijection before sorting and mapped back afterwards.
//!
//! For IEEE-754 single-precision values the mapping takes the raw bit
//! pattern: patterns with the sign bit clear are lifted above the patterns
//! with the sign bit set (which are flipped end for end), so that the
//! unsigned order of the keys agrees with the numeric order of the floats
//! wherever the floats are ordered at all. NaN patterns carry no numeric
//! order; they end up above positive infinity (positive NaNs) or below
//! negative infinity (negative NaNs), and callers that care must screen them
//! out themselves.

use vstd::prelude::*;

verus! {

/// The key of a raw IEEE-754 bit pattern: sign-cleared patterns move up by
/// `2^31`, sign-set patterns are reversed below them.
pub open spec fn float_key_of(bits: u32) -> u32 {
    if bits >= 0x8000_0000 {
        (0xFFFF_FFFFu32 - bits) as u32
    } else {
        (bits + 0x8000_0000) as u32
    }
}

/// The raw bit pattern a key stands for: the inverse of [`float_key_of`].
pub open spec fn float_bits_of(key: u32) -> u32 {
    if key >= 0x8000_0000 {
        (key - 0x8000_0000) as u32
    } else {
        (0xFFFF_FFFFu32 - key) as u32
    }
}

/// Maps a raw float bit pattern to its totally ordered key.
pub fn float_ord_key(bits: u32) -> (k: u32)
    ensures
        k == float_key_of(bits),
{
    if bits >= 0x8000_0000 {
        proof {
            assert(!bits == 0xFFFF_FFFFu32 - bits) by (bit_vector);
        }
        !bits
    } else {
        proof {
            assert(bits < 0x8000_0000 ==> (bits ^ 0x8000_0000u32) == bits + 0x8000_0000u32)
                by (bit_vector);
        }
        bits ^ 0x8000_0000
    }
}

/// Maps a key back to the raw float bit pattern it came from.
pub fn float_ord_bits(key: u32) -> (bits: u32)
    ensures
        bits == float_bits_of(key),
{
    if key >= 0x8000_0000 {
        proof {
            assert(key >= 0x8000_0000 ==> (key ^ 0x8000_0000u32) == key - 0x8000_0000u32)
                by (bit_vector);
        }
        key ^ 0x8000_0000
    } else {
        proof {
            assert(!key == 0xFFFF_FFFFu32 - key) by (bit_vector);
        }
        !key
    }
}

/// Keying a bit pattern and mapping the key back returns the pattern, and
/// the other way round: the mapping is a bijection on `u32`.
pub proof fn lemma_float_key_bijective(bits: u32, key: u32)
    ensures
        float_bits_of(float_key_of(bits)) == bits,
        float_key_of(float_bits_of(key)) == key,
{
}

/// The key of a signed 32-bit value: shifting by `2^31` turns the signed
/// order into the unsigned order of the keys.
pub open spec fn int_key_of(v: i32) -> u32 {
    (v + 0x8000_0000) as u32
}

/// The signed value a key stands for: the inverse of [`int_key_of`].
pub open spec fn int_of_key(key: u32) -> i32 {
    (key - 0x8000_0000) as i32
}

/// Maps a signed 32-bit value to its totally ordered key.
pub fn int_ord_key(v: i32) -> (k: u32)
    ensures
        k == int_key_of(v),
{
    let wide: i64 = (v as i64) + 0x8000_0000;
    wide as u32
}

/// Maps a key back to the signed value it came from.
pub fn int_ord_value(key: u32) -> (v: i32)
    ensures
        v == int_of_key(key),
{
    let wide: i64 = (key as i64) - 0x8000_0000;
    wide as i32
}

/// The signed-value mapping preserves order exactly: two values compare the
/// same way their keys do.
pub proof fn lemma_int_key_monotone(a: i32, b: i32)
    ensures
        a <= b <==> int_key_of(a) <= int_key_of(b),
        int_of_key(int_key_of(a)) == a,
{
}

} // verus!
