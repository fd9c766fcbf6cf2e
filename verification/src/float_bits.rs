//! Classification of IEEE 754 binary64 values from their bit pattern.

use vstd::prelude::*;

verus! {

/// Biased binary exponent field (11 bits) of a binary64 bit pattern.
pub open spec fn exponent_field(bits: u64) -> u64 {
    (bits >> 52u64) & 0x7ffu64
}

/// Stored significand field (52 bits) of a binary64 bit pattern.
pub open spec fn significand_field(bits: u64) -> u64 {
    bits & 0xf_ffff_ffff_ffffu64
}

/// Sign bit of a binary64 bit pattern.
pub open spec fn sign_bit(bits: u64) -> bool {
    (bits >> 63u64) == 1u64
}

/// The kinds of binary64 values that the formatter tells apart.
#[derive(PartialEq, Eq, Structural, Debug, Clone, Copy)]
pub enum FloatClass {
    Nan,
    Infinite,
    Zero,
    Finite,
}

/// The class of a bit pattern: all-ones exponent is NaN or an infinity,
/// all-zero exponent and significand is a (signed) zero, anything else is a
/// finite nonzero value (normal or subnormal).
pub open spec fn class_of(bits: u64) -> FloatClass {
    if exponent_field(bits) == 0x7ff {
        if significand_field(bits) != 0 { FloatClass::Nan } else { FloatClass::Infinite }
    } else if exponent_field(bits) == 0 && significand_field(bits) == 0 {
        FloatClass::Zero
    } else {
        FloatClass::Finite
    }
}

/// Returns whether the sign bit is set.
pub fn is_negative(bits: u64) -> (r: bool)
    ensures
        r == sign_bit(bits),
        r <==> bits >= 0x8000_0000_0000_0000u64,
{
    proof {
        law_sign_bit_is_top_bit(bits);
    }
    (bits >> 63u64) == 1u64
}

/// Classifies a binary64 bit pattern.
pub fn classify(bits: u64) -> (c: FloatClass)
    ensures
        c == class_of(bits),
        c == magnitude_class(bits & 0x7fff_ffff_ffff_ffffu64),
{
    proof {
        law_class_of_by_magnitude(bits);
    }
    let exp = (bits >> 52u64) & 0x7ffu64;
    let sig = bits & 0xf_ffff_ffff_ffffu64;
    if exp == 0x7ffu64 {
        if sig != 0 { FloatClass::Nan } else { FloatClass::Infinite }
    } else if exp == 0 && sig == 0 {
        FloatClass::Zero
    } else {
        FloatClass::Finite
    }
}


/// Biased binary exponent field (8 bits) of a binary32 bit pattern.
pub open spec fn exponent_field32(bits: u32) -> u32 {
    (bits >> 23u32) & 0xffu32
}

/// Stored significand field (23 bits) of a binary32 bit pattern.
pub open spec fn significand_field32(bits: u32) -> u32 {
    bits & 0x7f_ffffu32
}

/// Sign bit of a binary32 bit pattern.
pub open spec fn sign_bit32(bits: u32) -> bool {
    (bits >> 31u32) == 1u32
}

/// The class of a binary32 bit pattern, as for binary64.
pub open spec fn class_of32(bits: u32) -> FloatClass {
    if exponent_field32(bits) == 0xff {
        if significand_field32(bits) != 0 { FloatClass::Nan } else { FloatClass::Infinite }
    } else if exponent_field32(bits) == 0 && significand_field32(bits) == 0 {
        FloatClass::Zero
    } else {
        FloatClass::Finite
    }
}

/// Returns whether the sign bit of a binary32 bit pattern is set.
pub fn is_negative32(bits: u32) -> (r: bool)
    ensures
        r == sign_bit32(bits),
        r <==> bits >= 0x8000_0000u32,
{
    proof {
        law_sign_bit32_is_top_bit(bits);
    }
    (bits >> 31u32) == 1u32
}

/// Classifies a binary32 bit pattern.
pub fn classify32(bits: u32) -> (c: FloatClass)
    ensures
        c == class_of32(bits),
        c == magnitude_class32(bits & 0x7fff_ffffu32),
{
    proof {
        law_class_of32_by_magnitude(bits);
    }
    let exp = (bits >> 23u32) & 0xffu32;
    let sig = bits & 0x7f_ffffu32;
    if exp == 0xffu32 {
        if sig != 0 { FloatClass::Nan } else { FloatClass::Infinite }
    } else if exp == 0 && sig == 0 {
        FloatClass::Zero
    } else {
        FloatClass::Finite
    }
}


/// The IEEE 754 class of a binary64 value by its magnitude bits (the pattern
/// without the sign bit): `0` is zero, below `0x7ff0_0000_0000_0000` a
/// finite nonzero number, exactly that pattern infinity, above it NaN.
pub open spec fn magnitude_class(m: u64) -> FloatClass {
    if m == 0 {
        FloatClass::Zero
    } else if m < 0x7ff0_0000_0000_0000u64 {
        FloatClass::Finite
    } else if m == 0x7ff0_0000_0000_0000u64 {
        FloatClass::Infinite
    } else {
        FloatClass::Nan
    }
}

/// The same for binary32, whose infinity is `0x7f80_0000`.
pub open spec fn magnitude_class32(m: u32) -> FloatClass {
    if m == 0 {
        FloatClass::Zero
    } else if m < 0x7f80_0000u32 {
        FloatClass::Finite
    } else if m == 0x7f80_0000u32 {
        FloatClass::Infinite
    } else {
        FloatClass::Nan
    }
}

/// How the fields of a binary64 pattern relate to its magnitude bits.
proof fn lemma_fields_and_magnitude(bits: u64)
    by (bit_vector)
    ensures
        (bits & 0x7fff_ffff_ffff_ffffu64) == 0u64 <==> (((bits >> 52u64) & 0x7ffu64) == 0u64
            && (bits & 0xf_ffff_ffff_ffffu64) == 0u64),
        (bits & 0x7fff_ffff_ffff_ffffu64) < 0x7ff0_0000_0000_0000u64 <==> ((bits >> 52u64)
            & 0x7ffu64) != 0x7ffu64,
        (bits & 0x7fff_ffff_ffff_ffffu64) == 0x7ff0_0000_0000_0000u64 <==> (((bits >> 52u64)
            & 0x7ffu64) == 0x7ffu64 && (bits & 0xf_ffff_ffff_ffffu64) == 0u64),
        ((bits >> 63u64) == 1u64) <==> bits >= 0x8000_0000_0000_0000u64,
{
}

/// How the fields of a binary32 pattern relate to its magnitude bits.
proof fn lemma_fields_and_magnitude32(bits: u32)
    by (bit_vector)
    ensures
        (bits & 0x7fff_ffffu32) == 0u32 <==> (((bits >> 23u32) & 0xffu32) == 0u32 && (bits
            & 0x7f_ffffu32) == 0u32),
        (bits & 0x7fff_ffffu32) < 0x7f80_0000u32 <==> ((bits >> 23u32) & 0xffu32) != 0xffu32,
        (bits & 0x7fff_ffffu32) == 0x7f80_0000u32 <==> (((bits >> 23u32) & 0xffu32) == 0xffu32
            && (bits & 0x7f_ffffu32) == 0u32),
        ((bits >> 31u32) == 1u32) <==> bits >= 0x8000_0000u32,
{
}

/// The class of a binary64 pattern is its IEEE 754 class: zero exactly when
/// every bit but the sign is clear, NaN exactly when the magnitude bits
/// exceed those of infinity, and finite nonzero for every other pattern
/// whose exponent field is not all ones.
pub proof fn law_class_of_by_magnitude(bits: u64)
    ensures
        class_of(bits) == magnitude_class(bits & 0x7fff_ffff_ffff_ffffu64),
        class_of(bits) == FloatClass::Zero <==> (bits == 0u64 || bits
            == 0x8000_0000_0000_0000u64),
        class_of(bits) == FloatClass::Infinite <==> (bits == 0x7ff0_0000_0000_0000u64 || bits
            == 0xfff0_0000_0000_0000u64),
{
    lemma_fields_and_magnitude(bits);
    assert((bits & 0x7fff_ffff_ffff_ffffu64) == 0u64 <==> (bits == 0u64 || bits
        == 0x8000_0000_0000_0000u64)) by (bit_vector);
    assert((bits & 0x7fff_ffff_ffff_ffffu64) == 0x7ff0_0000_0000_0000u64 <==> (bits
        == 0x7ff0_0000_0000_0000u64 || bits == 0xfff0_0000_0000_0000u64)) by (bit_vector);
}

/// The class of a binary32 pattern is its IEEE 754 class.
pub proof fn law_class_of32_by_magnitude(bits: u32)
    ensures
        class_of32(bits) == magnitude_class32(bits & 0x7fff_ffffu32),
        class_of32(bits) == FloatClass::Zero <==> (bits == 0u32 || bits == 0x8000_0000u32),
        class_of32(bits) == FloatClass::Infinite <==> (bits == 0x7f80_0000u32 || bits
            == 0xff80_0000u32),
{
    lemma_fields_and_magnitude32(bits);
    assert((bits & 0x7fff_ffffu32) == 0u32 <==> (bits == 0u32 || bits == 0x8000_0000u32))
        by (bit_vector);
    assert((bits & 0x7fff_ffffu32) == 0x7f80_0000u32 <==> (bits == 0x7f80_0000u32 || bits
        == 0xff80_0000u32)) by (bit_vector);
}

/// The sign of a binary64 pattern is its top bit: set exactly for the
/// patterns from `0x8000_0000_0000_0000` up.
pub proof fn law_sign_bit_is_top_bit(bits: u64)
    ensures
        sign_bit(bits) <==> bits >= 0x8000_0000_0000_0000u64,
{
    lemma_fields_and_magnitude(bits);
}

/// The sign of a binary32 pattern is its top bit.
pub proof fn law_sign_bit32_is_top_bit(bits: u32)
    ensures
        sign_bit32(bits) <==> bits >= 0x8000_0000u32,
{
    lemma_fields_and_magnitude32(bits);
}

} // verus!
