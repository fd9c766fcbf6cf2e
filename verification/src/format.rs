//! Formatting a binary64 or binary32 value the way ECMAScript's
//! `Number::prototype.toString()` does.
//!
//! The value is given by its bit pattern, which decides NaN, the infinities,
//! the zeros and the sign, together with its shortest round-trip decimal
//! `mantissa * 10^exponent` (correctly rounded, ties to even), which is
//! computed from the floating-point value outside this crate.

use vstd::prelude::*;
use crate::digits::{
    digit_values, lemma_digit_values, lemma_strip_zeros, push_digit_values, strip_trailing_zeros,
    strip_zeros, trailing_zeros,
};
use crate::ecma::{ecma_text, write_decimal, BUFFER_SIZE};
use crate::laws::{
    law_write_ecma32_fits_buffer, law_write_ecma32_is_number_to_string, law_write_ecma_fits_buffer,
    law_write_ecma_is_number_to_string,
};
use crate::shortest::{is_ecma_decimal, is_ecma_decimal32, number_to_string, number_to_string32};
use crate::float_bits::{
    class_of, class_of32, classify, classify32, is_negative, is_negative32, sign_bit, sign_bit32,
    FloatClass,
};

verus! {

/// Text of a NaN.
pub open spec fn nan_text() -> Seq<u8> {
    seq![78u8, 97u8, 78u8]  // "NaN"
}

/// Text of positive infinity.
pub open spec fn infinity_text() -> Seq<u8> {
    seq![73u8, 110u8, 102u8, 105u8, 110u8, 105u8, 116u8, 121u8]  // "Infinity"
}

/// Text of negative infinity.
pub open spec fn neg_infinity_text() -> Seq<u8> {
    seq![45u8] + infinity_text()
}

/// Text of a zero of either sign.
pub open spec fn zero_text() -> Seq<u8> {
    seq![48u8]
}

/// The shortest digits of `m * 10^x` (`m > 0`): those of `m` without its
/// trailing zeros.
pub open spec fn shortest_digits_of(m: nat) -> Seq<u8> {
    digit_values(strip_zeros(m))
}

/// The decimal exponent of `m * 10^x` in scientific form `d.ddd * 10^e`.
pub open spec fn scientific_exp(m: nat, x: int) -> int {
    x + trailing_zeros(m) + shortest_digits_of(m).len() - 1
}

/// ECMAScript text of the number `(-1)^negative * m * 10^x`: `0` for `m == 0`.
pub open spec fn decimal_text(negative: bool, m: nat, x: int) -> Seq<u8> {
    if m == 0 {
        zero_text()
    } else {
        ecma_text(negative, shortest_digits_of(m), scientific_exp(m, x))
    }
}

/// ECMAScript text of a value of class `class` and sign `negative` whose
/// shortest decimal is `mantissa * 10^exponent` (only used for finite
/// nonzero values).
pub open spec fn classified_text(
    class: FloatClass,
    negative: bool,
    mantissa: nat,
    exponent: int,
) -> Seq<u8> {
    match class {
        FloatClass::Nan => nan_text(),
        FloatClass::Infinite => if negative {
            neg_infinity_text()
        } else {
            infinity_text()
        },
        FloatClass::Zero => zero_text(),
        FloatClass::Finite => decimal_text(negative, mantissa, exponent),
    }
}

/// ECMAScript text of the binary64 value with bit pattern `bits` whose
/// shortest decimal is `mantissa * 10^exponent`.
pub open spec fn number_text(bits: u64, mantissa: nat, exponent: int) -> Seq<u8> {
    classified_text(class_of(bits), sign_bit(bits), mantissa, exponent)
}

/// ECMAScript text of the binary32 value with bit pattern `bits` whose
/// shortest decimal is `mantissa * 10^exponent`.
pub open spec fn number_text32(bits: u32, mantissa: nat, exponent: int) -> Seq<u8> {
    classified_text(class_of32(bits), sign_bit32(bits), mantissa, exponent)
}

/// Writes `(-1)^negative * mantissa * 10^exponent` in the ECMA-262 layout:
/// trailing zeros of `mantissa` are dropped and the remaining digits laid
/// out; zero is written `0` whatever its sign.
pub fn write_decimal_number(negative: bool, mantissa: u64, exponent: i32) -> (out: Vec<u8>)
    ensures
        out@ == decimal_text(negative, mantissa as nat, exponent as int),
{
    if mantissa == 0 {
        let mut out: Vec<u8> = Vec::new();
        out.push(48u8);
        assert(out@ =~= zero_text());
        return out;
    }
    let (m, z) = strip_trailing_zeros(mantissa);
    proof {
        lemma_strip_zeros(mantissa as nat);
        lemma_digit_values(m as nat);
    }
    let mut ds: Vec<u8> = Vec::new();
    push_digit_values(&mut ds, m);
    assert(ds@ =~= shortest_digits_of(mantissa as nat));
    let k = ds.len();
    assert(k <= 20) by {
        crate::digits::lemma_nat_text(m as nat);
        assert(m < crate::digits::pow10(20)) by {
            reveal_with_fuel(crate::digits::pow10, 21);
        }
        crate::digits::lemma_nat_text_len(m as nat, 20);
    }
    let e: i64 = exponent as i64 + z as i64 + k as i64 - 1;
    write_decimal(negative, ds.as_slice(), e)
}

/// Writes a value of class `class` and sign `negative` whose shortest
/// round-trip decimal is `mantissa * 10^exponent` (only read for finite
/// nonzero values): `NaN` for every NaN, `Infinity` or `-Infinity`, `0` for
/// either zero, and otherwise the ECMA-262 layout of the decimal with the
/// sign.
pub fn write_classified(
    class: FloatClass,
    negative: bool,
    mantissa: u64,
    exponent: i32,
) -> (out: Vec<u8>)
    ensures
        out@ == classified_text(class, negative, mantissa as nat, exponent as int),
{
    let mut out: Vec<u8> = Vec::new();
    match class {
        FloatClass::Nan => {
            out.push(78u8);
            out.push(97u8);
            out.push(78u8);
            assert(out@ =~= nan_text());
            out
        },
        FloatClass::Infinite => {
            if negative {
                out.push(45u8);
            }
            out.push(73u8);
            out.push(110u8);
            out.push(102u8);
            out.push(105u8);
            out.push(110u8);
            out.push(105u8);
            out.push(116u8);
            out.push(121u8);
            assert(out@ =~= (if negative { neg_infinity_text() } else { infinity_text() }));
            out
        },
        FloatClass::Zero => {
            // -0 and +0 both print as "0".
            out.push(48u8);
            assert(out@ =~= zero_text());
            out
        },
        FloatClass::Finite => write_decimal_number(negative, mantissa, exponent),
    }
}

/// Writes the binary64 value with bit pattern `bits` whose shortest
/// round-trip decimal is `mantissa * 10^exponent` (only read for finite
/// nonzero values). When that decimal is the one ECMA-262 chooses
/// (`shortest::is_ecma_decimal`, which exists and is unique for every finite
/// value: `laws::law_ecma_decimal_exists`), the text is ECMA-262
/// `Number::toString` of the value, 1 to `BUFFER_SIZE` bytes.
pub fn write_ecma(bits: u64, mantissa: u64, exponent: i32) -> (out: Vec<u8>)
    ensures
        out@ == number_text(bits, mantissa as nat, exponent as int),
        (class_of(bits) == FloatClass::Finite ==> is_ecma_decimal(
            bits,
            mantissa as nat,
            exponent as int,
        )) ==> out@ == number_to_string(bits) && 1 <= out@.len() <= BUFFER_SIZE,
{
    proof {
        if class_of(bits) == FloatClass::Finite ==> is_ecma_decimal(
            bits,
            mantissa as nat,
            exponent as int,
        ) {
            law_write_ecma_is_number_to_string(bits, mantissa as nat, exponent as int);
            law_write_ecma_fits_buffer(bits, mantissa as nat, exponent as int);
        }
    }
    write_classified(classify(bits), is_negative(bits), mantissa, exponent)
}

/// Writes the binary32 value with bit pattern `bits` whose shortest
/// round-trip decimal is `mantissa * 10^exponent` (only read for finite
/// nonzero values); given ECMA-262's decimal of the value
/// (`laws::law_ecma_decimal_exists32`), the text is ECMA-262
/// `Number::toString` of the value, 1 to `BUFFER_SIZE` bytes.
pub fn write_ecma32(bits: u32, mantissa: u32, exponent: i32) -> (out: Vec<u8>)
    ensures
        out@ == number_text32(bits, mantissa as nat, exponent as int),
        (class_of32(bits) == FloatClass::Finite ==> is_ecma_decimal32(
            bits,
            mantissa as nat,
            exponent as int,
        )) ==> out@ == number_to_string32(bits) && 1 <= out@.len() <= BUFFER_SIZE,
{
    proof {
        if class_of32(bits) == FloatClass::Finite ==> is_ecma_decimal32(
            bits,
            mantissa as nat,
            exponent as int,
        ) {
            law_write_ecma32_is_number_to_string(bits, mantissa as nat, exponent as int);
            law_write_ecma32_fits_buffer(bits, mantissa as nat, exponent as int);
        }
    }
    write_classified(classify32(bits), is_negative32(bits), mantissa as u64, exponent)
}

} // verus!
