//! Properties of the formatter that span its functions or all its inputs.

use vstd::prelude::*;
use crate::digits::{
    digit_chars, digit_values, digits_after_point, is_digit_char, lemma_digit_values,
    lemma_digit_values_strip, lemma_digits_after_point, lemma_nat_text, lemma_nat_text_len,
    lemma_no_digits_after_point, lemma_pow10_add, lemma_strip_zeros, lemma_text_value_concat,
    lemma_text_value_zeros, lemma_without_point_concat, lemma_without_point_id, pow10, strip_zeros,
    text_value, trailing_zeros, without_point, zeros,
};
use crate::ecma::{
    ecma_text, ecma_unsigned, exponential_text, fraction_text, is_fixed_exp, valid_digits,
    BUFFER_SIZE,
};
use crate::float_bits::{
    class_of, class_of32, exponent_field, exponent_field32, law_class_of32_by_magnitude,
    law_class_of_by_magnitude, law_sign_bit32_is_top_bit, law_sign_bit_is_top_bit,
    magnitude_class, magnitude_class32, sign_bit, sign_bit32, significand_field,
    significand_field32, FloatClass,
};
use vstd::arithmetic::power2::pow2;
use crate::shortest::{
    chosen_decimal, exponent32, exponent64, is_ecma_decimal, is_ecma_decimal32,
    lemma_chosen_digits, lemma_chosen_exists, lemma_chosen_exponent, lemma_chosen_unique,
    lemma_classified_is_ecma, narrow32, narrow64, num_digits, number_to_string,
    number_to_string32, rounds_to, significand32, significand64,
};
use crate::format::{
    classified_text, decimal_text, number_text, number_text32, scientific_exp, shortest_digits_of,
    zero_text,
};

verus! {

/// Flipping the sign bit keeps the exponent and significand fields and flips
/// the sign.
pub proof fn lemma_flip_sign_fields(bits: u64)
    ensures
        exponent_field(bits ^ 0x8000_0000_0000_0000u64) == exponent_field(bits),
        significand_field(bits ^ 0x8000_0000_0000_0000u64) == significand_field(bits),
        sign_bit(bits ^ 0x8000_0000_0000_0000u64) == !sign_bit(bits),
        class_of(bits ^ 0x8000_0000_0000_0000u64) == class_of(bits),
{
    assert(((bits ^ 0x8000_0000_0000_0000u64) >> 52u64) & 0x7ffu64 == (bits >> 52u64) & 0x7ffu64)
        by (bit_vector);
    assert((bits ^ 0x8000_0000_0000_0000u64) & 0xf_ffff_ffff_ffffu64 == bits
        & 0xf_ffff_ffff_ffffu64) by (bit_vector);
    assert(((bits ^ 0x8000_0000_0000_0000u64) >> 63u64 == 1u64) == !(bits >> 63u64 == 1u64))
        by (bit_vector);
}

/// NaNs and zeros print the same whatever their sign: every NaN is `NaN` and
/// both `0` and `-0` are `0`.
pub proof fn law_sign_of_nan_and_zero_ignored(bits: u64, mantissa: nat, exponent: int)
    requires
        class_of(bits) == FloatClass::Nan || class_of(bits) == FloatClass::Zero,
    ensures
        number_text(bits ^ 0x8000_0000_0000_0000u64, mantissa, exponent) == number_text(
            bits,
            mantissa,
            exponent,
        ),
        class_of(bits) == FloatClass::Zero ==> number_text(bits, mantissa, exponent)
            == zero_text(),
{
    lemma_flip_sign_fields(bits);
}

/// Negating a nonzero number (finite or infinite) prefixes its text with `-`.
pub proof fn law_negation_prefixes_minus(bits: u64, mantissa: nat, exponent: int)
    requires
        class_of(bits) == FloatClass::Finite && mantissa > 0 || class_of(bits)
            == FloatClass::Infinite,
        !sign_bit(bits),
    ensures
        number_text(bits ^ 0x8000_0000_0000_0000u64, mantissa, exponent) == seq![45u8]
            + number_text(bits, mantissa, exponent),
{
    lemma_flip_sign_fields(bits);
    let ds = shortest_digits_of(mantissa);
    let e = scientific_exp(mantissa, exponent);
    assert(seq![45u8] + ecma_text(false, ds, e) =~= ecma_text(true, ds, e));
}

/// Digit values render to digit characters.
pub proof fn lemma_digit_chars(ds: Seq<u8>)
    requires
        crate::digits::all_digits(ds),
    ensures
        digit_chars(ds).len() == ds.len(),
        forall|i: int| 0 <= i < ds.len() ==> is_digit_char(#[trigger] digit_chars(ds)[i]),
{
    assert forall|i: int| 0 <= i < ds.len() implies is_digit_char(#[trigger] digit_chars(ds)[i]) by {
        assert(ds[i] < 10);
    }
}

/// Fixed notation is used exactly for decimal exponents from -6 to 20; all
/// other exponents get exponential notation (the only case with an `e`).
pub proof fn law_fixed_notation_range(ds: Seq<u8>, e: int)
    requires
        valid_digits(ds),
    ensures
        ecma_unsigned(ds, e).contains(101u8) <==> !is_fixed_exp(e),
{
    let t = ecma_unsigned(ds, e);
    let k = ds.len() as int;
    let n = e + 1;
    lemma_digit_chars(ds);
    if 0 < n < k {
        assert(digit_chars(ds.take(n)) =~= digit_chars(ds).take(n));
        assert(digit_chars(ds.skip(n)) =~= digit_chars(ds).skip(n));
    }
    if is_fixed_exp(e) {
        assert forall|i: int| 0 <= i < t.len() implies t[i] != 101u8 by {
            if k <= n && n <= 21 {
                if i >= k {
                    assert(t[i] == zeros((n - k) as nat)[i - k]);
                } else {
                    assert(t[i] == digit_chars(ds)[i]);
                }
            } else if 0 < n {
                if i < n {
                    assert(t[i] == digit_chars(ds.take(n))[i]);
                } else if i > n {
                    assert(t[i] == digit_chars(ds.skip(n))[i - n - 1]);
                }
            } else {
                if 2 <= i < 2 - n {
                    assert(t[i] == zeros((-n) as nat)[i - 2]);
                } else if i >= 2 - n {
                    assert(t[i] == digit_chars(ds)[i - (2 - n)]);
                }
            }
        }
    } else {
        let f = fraction_text(ds);
        assert(t == exponential_text(ds, e));
        assert(t[1 + f.len() as int] == 101u8);
    }
}

/// In fixed notation an integer is printed without a decimal point (no `.0`
/// suffix), and a number with a fractional part is printed with a point and
/// without trailing zeros.
pub proof fn law_fixed_point_and_trailing_zeros(ds: Seq<u8>, e: int)
    requires
        crate::ecma::shortest_digits(ds),
        is_fixed_exp(e),
    ensures
        ecma_unsigned(ds, e).contains(46u8) <==> e + 1 < ds.len(),
        e + 1 < ds.len() ==> ecma_unsigned(ds, e).last() != 48u8,
{
    let t = ecma_unsigned(ds, e);
    let k = ds.len() as int;
    let n = e + 1;
    lemma_digit_chars(ds);
    if 0 < n < k {
        assert(digit_chars(ds.take(n)) =~= digit_chars(ds).take(n));
        assert(digit_chars(ds.skip(n)) =~= digit_chars(ds).skip(n));
    }
    if k <= n {
        assert forall|i: int| 0 <= i < t.len() implies t[i] != 46u8 by {
            if i >= k {
                assert(t[i] == zeros((n - k) as nat)[i - k]);
            } else {
                assert(t[i] == digit_chars(ds)[i]);
            }
        }
    } else if 0 < n {
        assert(t[n] == 46u8);
        assert(t.last() == digit_chars(ds.skip(n)).last());
        assert(ds.skip(n).last() == ds.last());
    } else {
        assert(t[1] == 46u8);
        assert(t.last() == digit_chars(ds).last());
    }
}

/// A decimal of at most 17 digits with an exponent of at most three digits
/// is written in at most `BUFFER_SIZE` bytes.
pub proof fn lemma_output_fits_buffer(negative: bool, ds: Seq<u8>, e: int)
    requires
        valid_digits(ds),
        ds.len() <= 17,
        -999 <= e <= 999,
    ensures
        ecma_text(negative, ds, e).len() <= BUFFER_SIZE,
{
    let a = if e < 0 { -e } else { e };
    assert(pow10(3) == 1000) by {
        reveal_with_fuel(pow10, 4);
    }
    crate::digits::lemma_nat_text_len(a as nat, 3);
}


/// Fixed notation denotes the same number as the decimal: read without its
/// point, the text is the digits scaled by the trailing zeros, and the number
/// of digits after the point is the number of fractional digits. That is,
/// `value(text) = value(digits) * 10^(e + 1 - k)`.
pub proof fn law_fixed_notation_value(ds: Seq<u8>, e: int)
    requires
        valid_digits(ds),
        is_fixed_exp(e),
    ensures
        ({
            let t = ecma_unsigned(ds, e);
            let k = ds.len() as int;
            let n = e + 1;
            &&& text_value(without_point(t)) == text_value(digit_chars(ds)) * pow10(
                if n >= k { (n - k) as nat } else { 0 },
            )
            &&& digits_after_point(t) == (if n >= k { 0 } else { k - n })
        }),
{
    let t = ecma_unsigned(ds, e);
    let k = ds.len() as int;
    let n = e + 1;
    let dc = digit_chars(ds);
    lemma_digit_chars(ds);
    assert(!dc.contains(46)) by {
        if dc.contains(46) {
            let i = choose|i: int| 0 <= i < dc.len() && dc[i] == 46;
            assert(is_digit_char(dc[i]));
        }
    }
    lemma_without_point_id(dc);
    if k <= n {
        let z = zeros((n - k) as nat);
        assert(!z.contains(46)) by {
            if z.contains(46) {
                let i = choose|i: int| 0 <= i < z.len() && z[i] == 46;
            }
        }
        assert(t == dc + z);
        assert(!t.contains(46)) by {
            if t.contains(46) {
                let i = choose|i: int| 0 <= i < t.len() && t[i] == 46;
                if i < k {
                    assert(t[i] == dc[i]);
                } else {
                    assert(t[i] == z[i - k]);
                }
            }
        }
        lemma_without_point_id(t);
        lemma_no_digits_after_point(t);
        lemma_text_value_concat(dc, z);
        lemma_text_value_zeros((n - k) as nat);
        assert(text_value(without_point(t)) == text_value(dc) * pow10((n - k) as nat));
        assert(digits_after_point(t) == 0);
    } else if 0 < n {
        let a = digit_chars(ds.take(n));
        let b = digit_chars(ds.skip(n));
        assert(a =~= dc.take(n));
        assert(b =~= dc.skip(n));
        assert(!a.contains(46)) by {
            if a.contains(46) {
                let i = choose|i: int| 0 <= i < a.len() && a[i] == 46;
                assert(a[i] == dc[i]);
            }
        }
        assert(!b.contains(46)) by {
            if b.contains(46) {
                let i = choose|i: int| 0 <= i < b.len() && b[i] == 46;
                assert(b[i] == dc[i + n]);
            }
        }
        assert(t == a + seq![46u8] + b);
        lemma_without_point_concat(a + seq![46u8], b);
        lemma_without_point_concat(a, seq![46u8]);
        lemma_without_point_id(a);
        lemma_without_point_id(b);
        assert(without_point(seq![46u8]) =~= Seq::<u8>::empty()) by {
            assert(seq![46u8].drop_last() =~= Seq::<u8>::empty());
            assert(seq![46u8].last() == 46);
            assert(without_point(Seq::<u8>::empty()) =~= Seq::<u8>::empty());
        }
        assert(without_point(t) =~= dc);
        lemma_digits_after_point(a, b);
        assert(pow10(0) == 1);
        assert(text_value(without_point(t)) == text_value(dc) * pow10(0));
        assert(digits_after_point(t) == k - n);
    } else {
        let z = zeros((-n) as nat);
        assert(!z.contains(46)) by {
            if z.contains(46) {
                let i = choose|i: int| 0 <= i < z.len() && z[i] == 46;
            }
        }
        let b = z + dc;
        assert(!b.contains(46)) by {
            if b.contains(46) {
                let i = choose|i: int| 0 <= i < b.len() && b[i] == 46;
                if i < z.len() {
                    assert(b[i] == z[i]);
                } else {
                    assert(b[i] == dc[i - z.len()]);
                }
            }
        }
        assert(t =~= seq![48u8] + seq![46u8] + b);
        lemma_without_point_concat(seq![48u8] + seq![46u8], b);
        lemma_without_point_concat(seq![48u8], seq![46u8]);
        assert(without_point(seq![46u8]) =~= Seq::<u8>::empty()) by {
            assert(seq![46u8].drop_last() =~= Seq::<u8>::empty());
            assert(seq![46u8].last() == 46);
            assert(without_point(Seq::<u8>::empty()) =~= Seq::<u8>::empty());
        }
        assert(without_point(seq![48u8]) =~= seq![48u8]) by {
            assert(seq![48u8].drop_last() =~= Seq::<u8>::empty());
            assert(seq![48u8].last() == 48);
            assert(without_point(Seq::<u8>::empty()) =~= Seq::<u8>::empty());
            assert(Seq::<u8>::empty().push(48u8) =~= seq![48u8]);
        }
        lemma_without_point_id(b);
        assert(without_point(t) =~= seq![48u8] + b);
        lemma_digits_after_point(seq![48u8], b);
        assert forall|i: int| 0 <= i < b.len() implies is_digit_char(#[trigger] b[i]) by {
            if i >= z.len() {
                assert(b[i] == dc[i - z.len()]);
            }
        }
        assert forall|i: int| 0 <= i < dc.len() implies is_digit_char(#[trigger] dc[i]) by {}
        lemma_text_value_concat(seq![48u8], b);
        lemma_text_value_concat(z, dc);
        lemma_text_value_zeros((-n) as nat);
        assert(text_value(seq![48u8]) == 0) by {
            assert(seq![48u8].drop_last() =~= Seq::<u8>::empty());
            assert(seq![48u8].last() == 48);
            assert(text_value(Seq::<u8>::empty()) == 0);
        }
        assert(pow10(0) == 1);
        assert(text_value(seq![48u8] + b) == 0 * pow10(b.len()) + text_value(b));
        assert(text_value(seq![48u8] + b) == text_value(b));
        assert(text_value(without_point(t)) == text_value(b));
        assert(text_value(z + dc) == text_value(z) * pow10(dc.len()) + text_value(dc));
        assert(text_value(z) * pow10(dc.len()) == 0) by (nonlinear_arith)
            requires
                text_value(z) == 0,
        ;
        assert(text_value(b) == text_value(dc));
        assert(text_value(dc) * pow10(0) == text_value(dc)) by (nonlinear_arith)
            requires
                pow10(0) == 1,
        ;
        assert(text_value(without_point(t)) == text_value(dc) * pow10(0));
        assert(digits_after_point(t) == k - n);
    }
}


/// `a * 10^p == b * 10^q` (exponents of either sign).
pub open spec fn same_number(a: nat, p: int, b: nat, q: int) -> bool {
    if p >= q {
        a * pow10((p - q) as nat) == b
    } else {
        a == b * pow10((q - p) as nat)
    }
}

/// The shortest digits of a positive mantissa: no leading or trailing zero,
/// and followed by the stripped zeros they give back the mantissa.
pub proof fn lemma_shortest_digits_of(m: nat)
    requires
        m > 0,
    ensures
        crate::ecma::shortest_digits(shortest_digits_of(m)),
        text_value(digit_chars(shortest_digits_of(m))) * pow10(trailing_zeros(m)) == m,
        text_value(digit_chars(shortest_digits_of(m))) == strip_zeros(m),
        shortest_digits_of(m).len() + trailing_zeros(m) == digit_values(m).len(),
{
    lemma_strip_zeros(m);
    let s = strip_zeros(m);
    lemma_digit_values(s);
    lemma_nat_text(s);
    lemma_digit_values_strip(m);
}

/// `V * 10^(x + z)` and `(V * 10^z) * 10^x` are the same number.
proof fn lemma_shift_same_number(v: nat, z: nat, x: int)
    ensures
        same_number(v, x + z, v * pow10(z), x),
{
}

/// Fixed notation reads back as the number: the text without its point,
/// scaled down by the digits after the point, is `mantissa * 10^exponent`.
pub proof fn law_fixed_notation_denotes_number(mantissa: nat, exponent: int)
    requires
        mantissa > 0,
        is_fixed_exp(scientific_exp(mantissa, exponent)),
    ensures
        ({
            let t = ecma_unsigned(shortest_digits_of(mantissa), scientific_exp(mantissa, exponent));
            same_number(
                text_value(without_point(t)),
                -(digits_after_point(t) as int),
                mantissa,
                exponent,
            )
        }),
{
    let ds = shortest_digits_of(mantissa);
    let e = scientific_exp(mantissa, exponent);
    let t = ecma_unsigned(ds, e);
    let k = ds.len() as int;
    let n = e + 1;
    let z = trailing_zeros(mantissa);
    lemma_shortest_digits_of(mantissa);
    law_fixed_notation_value(ds, e);
    let v = text_value(digit_chars(ds));
    assert(n - k == exponent + z);
    if n >= k {
        let w = (n - k) as nat;
        assert(text_value(without_point(t)) == v * pow10(w));
        assert(digits_after_point(t) == 0);
        if exponent >= 0 {
            lemma_pow10_add(z, exponent as nat);
            assert(v * pow10(w) == (v * pow10(z)) * pow10(exponent as nat)) by (nonlinear_arith)
                requires
                    pow10(w) == pow10(z) * pow10(exponent as nat),
            ;
            assert(pow10(0) == 1);
            assert(same_number(v * pow10(w), 0, mantissa, exponent));
        } else {
            lemma_pow10_add(w, (-exponent) as nat);
            assert(w + (-exponent) == z);
            assert((v * pow10(w)) * pow10((-exponent) as nat) == v * pow10(z)) by (nonlinear_arith)
                requires
                    pow10(z) == pow10(w) * pow10((-exponent) as nat),
            ;
            assert(same_number(v * pow10(w), 0, mantissa, exponent));
        }
    } else {
        assert(text_value(without_point(t)) == v * pow10(0));
        assert(pow10(0) == 1);
        assert(v * pow10(0) == v) by (nonlinear_arith)
            requires
                pow10(0) == 1,
        ;
        assert(text_value(without_point(t)) == v);
        assert(digits_after_point(t) == k - n);
        lemma_shift_same_number(v, z, exponent);
        assert(mantissa == v * pow10(z));
        assert(-(digits_after_point(t) as int) == exponent + z);
        assert(same_number(v, exponent + z, mantissa, exponent));
    }
}

/// Exponential notation reads back as the number: the text is the mantissa
/// `d1[.d2...dk]`, `e`, the sign of the exponent and its digits, and the
/// mantissa scaled by the exponent is `mantissa * 10^exponent`.
pub proof fn law_exponential_notation_denotes_number(mantissa: nat, exponent: int)
    requires
        mantissa > 0,
        !is_fixed_exp(scientific_exp(mantissa, exponent)),
    ensures
        ({
            let ds = shortest_digits_of(mantissa);
            let e = scientific_exp(mantissa, exponent);
            let mt = seq![crate::digits::digit_char(ds[0])] + fraction_text(ds);
            &&& ecma_unsigned(ds, e) == mt + seq![101u8] + (if e >= 0 {
                seq![43u8]
            } else {
                seq![45u8]
            }) + crate::digits::nat_text(crate::ecma::abs_int(e))
            &&& text_value(crate::digits::nat_text(crate::ecma::abs_int(e))) == crate::ecma::abs_int(
                e,
            )
            &&& same_number(
                text_value(without_point(mt)),
                e - digits_after_point(mt),
                mantissa,
                exponent,
            )
        }),
{
    let ds = shortest_digits_of(mantissa);
    let e = scientific_exp(mantissa, exponent);
    let k = ds.len() as int;
    let z = trailing_zeros(mantissa);
    lemma_shortest_digits_of(mantissa);
    lemma_nat_text(crate::ecma::abs_int(e));
    let mt = seq![crate::digits::digit_char(ds[0])] + fraction_text(ds);
    let dc = digit_chars(ds);
    lemma_digit_chars(ds);
    let v = text_value(dc);
    if k > 1 {
        let rest = digit_chars(ds.skip(1));
        assert(rest =~= dc.skip(1));
        assert(!rest.contains(46)) by {
            if rest.contains(46) {
                let i = choose|i: int| 0 <= i < rest.len() && rest[i] == 46;
                assert(rest[i] == dc[i + 1]);
            }
        }
        let first = seq![crate::digits::digit_char(ds[0])];
        assert(mt =~= first + seq![46u8] + rest);
        lemma_digits_after_point(first, rest);
        lemma_without_point_concat(first + seq![46u8], rest);
        lemma_without_point_concat(first, seq![46u8]);
        assert(ds[0] < 10);
        lemma_without_point_id(first);
        lemma_without_point_id(rest);
        assert(without_point(seq![46u8]) =~= Seq::<u8>::empty()) by {
            assert(seq![46u8].drop_last() =~= Seq::<u8>::empty());
            assert(seq![46u8].last() == 46);
            assert(without_point(Seq::<u8>::empty()) =~= Seq::<u8>::empty());
        }
        assert(without_point(mt) =~= dc);
    } else {
        assert(mt =~= dc);
        assert(!dc.contains(46)) by {
            if dc.contains(46) {
                let i = choose|i: int| 0 <= i < dc.len() && dc[i] == 46;
                assert(is_digit_char(dc[i]));
            }
        }
        lemma_without_point_id(dc);
        lemma_no_digits_after_point(dc);
    }
    assert(digits_after_point(mt) == k - 1);
    assert(e - (k - 1) == exponent + z);
    lemma_shift_same_number(v, z, exponent);
}

/// Every output for a binary64 value (a mantissa of at most 17 digits and a
/// decimal exponent from -324 to 308) fits in `BUFFER_SIZE` bytes.
pub proof fn law_number_fits_buffer(negative: bool, mantissa: nat, exponent: int)
    requires
        mantissa < pow10(17),
        -324 <= exponent <= 308,
    ensures
        decimal_text(negative, mantissa, exponent).len() <= BUFFER_SIZE,
{
    if mantissa > 0 {
        lemma_shortest_digits_of(mantissa);
        lemma_digit_values(mantissa);
        lemma_nat_text_len(mantissa, 17);
        lemma_output_fits_buffer(
            negative,
            shortest_digits_of(mantissa),
            scientific_exp(mantissa, exponent),
        );
    }
}

/// Trailing zeros of the mantissa do not change the text: `10m * 10^x`
/// prints as `m * 10^(x + 1)`.
pub proof fn law_trailing_zero_invariance(negative: bool, mantissa: nat, exponent: int)
    requires
        mantissa > 0,
    ensures
        decimal_text(negative, 10 * mantissa, exponent) == decimal_text(
            negative,
            mantissa,
            exponent + 1,
        ),
{
    let m10 = 10 * mantissa;
    assert(m10 / 10 == mantissa);
    assert(m10 % 10 == 0);
    assert(strip_zeros(m10) == strip_zeros(mantissa));
    assert(trailing_zeros(m10) == trailing_zeros(mantissa) + 1);
}


/// Flipping the sign bit of a binary32 pattern keeps its class and flips its
/// sign.
pub proof fn lemma_flip_sign_fields32(bits: u32)
    ensures
        class_of32(bits ^ 0x8000_0000u32) == class_of32(bits),
        sign_bit32(bits ^ 0x8000_0000u32) == !sign_bit32(bits),
{
    assert(((bits ^ 0x8000_0000u32) >> 23u32) & 0xffu32 == (bits >> 23u32) & 0xffu32)
        by (bit_vector);
    assert((bits ^ 0x8000_0000u32) & 0x7f_ffffu32 == bits & 0x7f_ffffu32) by (bit_vector);
    assert(((bits ^ 0x8000_0000u32) >> 31u32 == 1u32) == !(bits >> 31u32 == 1u32))
        by (bit_vector);
}

/// For binary32 too, NaNs and zeros print the same whatever their sign.
pub proof fn law_sign_of_nan_and_zero_ignored32(bits: u32, mantissa: nat, exponent: int)
    requires
        class_of32(bits) == FloatClass::Nan || class_of32(bits) == FloatClass::Zero,
    ensures
        number_text32(bits ^ 0x8000_0000u32, mantissa, exponent) == number_text32(
            bits,
            mantissa,
            exponent,
        ),
        class_of32(bits) == FloatClass::Zero ==> number_text32(bits, mantissa, exponent)
            == zero_text(),
{
    lemma_flip_sign_fields32(bits);
}

/// For binary32 too, negating a nonzero number prefixes its text with `-`.
pub proof fn law_negation_prefixes_minus32(bits: u32, mantissa: nat, exponent: int)
    requires
        class_of32(bits) == FloatClass::Finite && mantissa > 0 || class_of32(bits)
            == FloatClass::Infinite,
        !sign_bit32(bits),
    ensures
        number_text32(bits ^ 0x8000_0000u32, mantissa, exponent) == seq![45u8] + number_text32(
            bits,
            mantissa,
            exponent,
        ),
{
    lemma_flip_sign_fields32(bits);
    let ds = shortest_digits_of(mantissa);
    let e = scientific_exp(mantissa, exponent);
    assert(seq![45u8] + ecma_text(false, ds, e) =~= ecma_text(true, ds, e));
}

} // verus!

verus! {

/// The bytes of a finite number's text: ASCII digits, `.`, `e`, `+`, `-`.
pub open spec fn is_number_byte(c: u8) -> bool {
    ||| is_digit_char(c)
    ||| c == 46 || c == 101 || c == 43 || c == 45  // . e + -
}

/// The bytes the formatter writes: those of numbers and the letters of `NaN`
/// and `Infinity`.
pub open spec fn is_output_byte(c: u8) -> bool {
    ||| is_number_byte(c)
    ||| c == 78 || c == 97  // N a
    ||| c == 73 || c == 102 || c == 105 || c == 110 || c == 116 || c == 121  // I f i n t y
}

/// The layout of a decimal writes only digits, `.`, `e`, `+` and `-`.
pub proof fn lemma_ecma_text_bytes(negative: bool, ds: Seq<u8>, e: int)
    requires
        valid_digits(ds),
    ensures
        forall|i: int|
            0 <= i < ecma_text(negative, ds, e).len() ==> is_number_byte(
                #[trigger] ecma_text(negative, ds, e)[i],
            ),
{
    let t = ecma_unsigned(ds, e);
    let k = ds.len() as int;
    let n = e + 1;
    let dc = digit_chars(ds);
    lemma_digit_chars(ds);
    if 0 < n < k {
        assert(digit_chars(ds.take(n)) =~= dc.take(n));
        assert(digit_chars(ds.skip(n)) =~= dc.skip(n));
    }
    if k > 1 {
        assert(digit_chars(ds.skip(1)) =~= dc.skip(1));
    }
    let nt = crate::digits::nat_text(crate::ecma::abs_int(e));
    lemma_nat_text(crate::ecma::abs_int(e));
    assert forall|i: int| 0 <= i < t.len() implies is_number_byte(#[trigger] t[i]) by {
        if k <= n && n <= 21 {
            if i >= k {
                assert(t[i] == zeros((n - k) as nat)[i - k]);
            } else {
                assert(t[i] == dc[i]);
            }
        } else if 0 < n && n <= 21 {
            if i < n {
                assert(t[i] == dc.take(n)[i]);
            } else if i > n {
                assert(t[i] == dc.skip(n)[i - n - 1]);
            }
        } else if -6 < n && n <= 0 {
            if 2 <= i < 2 - n {
                assert(t[i] == zeros((-n) as nat)[i - 2]);
            } else if i >= 2 - n {
                assert(t[i] == dc[i - (2 - n)]);
            }
        } else {
            let f = fraction_text(ds);
            let sg: Seq<u8> = if e >= 0 { seq![43u8] } else { seq![45u8] };
            assert(t == seq![crate::digits::digit_char(ds[0])] + f + seq![101u8] + sg + nt);
            let fl = f.len() as int;
            if i == 0 {
                assert(ds[0] < 10);
            } else if i < 1 + fl {
                if i >= 2 {
                    assert(f[i - 1] == dc.skip(1)[i - 2]);
                    assert(dc.skip(1)[i - 2] == dc[i - 1]);
                }
            } else if i >= 3 + fl {
                assert(t[i] == nt[i - 3 - fl]);
            }
        }
    }
    let full = ecma_text(negative, ds, e);
    assert forall|i: int| 0 <= i < full.len() implies is_number_byte(#[trigger] full[i]) by {
        if negative {
            if i >= 1 {
                assert(full[i] == t[i - 1]);
            }
        } else {
            assert(full[i] == t[i]);
        }
    }
}

/// Every byte of every output is a digit, `.`, `e`, `+`, `-` or a letter of
/// `NaN` or `Infinity`, and the text of a finite value (zero or not) has
/// only digits, `.`, `e`, `+` and `-`; in particular the output is ASCII.
pub proof fn law_output_bytes(bits: u64, mantissa: nat, exponent: int)
    ensures
        forall|i: int|
            0 <= i < number_text(bits, mantissa, exponent).len() ==> is_output_byte(
                #[trigger] number_text(bits, mantissa, exponent)[i],
            ),
        forall|i: int|
            0 <= i < number_text(bits, mantissa, exponent).len() ==> #[trigger] number_text(
                bits,
                mantissa,
                exponent,
            )[i] < 128,
        class_of(bits) == FloatClass::Finite || class_of(bits) == FloatClass::Zero ==> forall|i: int|
            0 <= i < number_text(bits, mantissa, exponent).len() ==> is_number_byte(
                #[trigger] number_text(bits, mantissa, exponent)[i],
            ),
{
    lemma_classified_text_bytes(class_of(bits), sign_bit(bits), mantissa, exponent);
}

/// `law_output_bytes` for binary32.
pub proof fn law_output_bytes32(bits: u32, mantissa: nat, exponent: int)
    ensures
        forall|i: int|
            0 <= i < number_text32(bits, mantissa, exponent).len() ==> is_output_byte(
                #[trigger] number_text32(bits, mantissa, exponent)[i],
            ),
        forall|i: int|
            0 <= i < number_text32(bits, mantissa, exponent).len() ==> #[trigger] number_text32(
                bits,
                mantissa,
                exponent,
            )[i] < 128,
        class_of32(bits) == FloatClass::Finite || class_of32(bits) == FloatClass::Zero ==> forall|i: int|
            0 <= i < number_text32(bits, mantissa, exponent).len() ==> is_number_byte(
                #[trigger] number_text32(bits, mantissa, exponent)[i],
            ),
{
    lemma_classified_text_bytes(class_of32(bits), sign_bit32(bits), mantissa, exponent);
}

/// The bytes of the text of any class of value.
pub proof fn lemma_classified_text_bytes(
    class: FloatClass,
    negative: bool,
    mantissa: nat,
    exponent: int,
)
    ensures
        forall|i: int|
            0 <= i < classified_text(class, negative, mantissa, exponent).len() ==> is_output_byte(
                #[trigger] classified_text(class, negative, mantissa, exponent)[i],
            ),
        forall|i: int|
            0 <= i < classified_text(class, negative, mantissa, exponent).len()
                ==> #[trigger] classified_text(class, negative, mantissa, exponent)[i] < 128,
        class == FloatClass::Finite || class == FloatClass::Zero ==> forall|i: int|
            0 <= i < classified_text(class, negative, mantissa, exponent).len() ==> is_number_byte(
                #[trigger] classified_text(class, negative, mantissa, exponent)[i],
            ),
{
    let t = classified_text(class, negative, mantissa, exponent);
    if class == FloatClass::Finite && mantissa > 0 {
        lemma_shortest_digits_of(mantissa);
        lemma_ecma_text_bytes(
            negative,
            shortest_digits_of(mantissa),
            scientific_exp(mantissa, exponent),
        );
    }
    if class == FloatClass::Infinite && negative {
        assert forall|i: int| 0 <= i < t.len() implies is_output_byte(#[trigger] t[i]) by {
            if i >= 1 {
                assert(t[i] == crate::format::infinity_text()[i - 1]);
            }
        }
    }
    assert forall|i: int| 0 <= i < t.len() implies is_output_byte(#[trigger] t[i]) && t[i] < 128 by {
        if class == FloatClass::Infinite && negative && i >= 1 {
            assert(t[i] == crate::format::infinity_text()[i - 1]);
        }
    }
}

} // verus!

verus! {

/// Given ECMAScript's decimal of the value (step 5 of ECMA-262
/// `Number::toString`), `write_ecma`'s text is ECMAScript's
/// `Number::toString` of the value.
pub proof fn law_write_ecma_is_number_to_string(bits: u64, mantissa: nat, exponent: int)
    requires
        class_of(bits) == FloatClass::Finite ==> is_ecma_decimal(bits, mantissa, exponent),
    ensures
        number_text(bits, mantissa, exponent) == number_to_string(bits),
{
    let d = choose|s: nat, q: int| is_ecma_decimal(bits, s, q);
    if class_of(bits) == FloatClass::Finite {
        assert(is_ecma_decimal(bits, mantissa, exponent));
        assert(is_ecma_decimal(bits, d.0, d.1));
        lemma_chosen_unique(
            significand64(bits),
            exponent64(bits),
            narrow64(bits),
            mantissa,
            exponent,
            d.0,
            d.1,
        );
        lemma_classified_is_ecma(
            class_of(bits),
            sign_bit(bits),
            significand64(bits),
            exponent64(bits),
            narrow64(bits),
            mantissa,
            exponent,
        );
    }
}

/// The same for binary32 and `write_ecma32`.
pub proof fn law_write_ecma32_is_number_to_string(bits: u32, mantissa: nat, exponent: int)
    requires
        class_of32(bits) == FloatClass::Finite ==> is_ecma_decimal32(bits, mantissa, exponent),
    ensures
        number_text32(bits, mantissa, exponent) == number_to_string32(bits),
{
    let d = choose|s: nat, q: int| is_ecma_decimal32(bits, s, q);
    if class_of32(bits) == FloatClass::Finite {
        assert(is_ecma_decimal32(bits, mantissa, exponent));
        assert(is_ecma_decimal32(bits, d.0, d.1));
        lemma_chosen_unique(
            significand32(bits),
            exponent32(bits),
            narrow32(bits),
            mantissa,
            exponent,
            d.0,
            d.1,
        );
        lemma_classified_is_ecma(
            class_of32(bits),
            sign_bit32(bits),
            significand32(bits),
            exponent32(bits),
            narrow32(bits),
            mantissa,
            exponent,
        );
    }
}

/// The unsigned layout starts with a digit.
pub proof fn lemma_ecma_unsigned_first(ds: Seq<u8>, e: int)
    requires
        valid_digits(ds),
    ensures
        ecma_unsigned(ds, e).len() >= 1,
        is_digit_char(ecma_unsigned(ds, e)[0]),
{
    let n = e + 1;
    let k = ds.len() as int;
    assert(ds[0] < 10);
    if 0 < n < k {
        assert(digit_chars(ds.take(n))[0] == crate::digits::digit_char(ds[0]));
    }
}

/// Negating a nonzero binary64 value prefixes `-` to ECMAScript's text of it,
/// whose text does not start with `-`; both zeros are `0`.
pub proof fn law_number_to_string_negation(bits: u64)
    requires
        !sign_bit(bits),
    ensures
        class_of(bits) == FloatClass::Finite || class_of(bits) == FloatClass::Infinite
            ==> number_to_string(bits ^ 0x8000_0000_0000_0000u64) == seq![45u8]
            + number_to_string(bits),
        class_of(bits) != FloatClass::Nan ==> number_to_string(bits)[0] != 45u8,
        class_of(bits) == FloatClass::Zero ==> number_to_string(bits ^ 0x8000_0000_0000_0000u64)
            == zero_text() && number_to_string(bits) == zero_text(),
{
    let nb = bits ^ 0x8000_0000_0000_0000u64;
    lemma_flip_sign_fields(bits);
    if class_of(bits) == FloatClass::Finite {
        law_ecma_decimal_exists(bits);
    }
    let d = choose|s: nat, q: int| is_ecma_decimal(bits, s, q);
    let dn = choose|s: nat, q: int| is_ecma_decimal(nb, s, q);
    if class_of(bits) == FloatClass::Finite {
        assert(is_ecma_decimal(bits, d.0, d.1));
        assert(significand64(nb) == significand64(bits));
        assert(exponent64(nb) == exponent64(bits));
        assert(narrow64(nb) == narrow64(bits));
        assert(is_ecma_decimal(nb, d.0, d.1));
        assert(is_ecma_decimal(nb, dn.0, dn.1));
        lemma_chosen_unique(
            significand64(bits),
            exponent64(bits),
            narrow64(bits),
            d.0,
            d.1,
            dn.0,
            dn.1,
        );
        let ds = digit_values(d.0);
        let e = d.1 + num_digits(d.0) - 1;
        lemma_digit_values(d.0);
        lemma_ecma_unsigned_first(ds, e);
        assert(seq![45u8] + ecma_text(false, ds, e) =~= ecma_text(true, ds, e));
        assert(ecma_text(false, ds, e) =~= ecma_unsigned(ds, e));
    }
    if class_of(bits) == FloatClass::Infinite {
        assert(number_to_string(bits) == crate::format::infinity_text());
    }
}

/// The same for binary32.
pub proof fn law_number_to_string_negation32(bits: u32)
    requires
        !sign_bit32(bits),
    ensures
        class_of32(bits) == FloatClass::Finite || class_of32(bits) == FloatClass::Infinite
            ==> number_to_string32(bits ^ 0x8000_0000u32) == seq![45u8] + number_to_string32(
            bits,
        ),
        class_of32(bits) != FloatClass::Nan ==> number_to_string32(bits)[0] != 45u8,
        class_of32(bits) == FloatClass::Zero ==> number_to_string32(bits ^ 0x8000_0000u32)
            == zero_text() && number_to_string32(bits) == zero_text(),
{
    let nb = bits ^ 0x8000_0000u32;
    lemma_flip_sign_fields32(bits);
    assert(((bits ^ 0x8000_0000u32) >> 23u32) & 0xffu32 == (bits >> 23u32) & 0xffu32)
        by (bit_vector);
    assert((bits ^ 0x8000_0000u32) & 0x7f_ffffu32 == bits & 0x7f_ffffu32) by (bit_vector);
    if class_of32(bits) == FloatClass::Finite {
        law_ecma_decimal_exists32(bits);
    }
    let d = choose|s: nat, q: int| is_ecma_decimal32(bits, s, q);
    let dn = choose|s: nat, q: int| is_ecma_decimal32(nb, s, q);
    if class_of32(bits) == FloatClass::Finite {
        assert(is_ecma_decimal32(bits, d.0, d.1));
        assert(significand32(nb) == significand32(bits));
        assert(exponent32(nb) == exponent32(bits));
        assert(narrow32(nb) == narrow32(bits));
        assert(is_ecma_decimal32(nb, d.0, d.1));
        assert(is_ecma_decimal32(nb, dn.0, dn.1));
        lemma_chosen_unique(
            significand32(bits),
            exponent32(bits),
            narrow32(bits),
            d.0,
            d.1,
            dn.0,
            dn.1,
        );
        let ds = digit_values(d.0);
        let e = d.1 + num_digits(d.0) - 1;
        lemma_digit_values(d.0);
        lemma_ecma_unsigned_first(ds, e);
        assert(seq![45u8] + ecma_text(false, ds, e) =~= ecma_text(true, ds, e));
        assert(ecma_text(false, ds, e) =~= ecma_unsigned(ds, e));
    }
    if class_of32(bits) == FloatClass::Infinite {
        assert(number_to_string32(bits) == crate::format::infinity_text());
    }
}

} // verus!

verus! {

/// ECMAScript's decimal of `1.0` is `1 * 10^0`, and `Number::toString(1)` is
/// `1`.
pub proof fn lemma_number_to_string_of_one()
    ensures
        is_ecma_decimal(0x3ff0_0000_0000_0000u64, 1, 0),
        number_to_string(0x3ff0_0000_0000_0000u64) == seq![49u8],
{
    let bits = 0x3ff0_0000_0000_0000u64;
    assert((0x3ff0_0000_0000_0000u64 >> 52u64) & 0x7ffu64 == 1023) by (bit_vector);
    assert(0x3ff0_0000_0000_0000u64 & 0xf_ffff_ffff_ffffu64 == 0) by (bit_vector);
    assert(0x3ff0_0000_0000_0000u64 >> 63u64 == 0) by (bit_vector);
    crate::shortest::lemma_decimal_of_one();
    assert(is_ecma_decimal(bits, 1, 0));
    law_write_ecma_is_number_to_string(bits, 1, 0);
    assert(strip_zeros(1) == 1);
    assert(trailing_zeros(1) == 0);
    assert(digit_values(1) =~= seq![1u8]);
    assert(digit_chars(seq![1u8]) =~= seq![49u8]);
    assert(zeros(0) =~= Seq::<u8>::empty());
    assert(number_text(bits, 1, 0) =~= seq![49u8]);
}

} // verus!

verus! {

/// The text of a value of any class, given ECMAScript's decimal (at most 17
/// digits, decimal exponent from -999 to 999), is 1 to `BUFFER_SIZE` bytes.
proof fn lemma_ecma_string_length(
    class: FloatClass,
    negative: bool,
    m2: nat,
    e2: int,
    narrow: bool,
    s: nat,
    q: int,
)
    requires
        class == FloatClass::Finite ==> chosen_decimal(m2, e2, narrow, s, q),
        1 <= m2 < pow2(53),
        narrow ==> m2 <= pow2(52),
        -1074 <= e2 <= 971,
    ensures
        1 <= crate::shortest::ecma_string(class, negative, s, q).len() <= BUFFER_SIZE,
{
    if class == FloatClass::Finite {
        lemma_chosen_digits(m2, e2, narrow, s, q);
        lemma_chosen_exponent(m2, e2, narrow, s, q);
        assert(s > 0);
        lemma_digit_values(s);
        let ds = digit_values(s);
        let e = q + num_digits(s) - 1;
        lemma_output_fits_buffer(negative, ds, e);
        lemma_ecma_unsigned_first(ds, e);
    }
}

/// Every binary64 output fits in `BUFFER_SIZE` bytes: given ECMAScript's
/// decimal of the value, `write_ecma`'s text has 1 to 25 bytes.
pub proof fn law_write_ecma_fits_buffer(bits: u64, mantissa: nat, exponent: int)
    requires
        class_of(bits) == FloatClass::Finite ==> is_ecma_decimal(bits, mantissa, exponent),
    ensures
        1 <= number_text(bits, mantissa, exponent).len() <= BUFFER_SIZE,
{
    let f = exponent_field(bits);
    let sf = significand_field(bits);
    assert((bits >> 52u64) & 0x7ffu64 <= 0x7ffu64) by (bit_vector);
    assert(bits & 0xf_ffff_ffff_ffffu64 < 0x10_0000_0000_0000u64) by (bit_vector);
    vstd::arithmetic::power2::lemma2_to64();
    vstd::arithmetic::power2::lemma2_to64_rest();
    if class_of(bits) == FloatClass::Finite {
        assert(f != 0x7ff);
        assert(sf < pow2(52));
        assert(pow2(53) == 2 * pow2(52));
        assert(significand64(bits) >= 1);
        assert(significand64(bits) < pow2(53));
        lemma_ecma_string_length(
            class_of(bits),
            sign_bit(bits),
            significand64(bits),
            exponent64(bits),
            narrow64(bits),
            mantissa,
            exponent,
        );
        lemma_classified_is_ecma(
            class_of(bits),
            sign_bit(bits),
            significand64(bits),
            exponent64(bits),
            narrow64(bits),
            mantissa,
            exponent,
        );
    }
}

/// The same for binary32 values and `write_ecma32`.
pub proof fn law_write_ecma32_fits_buffer(bits: u32, mantissa: nat, exponent: int)
    requires
        class_of32(bits) == FloatClass::Finite ==> is_ecma_decimal32(bits, mantissa, exponent),
    ensures
        1 <= number_text32(bits, mantissa, exponent).len() <= BUFFER_SIZE,
{
    let f = exponent_field32(bits);
    let sf = significand_field32(bits);
    assert((bits >> 23u32) & 0xffu32 <= 0xffu32) by (bit_vector);
    assert(bits & 0x7f_ffffu32 < 0x80_0000u32) by (bit_vector);
    vstd::arithmetic::power2::lemma2_to64();
    vstd::arithmetic::power2::lemma2_to64_rest();
    if class_of32(bits) == FloatClass::Finite {
        assert(f != 0xff);
        assert(sf < pow2(23));
        assert(significand32(bits) >= 1);
        assert(significand32(bits) < pow2(24));
        assert(pow2(24) < pow2(53));
        lemma_ecma_string_length(
            class_of32(bits),
            sign_bit32(bits),
            significand32(bits),
            exponent32(bits),
            narrow32(bits),
            mantissa,
            exponent,
        );
        lemma_classified_is_ecma(
            class_of32(bits),
            sign_bit32(bits),
            significand32(bits),
            exponent32(bits),
            narrow32(bits),
            mantissa,
            exponent,
        );
    }
}

} // verus!

verus! {

/// `a * 10^p >= 10^c`.
pub open spec fn at_least_pow10(a: nat, p: int, c: int) -> bool {
    if p >= c {
        a * pow10((p - c) as nat) >= 1
    } else {
        a >= pow10((c - p) as nat)
    }
}

/// A `k`-digit `s` (`10^(k-1) <= s < 10^k`): `s * 10^q >= 10^c` exactly when
/// `k - 1 + q >= c`.
proof fn lemma_at_least_pow10_digits(s: nat, q: int, c: int, k: nat)
    requires
        k >= 1,
        pow10((k - 1) as nat) <= s < pow10(k),
    ensures
        at_least_pow10(s, q, c) <==> k - 1 + q >= c,
{
    crate::digits::lemma_pow10_positive((k - 1) as nat);
    if q >= c {
        crate::digits::lemma_pow10_positive((q - c) as nat);
        assert(s * pow10((q - c) as nat) >= 1) by (nonlinear_arith)
            requires
                s >= 1,
                pow10((q - c) as nat) >= 1,
        ;
    } else {
        if k - 1 + q >= c {
            crate::digits::lemma_pow10_monotone((c - q) as nat, (k - 1) as nat);
        } else {
            crate::digits::lemma_pow10_monotone(k, (c - q) as nat);
        }
    }
}

/// Trailing zeros moved into the exponent do not change the comparison.
proof fn lemma_at_least_pow10_shift(v: nat, z: nat, x: int, c: int)
    requires
        v >= 1,
    ensures
        at_least_pow10(v * pow10(z), x, c) == at_least_pow10(v, x + z, c),
{
    let m = v * pow10(z);
    crate::digits::lemma_pow10_positive(z);
    if x >= c {
        crate::digits::lemma_pow10_positive((x - c) as nat);
        assert(m * pow10((x - c) as nat) >= 1) by (nonlinear_arith)
            requires
                m == v * pow10(z),
                v >= 1,
                pow10(z) >= 1,
                pow10((x - c) as nat) >= 1,
        ;
        crate::digits::lemma_pow10_positive((x + z - c) as nat);
        assert(v * pow10((x + z - c) as nat) >= 1) by (nonlinear_arith)
            requires
                v >= 1,
                pow10((x + z - c) as nat) >= 1,
        ;
    } else if x + z >= c {
        // m = v * 10^z >= 10^(c - x) since z >= c - x
        crate::digits::lemma_pow10_monotone((c - x) as nat, z);
        assert(m >= pow10((c - x) as nat)) by (nonlinear_arith)
            requires
                m == v * pow10(z),
                v >= 1,
                pow10(z) >= pow10((c - x) as nat),
        ;
        crate::digits::lemma_pow10_positive((x + z - c) as nat);
        assert(v * pow10((x + z - c) as nat) >= 1) by (nonlinear_arith)
            requires
                v >= 1,
                pow10((x + z - c) as nat) >= 1,
        ;
    } else {
        // both sides compare with a power of ten: 10^(c-x) = 10^z * 10^(c-x-z)
        lemma_pow10_add(z, (c - x - z) as nat);
        let a = pow10(z);
        let b = pow10((c - x - z) as nat);
        assert(pow10((c - x) as nat) == a * b);
        assert(m >= a * b <==> v >= b) by (nonlinear_arith)
            requires
                m == v * a,
                a > 0,
        ;
    }
}

/// ECMAScript's notation follows the magnitude of the decimal it prints:
/// fixed notation exactly when `10^-6 <= mantissa * 10^exponent < 10^21`,
/// exponential notation (the only one with an `e`) otherwise.
pub proof fn law_notation_follows_magnitude(negative: bool, mantissa: nat, exponent: int)
    requires
        mantissa > 0,
    ensures
        is_fixed_exp(scientific_exp(mantissa, exponent)) <==> (at_least_pow10(
            mantissa,
            exponent,
            -6,
        ) && !at_least_pow10(mantissa, exponent, 21)),
        !decimal_text(negative, mantissa, exponent).contains(101u8) <==> (at_least_pow10(
            mantissa,
            exponent,
            -6,
        ) && !at_least_pow10(mantissa, exponent, 21)),
{
    let s = strip_zeros(mantissa);
    let z = trailing_zeros(mantissa);
    let ds = shortest_digits_of(mantissa);
    let k = ds.len();
    let e = scientific_exp(mantissa, exponent);
    lemma_shortest_digits_of(mantissa);
    lemma_strip_zeros(mantissa);
    lemma_num_digits_of(s);
    lemma_at_least_pow10_shift(s, z, exponent, -6);
    lemma_at_least_pow10_shift(s, z, exponent, 21);
    lemma_at_least_pow10_digits(s, exponent + z, -6, k);
    lemma_at_least_pow10_digits(s, exponent + z, 21, k);
    law_fixed_notation_range(ds, e);
    let t = ecma_unsigned(ds, e);
    let full = decimal_text(negative, mantissa, exponent);
    if negative {
        assert(full == seq![45u8] + t);
        if t.contains(101u8) {
            let i = choose|i: int| 0 <= i < t.len() && t[i] == 101u8;
            assert(full[i + 1] == 101u8);
        }
        if full.contains(101u8) {
            let i = choose|i: int| 0 <= i < full.len() && full[i] == 101u8;
            assert(t[i - 1] == 101u8);
        }
    } else {
        assert(full =~= t);
    }
}

/// The digits of `n > 0` span `10^(len-1) <= n < 10^len`.
proof fn lemma_num_digits_of(n: nat)
    requires
        n > 0,
    ensures
        pow10((digit_values(n).len() - 1) as nat) <= n < pow10(digit_values(n).len()),
{
    crate::shortest::lemma_num_digits(n);
}

} // verus!

verus! {

/// The significand and exponent of a finite nonzero binary64 value are in
/// the range the decimal lemmas speak of.
proof fn lemma_finite_fields(bits: u64)
    requires
        class_of(bits) == FloatClass::Finite,
    ensures
        1 <= significand64(bits) < pow2(53),
        narrow64(bits) ==> significand64(bits) == pow2(52),
        -1074 <= exponent64(bits) <= 971,
{
    assert((bits >> 52u64) & 0x7ffu64 <= 0x7ffu64) by (bit_vector);
    assert(bits & 0xf_ffff_ffff_ffffu64 < 0x10_0000_0000_0000u64) by (bit_vector);
    vstd::arithmetic::power2::lemma2_to64();
    vstd::arithmetic::power2::lemma2_to64_rest();
    assert(pow2(53) == 2 * pow2(52));
}

/// The same for binary32 values.
proof fn lemma_finite_fields32(bits: u32)
    requires
        class_of32(bits) == FloatClass::Finite,
    ensures
        1 <= significand32(bits) < pow2(53),
        narrow32(bits) ==> significand32(bits) <= pow2(52),
        -1074 <= exponent32(bits) <= 971,
{
    assert((bits >> 23u32) & 0xffu32 <= 0xffu32) by (bit_vector);
    assert(bits & 0x7f_ffffu32 < 0x80_0000u32) by (bit_vector);
    vstd::arithmetic::power2::lemma2_to64();
    vstd::arithmetic::power2::lemma2_to64_rest();
    assert(pow2(24) < pow2(53));
}

/// Every finite nonzero binary64 value has exactly one decimal that
/// ECMAScript chooses for it.
pub proof fn law_ecma_decimal_exists(bits: u64)
    requires
        class_of(bits) == FloatClass::Finite,
    ensures
        exists|s: nat, q: int| is_ecma_decimal(bits, s, q),
        forall|s1: nat, q1: int, s2: nat, q2: int|
            is_ecma_decimal(bits, s1, q1) && is_ecma_decimal(bits, s2, q2) ==> s1 == s2 && q1
                == q2,
{
    lemma_finite_fields(bits);
    let r = lemma_chosen_exists(significand64(bits), exponent64(bits), narrow64(bits));
    assert(is_ecma_decimal(bits, r.0, r.1));
    assert forall|s1: nat, q1: int, s2: nat, q2: int|
        is_ecma_decimal(bits, s1, q1) && is_ecma_decimal(bits, s2, q2) implies s1 == s2 && q1
        == q2 by {
        lemma_chosen_unique(
            significand64(bits),
            exponent64(bits),
            narrow64(bits),
            s1,
            q1,
            s2,
            q2,
        );
    }
}

/// Every finite nonzero binary32 value has exactly one decimal that
/// ECMAScript chooses for it.
pub proof fn law_ecma_decimal_exists32(bits: u32)
    requires
        class_of32(bits) == FloatClass::Finite,
    ensures
        exists|s: nat, q: int| is_ecma_decimal32(bits, s, q),
        forall|s1: nat, q1: int, s2: nat, q2: int|
            is_ecma_decimal32(bits, s1, q1) && is_ecma_decimal32(bits, s2, q2) ==> s1 == s2 && q1
                == q2,
{
    lemma_finite_fields32(bits);
    let r = lemma_chosen_exists(significand32(bits), exponent32(bits), narrow32(bits));
    assert(is_ecma_decimal32(bits, r.0, r.1));
    assert forall|s1: nat, q1: int, s2: nat, q2: int|
        is_ecma_decimal32(bits, s1, q1) && is_ecma_decimal32(bits, s2, q2) implies s1 == s2
        && q1 == q2 by {
        lemma_chosen_unique(
            significand32(bits),
            exponent32(bits),
            narrow32(bits),
            s1,
            q1,
            s2,
            q2,
        );
    }
}

/// ECMAScript's text of every binary64 value has 1 to `BUFFER_SIZE` bytes;
/// that of a finite value (zero included) has only digits, `.`, `e`, `+`
/// and `-`, and every other has only those and the letters of `NaN` and
/// `Infinity`.
pub proof fn law_number_to_string_fits_buffer(bits: u64)
    ensures
        1 <= number_to_string(bits).len() <= BUFFER_SIZE,
        forall|i: int|
            0 <= i < number_to_string(bits).len() ==> is_output_byte(
                #[trigger] number_to_string(bits)[i],
            ),
        class_of(bits) == FloatClass::Finite || class_of(bits) == FloatClass::Zero ==> forall|i: int|
            0 <= i < number_to_string(bits).len() ==> is_number_byte(
                #[trigger] number_to_string(bits)[i],
            ),
{
    let d = choose|s: nat, q: int| is_ecma_decimal(bits, s, q);
    if class_of(bits) == FloatClass::Finite {
        law_ecma_decimal_exists(bits);
        assert(is_ecma_decimal(bits, d.0, d.1));
    }
    law_write_ecma_is_number_to_string(bits, d.0, d.1);
    law_write_ecma_fits_buffer(bits, d.0, d.1);
    law_output_bytes(bits, d.0, d.1);
}

/// The same for binary32 values.
pub proof fn law_number_to_string32_fits_buffer(bits: u32)
    ensures
        1 <= number_to_string32(bits).len() <= BUFFER_SIZE,
        forall|i: int|
            0 <= i < number_to_string32(bits).len() ==> is_output_byte(
                #[trigger] number_to_string32(bits)[i],
            ),
        class_of32(bits) == FloatClass::Finite || class_of32(bits) == FloatClass::Zero
            ==> forall|i: int|
            0 <= i < number_to_string32(bits).len() ==> is_number_byte(
                #[trigger] number_to_string32(bits)[i],
            ),
{
    let d = choose|s: nat, q: int| is_ecma_decimal32(bits, s, q);
    if class_of32(bits) == FloatClass::Finite {
        law_ecma_decimal_exists32(bits);
        assert(is_ecma_decimal32(bits, d.0, d.1));
    }
    law_write_ecma32_is_number_to_string(bits, d.0, d.1);
    law_write_ecma32_fits_buffer(bits, d.0, d.1);
    law_output_bytes32(bits, d.0, d.1);
}


/// ECMAScript's text of a finite nonzero binary64 value is in exponential
/// notation (has an `e`) exactly when the decimal it chooses for the value,
/// `s * 10^q`, is below `10^-6` or at least `10^21`.
pub proof fn law_number_to_string_notation(bits: u64, s: nat, q: int)
    requires
        is_ecma_decimal(bits, s, q),
        class_of(bits) == FloatClass::Finite,
    ensures
        !number_to_string(bits).contains(101u8) <==> (at_least_pow10(s, q, -6)
            && !at_least_pow10(s, q, 21)),
{
    law_write_ecma_is_number_to_string(bits, s, q);
    assert(s > 0);
    law_notation_follows_magnitude(sign_bit(bits), s, q);
}

/// The same for binary32 values.
pub proof fn law_number_to_string32_notation(bits: u32, s: nat, q: int)
    requires
        is_ecma_decimal32(bits, s, q),
        class_of32(bits) == FloatClass::Finite,
    ensures
        !number_to_string32(bits).contains(101u8) <==> (at_least_pow10(s, q, -6)
            && !at_least_pow10(s, q, 21)),
{
    law_write_ecma32_is_number_to_string(bits, s, q);
    assert(s > 0);
    law_notation_follows_magnitude(sign_bit32(bits), s, q);
}

/// ECMAScript's text of a finite nonzero binary64 value is the layout of a
/// decimal `s * 10^q` that reads back as the value (round to nearest, ties
/// to even); `law_fixed_notation_denotes_number` and
/// `law_exponential_notation_denotes_number` say that the text denotes
/// `s * 10^q`.
pub proof fn law_number_to_string_reads_back(bits: u64)
    requires
        class_of(bits) == FloatClass::Finite,
    ensures
        exists|s: nat, q: int|
            #[trigger] is_ecma_decimal(bits, s, q) && rounds_to(
                significand64(bits),
                exponent64(bits),
                narrow64(bits),
                s,
                q,
            ) && number_to_string(bits) == decimal_text(sign_bit(bits), s, q),
{
    law_ecma_decimal_exists(bits);
    let d = choose|s: nat, q: int| is_ecma_decimal(bits, s, q);
    law_write_ecma_is_number_to_string(bits, d.0, d.1);
    assert(is_ecma_decimal(bits, d.0, d.1));
}

/// The same for binary32 values.
pub proof fn law_number_to_string32_reads_back(bits: u32)
    requires
        class_of32(bits) == FloatClass::Finite,
    ensures
        exists|s: nat, q: int|
            #[trigger] is_ecma_decimal32(bits, s, q) && rounds_to(
                significand32(bits),
                exponent32(bits),
                narrow32(bits),
                s,
                q,
            ) && number_to_string32(bits) == decimal_text(sign_bit32(bits), s, q),
{
    law_ecma_decimal_exists32(bits);
    let d = choose|s: nat, q: int| is_ecma_decimal32(bits, s, q);
    law_write_ecma32_is_number_to_string(bits, d.0, d.1);
    assert(is_ecma_decimal32(bits, d.0, d.1));
}

/// ECMAScript's text of a binary64 pattern starts with `-` exactly when the
/// top bit is set and the pattern is a nonzero number or an infinity (not a
/// NaN, not a zero); both zeros are `0`.
pub proof fn law_number_to_string_leading_minus(bits: u64)
    ensures
        number_to_string(bits)[0] == 45u8 <==> (bits >= 0x8000_0000_0000_0000u64 && (
        magnitude_class(bits & 0x7fff_ffff_ffff_ffffu64) == FloatClass::Finite || magnitude_class(
            bits & 0x7fff_ffff_ffff_ffffu64,
        ) == FloatClass::Infinite)),
        bits & 0x7fff_ffff_ffff_ffffu64 == 0u64 ==> number_to_string(bits) == zero_text(),
{
    law_class_of_by_magnitude(bits);
    law_sign_bit_is_top_bit(bits);
    if sign_bit(bits) {
        let b = bits ^ 0x8000_0000_0000_0000u64;
        assert((bits ^ 0x8000_0000_0000_0000u64) ^ 0x8000_0000_0000_0000u64 == bits) by (bit_vector);
        lemma_flip_sign_fields(b);
        law_number_to_string_negation(b);
    } else {
        law_number_to_string_negation(bits);
    }
}

/// The same for binary32 patterns.
pub proof fn law_number_to_string32_leading_minus(bits: u32)
    ensures
        number_to_string32(bits)[0] == 45u8 <==> (bits >= 0x8000_0000u32 && (magnitude_class32(
            bits & 0x7fff_ffffu32,
        ) == FloatClass::Finite || magnitude_class32(bits & 0x7fff_ffffu32)
            == FloatClass::Infinite)),
        bits & 0x7fff_ffffu32 == 0u32 ==> number_to_string32(bits) == zero_text(),
{
    law_class_of32_by_magnitude(bits);
    law_sign_bit32_is_top_bit(bits);
    if sign_bit32(bits) {
        let b = bits ^ 0x8000_0000u32;
        assert((bits ^ 0x8000_0000u32) ^ 0x8000_0000u32 == bits) by (bit_vector);
        lemma_flip_sign_fields32(b);
        law_number_to_string_negation32(b);
    } else {
        law_number_to_string_negation32(bits);
    }
}

} // verus!
