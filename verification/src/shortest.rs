//! ECMAScript's choice of decimal for a binary floating-point value
//! (ECMA-262 `Number::toString`, step 5), stated in integer arithmetic.
//!
//! A finite nonzero binary value is `m2 * 2^e2`. A decimal `s * 10^q` reads
//! back as that value when it lies in its rounding interval, whose bounds
//! (in units of `2^(e2 - 2)`) are `4 m2 - 2` (or `4 m2 - 1` just above a power
//! of two, where the next value down is closer) and `4 m2 + 2`; the bounds
//! belong to the interval when `m2` is even (round half to even). ECMAScript
//! takes, among these decimals, one with the fewest digits, then the one
//! nearest to the value, then the even one.

use vstd::prelude::*;
use vstd::arithmetic::power2::pow2;
use crate::digits::{
    digit_values, lemma_pow10_add, lemma_pow10_monotone, pow10, strip_zeros, trailing_zeros,
};
use crate::ecma::ecma_text;
use crate::float_bits::{
    class_of, class_of32, exponent_field, exponent_field32, sign_bit, sign_bit32,
    significand_field, significand_field32, FloatClass,
};
use crate::format::{classified_text, infinity_text, nan_text, neg_infinity_text, zero_text};

verus! {

/// The smaller of two integers.
pub open spec fn min_int(a: int, b: int) -> int {
    if a <= b { a } else { b }
}

/// Number of decimal digits of `s`.
pub open spec fn num_digits(s: nat) -> nat {
    digit_values(s).len()
}

/// `s * 10^q` in units of `10^t * 2^u` (for `t <= q`, `u <= 0`).
pub open spec fn dec_units(s: nat, q: int, t: int, u: int) -> int {
    (s * pow10((q - t) as nat) * pow2((-u) as nat)) as int
}

/// `c * 2^p` in units of `10^t * 2^u` (for `t <= 0`, `u <= p`).
pub open spec fn bin_units(c: int, p: int, t: int, u: int) -> int {
    c * pow2((p - u) as nat) * pow10((-t) as nat)
}

/// The binary unit exponent used for the value `m2 * 2^e2`: `min(e2 - 2, 0)`.
pub open spec fn bin_unit(e2: int) -> int {
    min_int(e2 - 2, 0)
}

/// `s * 10^q` lies in the rounding interval of `m2 * 2^e2`, compared in
/// units of `10^t * 2^bin_unit(e2)`.
pub open spec fn rounds_at(m2: nat, e2: int, narrow: bool, s: nat, q: int, t: int) -> bool {
    let u = bin_unit(e2);
    let d = dec_units(s, q, t, u);
    let lo = bin_units(4 * m2 - (if narrow { 1int } else { 2int }), e2 - 2, t, u);
    let hi = bin_units(4 * m2 + 2int, e2 - 2, t, u);
    if m2 % 2 == 0 {
        lo <= d && d <= hi
    } else {
        lo < d && d < hi
    }
}

/// `s * 10^q` reads back as the binary value `m2 * 2^e2` (round to nearest,
/// ties to even); `narrow` says the value is a power of two above the
/// smallest normal exponent, where the interval below is half as wide.
pub open spec fn rounds_to(m2: nat, e2: int, narrow: bool, s: nat, q: int) -> bool {
    rounds_at(m2, e2, narrow, s, q, min_int(q, 0))
}

/// A positive decimal that reads back as the value.
pub open spec fn candidate(m2: nat, e2: int, narrow: bool, s: nat, q: int) -> bool {
    s > 0 && rounds_to(m2, e2, narrow, s, q)
}

/// Distance from `s * 10^q` to `m2 * 2^e2` in units of `10^t * 2^bin_unit(e2)`.
pub open spec fn distance_at(m2: nat, e2: int, s: nat, q: int, t: int) -> int {
    let d = dec_units(s, q, t, bin_unit(e2)) - bin_units(4 * m2 as int, e2 - 2, t, bin_unit(e2));
    if d >= 0 { d } else { -d }
}

/// `s1 * 10^q1` is no farther from `m2 * 2^e2` than `s2 * 10^q2`.
pub open spec fn no_farther(m2: nat, e2: int, s1: nat, q1: int, s2: nat, q2: int) -> bool {
    let t = min_int(min_int(q1, q2), 0);
    distance_at(m2, e2, s1, q1, t) <= distance_at(m2, e2, s2, q2, t)
}

/// `s * 10^q` reads back as `m2 * 2^e2`, no such decimal has fewer digits,
/// and none with as many digits is nearer to the value.
pub open spec fn shortest_nearest(m2: nat, e2: int, narrow: bool, s: nat, q: int) -> bool {
    &&& candidate(m2, e2, narrow, s, q)
    &&& forall|s2: nat, q2: int| #[trigger]
        candidate(m2, e2, narrow, s2, q2) ==> num_digits(s) <= num_digits(s2)
    &&& forall|s2: nat, q2: int| #[trigger]
        candidate(m2, e2, narrow, s2, q2) && num_digits(s2) == num_digits(s) ==> no_farther(
            m2,
            e2,
            s,
            q,
            s2,
            q2,
        )
}

/// `s * 10^q` is the decimal ECMAScript chooses for `m2 * 2^e2`: it reads
/// back as the value, no such decimal has fewer digits, none with as few
/// digits is nearer, and when another is as near, `s` is even.
pub open spec fn chosen_decimal(m2: nat, e2: int, narrow: bool, s: nat, q: int) -> bool {
    &&& shortest_nearest(m2, e2, narrow, s, q)
    &&& forall|s2: nat, q2: int| #[trigger]
        candidate(m2, e2, narrow, s2, q2) && num_digits(s2) == num_digits(s) && no_farther(
            m2,
            e2,
            s2,
            q2,
            s,
            q,
        ) && (s2 != s || q2 != q) ==> s % 2 == 0
}

/// `num_digits(s) == k` exactly when `10^(k-1) <= s < 10^k` (`s > 0`).
pub proof fn lemma_num_digits(s: nat)
    requires
        s > 0,
    ensures
        num_digits(s) >= 1,
        pow10((num_digits(s) - 1) as nat) <= s < pow10(num_digits(s)),
    decreases s,
{
    if s >= 10 {
        lemma_num_digits(s / 10);
        let l = num_digits(s / 10);
        assert(num_digits(s) == l + 1);
        assert(pow10(l) == 10 * pow10((l - 1) as nat));
        assert(pow10(l + 1) == 10 * pow10(l));
    } else {
        assert(pow10(0) == 1);
        assert(pow10(1) == 10) by {
            reveal_with_fuel(pow10, 2);
        }
    }
}

/// A positive number between `10^(k-1)` and `10^k` has `k` digits.
pub proof fn lemma_num_digits_between(s: nat, k: nat)
    requires
        k >= 1,
        pow10((k - 1) as nat) <= s < pow10(k),
    ensures
        num_digits(s) == k,
{
    assert(pow10(0) == 1);
    if (k - 1) as nat > 0 {
        lemma_pow10_monotone(0, (k - 1) as nat);
    }
    lemma_num_digits(s);
    let l = num_digits(s);
    if l < k {
        lemma_pow10_monotone(l, (k - 1) as nat);
    }
    if l > k {
        lemma_pow10_monotone(k, (l - 1) as nat);
    }
}

/// Multiplying by a positive factor keeps the order.
proof fn lemma_scale_order(a: int, b: int, f: int)
    requires
        f > 0,
    ensures
        a < b <==> a * f < b * f,
        a <= b <==> a * f <= b * f,
        a == b <==> a * f == b * f,
{
    assert(a < b ==> a * f < b * f) by (nonlinear_arith)
        requires
            f > 0,
    ;
    assert(a * f < b * f ==> a < b) by (nonlinear_arith)
        requires
            f > 0,
    ;
    assert(a <= b ==> a * f <= b * f) by (nonlinear_arith)
        requires
            f > 0,
    ;
    assert(a * f <= b * f ==> a <= b) by (nonlinear_arith)
        requires
            f > 0,
    ;
}

/// Going to a finer decimal unit multiplies every quantity by `10^(t1 - t0)`.
proof fn lemma_units_rescale(s: nat, q: int, c: int, p: int, t0: int, t1: int, u: int)
    requires
        t0 <= t1,
        t1 <= q,
        t1 <= 0,
        u <= p,
        u <= 0,
    ensures
        dec_units(s, q, t0, u) == dec_units(s, q, t1, u) * pow10((t1 - t0) as nat),
        bin_units(c, p, t0, u) == bin_units(c, p, t1, u) * pow10((t1 - t0) as nat),
{
    let f = pow10((t1 - t0) as nat);
    lemma_pow10_add((q - t1) as nat, (t1 - t0) as nat);
    lemma_pow10_add((-t1) as nat, (t1 - t0) as nat);
    let a = pow10((q - t1) as nat);
    let b = pow10((-t1) as nat);
    let p2u = pow2((-u) as nat);
    let p2 = pow2((p - u) as nat);
    assert(s * (a * f) * p2u == (s * a * p2u) * f) by (nonlinear_arith);
    assert(c * p2 * (b * f) == (c * p2 * b) * f) by (nonlinear_arith);
}

/// Whether a decimal reads back as the value does not depend on the unit.
pub proof fn lemma_rounds_rescale(m2: nat, e2: int, narrow: bool, s: nat, q: int, t0: int, t1: int)
    requires
        t0 <= t1,
        t1 <= q,
        t1 <= 0,
    ensures
        rounds_at(m2, e2, narrow, s, q, t0) == rounds_at(m2, e2, narrow, s, q, t1),
{
    let u = bin_unit(e2);
    let f = pow10((t1 - t0) as nat);
    crate::digits::lemma_pow10_positive((t1 - t0) as nat);
    let lo_c = 4 * m2 - (if narrow { 1int } else { 2int });
    let hi_c: int = 4 * m2 + 2int;
    lemma_units_rescale(s, q, lo_c, e2 - 2, t0, t1, u);
    lemma_units_rescale(s, q, hi_c, e2 - 2, t0, t1, u);
    let d1 = dec_units(s, q, t1, u);
    let lo1 = bin_units(lo_c, e2 - 2, t1, u);
    let hi1 = bin_units(hi_c, e2 - 2, t1, u);
    lemma_scale_order(lo1, d1, f as int);
    lemma_scale_order(d1, hi1, f as int);
}

} // verus!

verus! {

/// `1` has one digit.
proof fn lemma_one_digit()
    ensures
        num_digits(1) == 1,
{
    assert(digit_values(1) =~= seq![1u8]);
}

/// Two decimals equally far from the value, on either side of it: any
/// decimal strictly between them is strictly nearer.
proof fn lemma_between_is_nearer(d1: int, d2: int, d3: int, v: int)
    requires
        d1 < d3 < d2,
        (if d1 - v >= 0 { d1 - v } else { v - d1 }) == (if d2 - v >= 0 { d2 - v } else { v - d2 }),
    ensures
        (if d3 - v >= 0 { d3 - v } else { v - d3 }) < (if d1 - v >= 0 { d1 - v } else { v - d1 }),
{
}

/// Two chosen decimals with the same exponent, the larger no farther, are
/// not both even.
proof fn lemma_same_exponent(m2: nat, e2: int, narrow: bool, s1: nat, s2: nat, q: int)
    requires
        chosen_decimal(m2, e2, narrow, s1, q),
        chosen_decimal(m2, e2, narrow, s2, q),
        s1 < s2,
        num_digits(s1) == num_digits(s2),
        no_farther(m2, e2, s2, q, s1, q),
    ensures
        s1 % 2 != 0 || s2 % 2 != 0,
{
    if s1 % 2 == 0 && s2 % 2 == 0 {
        lemma_same_exponent_gap(m2, e2, narrow, s1, s2, q);
    }
}

/// Two decimals with the same exponent, at least two apart and equally near
/// the value: the one just above the smaller is strictly nearer, so the
/// smaller is not the nearest.
proof fn lemma_same_exponent_gap(m2: nat, e2: int, narrow: bool, s1: nat, s2: nat, q: int)
    requires
        shortest_nearest(m2, e2, narrow, s1, q),
        candidate(m2, e2, narrow, s2, q),
        s2 >= s1 + 2,
        num_digits(s1) == num_digits(s2),
        no_farther(m2, e2, s2, q, s1, q),
    ensures
        candidate(m2, e2, narrow, (s1 + 1) as nat, q),
        num_digits((s1 + 1) as nat) == num_digits(s1),
        !no_farther(m2, e2, s1, q, (s1 + 1) as nat, q),
{
    let t = min_int(q, 0);
    let u = bin_unit(e2);
    let a = pow10((q - t) as nat);
    let b = pow2((-u) as nat);
    crate::digits::lemma_pow10_positive((q - t) as nat);
    vstd::arithmetic::power2::lemma_pow2_pos((-u) as nat);
    let s3 = (s1 + 1) as nat;
    let k = num_digits(s1);
    assert(min_int(min_int(q, q), 0) == t);
    let d1 = dec_units(s1, q, t, u);
    let d2 = dec_units(s2, q, t, u);
    let d3 = dec_units(s3, q, t, u);
    assert(d3 == d1 + a * b) by (nonlinear_arith)
        requires
            d1 == s1 * a * b,
            d3 == (s1 + 1) * a * b,
    ;
    assert(d2 >= d1 + 2 * (a * b)) by (nonlinear_arith)
        requires
            d1 == s1 * a * b,
            d2 == s2 * a * b,
            s2 >= s1 + 2,
            a > 0,
            b > 0,
    ;
    assert(a * b > 0) by (nonlinear_arith)
        requires
            a > 0,
            b > 0,
    ;
    let v = bin_units(4 * m2 as int, e2 - 2, t, u);
    lemma_between_is_nearer(d1, d2, d3, v);
    assert(rounds_at(m2, e2, narrow, s3, q, t));
    lemma_num_digits(s1);
    lemma_num_digits(s2);
    lemma_num_digits_between(s3, k);
    assert(candidate(m2, e2, narrow, s3, q));
}

/// A decimal with a larger exponent than a shortest nearest one, as many
/// digits and as far from the value, is `1` and both have a single digit.
#[verifier::spinoff_prover]
#[verifier::rlimit(30)]
proof fn lemma_larger_exponent(
    m2: nat,
    e2: int,
    narrow: bool,
    s1: nat,
    q1: int,
    s2: nat,
    q2: int,
)
    requires
        shortest_nearest(m2, e2, narrow, s1, q1),
        candidate(m2, e2, narrow, s2, q2),
        q1 < q2,
        num_digits(s1) == num_digits(s2),
        no_farther(m2, e2, s2, q2, s1, q1),
        no_farther(m2, e2, s1, q1, s2, q2),
    ensures
        num_digits(s1) == 1,
        s2 == 1,
{
    let k = num_digits(s1);
    lemma_num_digits(s1);
    lemma_num_digits(s2);
    let t = min_int(q1, 0);
    let u = bin_unit(e2);
    assert(min_int(min_int(q1, q2), 0) == t);
    let qc = k - 1 + q2;
    let b = pow2((-u) as nat);
    vstd::arithmetic::power2::lemma_pow2_pos((-u) as nat);
    // 10^(k-1+q2-t) lies between s1 * 10^(q1-t) and s2 * 10^(q2-t)
    let p1 = pow10((q1 - t) as nat);
    let p2 = pow10((q2 - t) as nat);
    let pk = pow10(k);
    let pk1 = pow10((k - 1) as nat);
    let pc = pow10((qc - t) as nat);
    lemma_pow10_add(k, (q1 - t) as nat);
    lemma_pow10_add((k - 1) as nat, (q2 - t) as nat);
    lemma_pow10_monotone((k + q1 - t) as nat, (qc - t) as nat);
    assert(pc == pk1 * p2);
    crate::digits::lemma_pow10_positive((q1 - t) as nat);
    assert(s1 * p1 < pc) by (nonlinear_arith)
        requires
            s1 < pk,
            p1 > 0,
            pk * p1 <= pc,
    ;
    crate::digits::lemma_pow10_positive((q2 - t) as nat);
    assert(pc <= s2 * p2) by (nonlinear_arith)
        requires
            pk1 <= s2,
            pc == pk1 * p2,
            p2 > 0,
    ;
    let d1 = dec_units(s1, q1, t, u);
    let d2 = dec_units(s2, q2, t, u);
    let dc = dec_units(1, qc, t, u);
    assert(dc == pc * b);
    lemma_scale_order((s1 * p1) as int, pc as int, b as int);
    lemma_scale_order(pc as int, (s2 * p2) as int, b as int);
    assert(d1 < dc <= d2);
    lemma_rounds_rescale(m2, e2, narrow, s2, q2, t, min_int(q2, 0));
    assert(rounds_at(m2, e2, narrow, 1, qc, t));
    lemma_rounds_rescale(m2, e2, narrow, 1, qc, t, min_int(qc, 0));
    assert(candidate(m2, e2, narrow, 1, qc));
    lemma_one_digit();
    if k > 1 {
        assert(num_digits(s1) <= num_digits(1));
    } else if s2 != 1 {
        // a single digit: `1 * 10^q2` is strictly between, hence nearer
        assert(s2 >= 2);
        assert(pk1 == 1);
        assert(pc < s2 * p2) by (nonlinear_arith)
            requires
                pc == p2,
                s2 >= 2,
                p2 > 0,
        ;
        lemma_scale_order(pc as int, (s2 * p2) as int, b as int);
        assert(dc < d2);
        let v = bin_units(4 * m2 as int, e2 - 2, t, u);
        lemma_between_is_nearer(d1, d2, dc, v);
        assert(min_int(min_int(q1, qc), 0) == t);
        assert(no_farther(m2, e2, s1, q1, 1, qc));
    }
}

/// ECMAScript's choice is unique: two chosen decimals are the same.
pub proof fn lemma_chosen_unique(
    m2: nat,
    e2: int,
    narrow: bool,
    s1: nat,
    q1: int,
    s2: nat,
    q2: int,
)
    requires
        chosen_decimal(m2, e2, narrow, s1, q1),
        chosen_decimal(m2, e2, narrow, s2, q2),
    ensures
        s1 == s2,
        q1 == q2,
{
    assert(candidate(m2, e2, narrow, s2, q2));
    assert(candidate(m2, e2, narrow, s1, q1));
    assert(num_digits(s1) == num_digits(s2));
    assert(no_farther(m2, e2, s1, q1, s2, q2));
    assert(no_farther(m2, e2, s2, q2, s1, q1));
    if s1 != s2 || q1 != q2 {
        assert(s1 % 2 == 0);
        assert(s2 % 2 == 0);
        if q1 == q2 {
            if s1 < s2 {
                lemma_same_exponent(m2, e2, narrow, s1, s2, q1);
            } else {
                lemma_same_exponent(m2, e2, narrow, s2, s1, q1);
            }
        } else if q1 < q2 {
            lemma_larger_exponent(m2, e2, narrow, s1, q1, s2, q2);
        } else {
            lemma_larger_exponent(m2, e2, narrow, s2, q2, s1, q1);
        }
    }
}

} // verus!

verus! {

/// A chosen decimal has no trailing zero (one could be dropped, giving a
/// decimal with fewer digits).
pub proof fn lemma_chosen_no_trailing_zero(m2: nat, e2: int, narrow: bool, s: nat, q: int)
    requires
        chosen_decimal(m2, e2, narrow, s, q),
    ensures
        s % 10 != 0,
{
    if s % 10 == 0 {
        let s1 = s / 10;
        let t = min_int(q, 0);
        let u = bin_unit(e2);
        assert(s == 10 * s1);
        assert(pow10((q + 1 - t) as nat) == 10 * pow10((q - t) as nat));
        assert(dec_units(s1, q + 1, t, u) == dec_units(s, q, t, u)) by (nonlinear_arith)
            requires
                s == 10 * s1,
                dec_units(s1, q + 1, t, u) == s1 * pow10((q + 1 - t) as nat) * pow2((-u) as nat),
                dec_units(s, q, t, u) == s * pow10((q - t) as nat) * pow2((-u) as nat),
                pow10((q + 1 - t) as nat) == 10 * pow10((q - t) as nat),
        ;
        assert(rounds_at(m2, e2, narrow, s1, q + 1, t));
        lemma_rounds_rescale(m2, e2, narrow, s1, q + 1, t, min_int(q + 1, 0));
        assert(s >= 10);
        assert(num_digits(s) == num_digits(s1) + 1);
        assert(candidate(m2, e2, narrow, s1, q + 1));
    }
}

} // verus!

verus! {

/// Significand `m2` of a finite binary64 value `m2 * 2^e2` (with the
/// implicit leading bit of normal values).
pub open spec fn significand64(bits: u64) -> nat {
    if exponent_field(bits) == 0 {
        significand_field(bits) as nat
    } else {
        (significand_field(bits) + pow2(52)) as nat
    }
}

/// Binary exponent `e2` of a finite binary64 value `m2 * 2^e2`.
pub open spec fn exponent64(bits: u64) -> int {
    if exponent_field(bits) == 0 { 1 - 1075 } else { exponent_field(bits) - 1075 }
}

/// The binary64 value is a power of two above the smallest normal one, so
/// the next value down is half as far as the next one up.
pub open spec fn narrow64(bits: u64) -> bool {
    significand_field(bits) == 0 && exponent_field(bits) > 1
}

/// Significand of a finite binary32 value.
pub open spec fn significand32(bits: u32) -> nat {
    if exponent_field32(bits) == 0 {
        significand_field32(bits) as nat
    } else {
        (significand_field32(bits) + pow2(23)) as nat
    }
}

/// Binary exponent of a finite binary32 value.
pub open spec fn exponent32(bits: u32) -> int {
    if exponent_field32(bits) == 0 { 1 - 150 } else { exponent_field32(bits) - 150 }
}

/// Power of two above the smallest normal binary32 value.
pub open spec fn narrow32(bits: u32) -> bool {
    significand_field32(bits) == 0 && exponent_field32(bits) > 1
}

/// `s * 10^q` is the decimal ECMAScript's `Number::toString` chooses for the
/// binary64 value with bit pattern `bits` (ECMA-262 step 5 with
/// `k = num_digits(s)`, `n = q + k`).
pub open spec fn is_ecma_decimal(bits: u64, s: nat, q: int) -> bool {
    chosen_decimal(significand64(bits), exponent64(bits), narrow64(bits), s, q)
}

/// The same choice for a binary32 value.
pub open spec fn is_ecma_decimal32(bits: u32, s: nat, q: int) -> bool {
    chosen_decimal(significand32(bits), exponent32(bits), narrow32(bits), s, q)
}

/// The text of a value as ECMA-262 `Number::toString` defines it: `NaN`,
/// `Infinity`, `-Infinity`, `0` for both zeros, and otherwise the sign and the
/// layout of steps 6 to 10 for the decimal `s * 10^q` of step 5 (digits of
/// `s`, `n = q + k`, decimal exponent `n - 1`).
pub open spec fn ecma_string(class: FloatClass, negative: bool, s: nat, q: int) -> Seq<u8> {
    match class {
        FloatClass::Nan => nan_text(),
        FloatClass::Infinite => if negative {
            neg_infinity_text()
        } else {
            infinity_text()
        },
        FloatClass::Zero => zero_text(),
        FloatClass::Finite => ecma_text(negative, digit_values(s), q + num_digits(s) - 1),
    }
}

/// ECMA-262 `Number::toString(x)` for the binary64 value with bit pattern
/// `bits`.
pub open spec fn number_to_string(bits: u64) -> Seq<u8> {
    let d = choose|s: nat, q: int| is_ecma_decimal(bits, s, q);
    ecma_string(class_of(bits), sign_bit(bits), d.0, d.1)
}

/// The same for the binary32 value with bit pattern `bits`.
pub open spec fn number_to_string32(bits: u32) -> Seq<u8> {
    let d = choose|s: nat, q: int| is_ecma_decimal32(bits, s, q);
    ecma_string(class_of32(bits), sign_bit32(bits), d.0, d.1)
}

/// Given ECMAScript's decimal of a finite value, the layout of `write_ecma`
/// is ECMAScript's: `classified_text` is `ecma_string`.
pub proof fn lemma_classified_is_ecma(
    class: FloatClass,
    negative: bool,
    m2: nat,
    e2: int,
    narrow: bool,
    s: nat,
    q: int,
)
    requires
        chosen_decimal(m2, e2, narrow, s, q),
    ensures
        classified_text(class, negative, s, q) == ecma_string(class, negative, s, q),
{
    lemma_chosen_no_trailing_zero(m2, e2, narrow, s, q);
    assert(strip_zeros(s) == s);
    assert(trailing_zeros(s) == 0);
}

} // verus!

verus! {

/// ECMAScript's decimal of `1.0` (significand `2^52`, exponent `-52`) is
/// `1 * 10^0`: the choice is met by an actual value.
pub proof fn lemma_decimal_of_one()
    ensures
        chosen_decimal(pow2(52), -52, true, 1, 0),
{
    let m2 = pow2(52);
    vstd::arithmetic::power2::lemma2_to64();
    vstd::arithmetic::power2::lemma2_to64_rest();
    assert(pow10(0) == 1);
    let e2: int = -52;
    let u = bin_unit(e2);
    assert(u == -54);
    assert(m2 == 0x10_0000_0000_0000);
    assert(pow2(54) == 0x40_0000_0000_0000);
    // 1 reads back as 1.0
    assert((-u) as nat == 54);
    assert(dec_units(1, 0, 0, u) == 1 * pow10(0) * pow2(54));
    assert(1 * pow10(0) * pow2(54) == pow2(54)) by (nonlinear_arith)
        requires
            pow10(0) == 1,
    ;
    assert(bin_units(4 * m2 - 1, e2 - 2, 0, u) == pow2(54) - 1);
    assert(bin_units(4 * m2 + 2int, e2 - 2, 0, u) == pow2(54) + 2);
    assert(candidate(m2, e2, true, 1, 0));
    assert forall|s2: nat, q2: int| #[trigger] candidate(m2, e2, true, s2, q2) implies num_digits(1)
        <= num_digits(s2) by {
        lemma_num_digits(s2);
        lemma_one_digit();
    }
    assert forall|s2: nat, q2: int| #[trigger]
        candidate(m2, e2, true, s2, q2) && num_digits(s2) == num_digits(1) implies no_farther(
        m2,
        e2,
        1,
        0,
        s2,
        q2,
    ) by {
        let t = min_int(min_int(0, q2), 0);
        let a = pow10((-t) as nat);
        assert((-u) as nat == 54);
        assert(dec_units(1, 0, t, u) == 1 * a * pow2(54));
        assert(1 * a * pow2(54) == a * pow2(54)) by (nonlinear_arith);
        assert(bin_units(4 * m2 as int, e2 - 2, t, u) == 4 * m2 * 1 * a);
        assert(4 * m2 * 1 * a == a * pow2(54)) by (nonlinear_arith)
            requires
                4 * m2 == pow2(54),
        ;
    }
    assert forall|s2: nat, q2: int| #[trigger]
        candidate(m2, e2, true, s2, q2) && num_digits(s2) == num_digits(1) && no_farther(
            m2,
            e2,
            s2,
            q2,
            1,
            0,
        ) && (s2 != 1 || q2 != 0) implies 1nat % 2 == 0 by {
        lemma_one_digit();
        lemma_num_digits(s2);
        assert(pow10(1) == 10) by {
            reveal_with_fuel(pow10, 2);
        }
        let t = min_int(min_int(q2, 0), 0);
        let a = pow10((-t) as nat);
        let b = pow10((q2 - t) as nat);
        let c = pow2(54);
        assert((-u) as nat == 54);
        assert(dec_units(1, 0, t, u) == 1 * a * c);
        assert(1 * a * c == a * c) by (nonlinear_arith);
        assert(bin_units(4 * m2 as int, e2 - 2, t, u) == 4 * m2 * 1 * a);
        assert(4 * m2 * 1 * a == a * c) by (nonlinear_arith)
            requires
                4 * m2 == c,
        ;
        // the distance of s2 * 10^q2 is zero, so it is 1
        assert(dec_units(s2, q2, t, u) == s2 * b * c);
        assert(s2 * b * c == a * c);
        assert(s2 * b == a) by (nonlinear_arith)
            requires
                s2 * b * c == a * c,
                c > 0,
        ;
        if q2 >= 0 {
            assert(t == 0);
            assert(a == 1);
            crate::digits::lemma_pow10_positive(q2 as nat);
            assert(s2 * b == 1);
            assert(s2 == 1 && b == 1) by (nonlinear_arith)
                requires
                    s2 * b == 1,
                    s2 > 0,
                    b > 0,
            ;
            if q2 > 0 {
                lemma_pow10_monotone(1, q2 as nat);
            }
        } else {
            assert(t == q2);
            assert(b == 1);
            lemma_pow10_monotone(1, (-q2) as nat);
            assert(s2 >= 10);
        }
    }
}

} // verus!

verus! {

/// A point of the grid `N * g` strictly inside an interval wider than the
/// grid step, with `N` small when the interval is narrow against its end.
proof fn lemma_grid_point(lo: int, hi: int, g: int, f: int, w: int, hc: int, bound: int) -> (n: int)
    requires
        lo >= 0,
        g > 0,
        f > 0,
        w > 0,
        hi - lo == w * f,
        g < w * f,
        w * f <= 10 * g,
        hi == hc * f,
        hc >= 0,
        10 * hc <= w * bound,
    ensures
        lo < n * g < hi,
        1 <= n < bound,
{
    let n = lo / g + 1;
    assert(n * g == (lo / g) * g + g) by (nonlinear_arith)
        requires
            n == lo / g + 1,
    ;
    assert(lo / g * g <= lo && lo < lo / g * g + g) by (nonlinear_arith)
        requires
            g > 0,
            lo >= 0,
    ;
    assert(lo / g >= 0) by (nonlinear_arith)
        requires
            g > 0,
            lo >= 0,
    ;
    assert(w * (n * g) < w * hi) by (nonlinear_arith)
        requires
            n * g < hi,
            w > 0,
    ;
    assert(w * hi <= 10 * hc * g) by (nonlinear_arith)
        requires
            hi == hc * f,
            w * f <= 10 * g,
            hc >= 0,
    {
    }
    assert(w * n < w * bound) by (nonlinear_arith)
        requires
            w * (n * g) < w * hi,
            w * hi <= 10 * hc * g,
            10 * hc <= w * bound,
            g > 0,
    ;
    assert(n < bound) by (nonlinear_arith)
        requires
            w * n < w * bound,
            w > 0,
    ;
    n
}

} // verus!

verus! {

/// Every finite binary64-sized value has a decimal with at most 17 digits
/// that reads back as it.
#[verifier::spinoff_prover]
#[verifier::rlimit(30)]
pub proof fn lemma_short_candidate(m2: nat, e2: int, narrow: bool) -> (r: (nat, int))
    requires
        1 <= m2 < pow2(53),
        narrow ==> m2 <= pow2(52),
    ensures
        candidate(m2, e2, narrow, r.0, r.1),
        r.0 < pow10(17),
{
    vstd::arithmetic::power2::lemma2_to64();
    vstd::arithmetic::power2::lemma2_to64_rest();
    assert(pow10(17) == 100000000000000000) by {
        reveal_with_fuel(pow10, 18);
    }
    let p = e2 - 2;
    let u = bin_unit(e2);
    let lo_c: int = 4 * m2 - (if narrow { 1int } else { 2int });
    let hc: int = 4 * m2 + 2int;
    let w: int = hc - lo_c;
    let bound: int = pow10(17) as int;
    assert(10 * hc <= w * bound);
    if p >= 0 {
        assert(u == 0);
        let f = pow2(p as nat);
        vstd::arithmetic::power2::lemma_pow2_pos(p as nat);
        let ww = w * f;
        assert(ww >= 3) by (nonlinear_arith)
            requires
                w >= 3,
                f >= 1,
                ww == w * f,
        ;
        let q0 = num_digits((ww - 1) as nat) - 1;
        lemma_num_digits((ww - 1) as nat);
        let g = pow10(q0 as nat);
        assert(pow10((q0 + 1) as nat) == 10 * g);
        crate::digits::lemma_pow10_positive(q0 as nat);
        let lo = lo_c * f;
        let hi = hc * f;
        assert(hi - lo == w * f) by (nonlinear_arith)
            requires
                lo == lo_c * f,
                hi == hc * f,
                w == hc - lo_c,
        ;
        assert(lo >= 0) by (nonlinear_arith)
            requires
                lo == lo_c * f,
                lo_c >= 0,
                f >= 0,
        ;
        let n = lemma_grid_point(lo, hi, g as int, f as int, w, hc, bound);
        assert(min_int(q0, 0) == 0);
        assert(pow10(0) == 1);
        assert(dec_units(n as nat, q0, 0, u) == n * g) by (nonlinear_arith)
            requires
                dec_units(n as nat, q0, 0, u) == n * pow10((q0 - 0) as nat) * pow2(0),
                pow2(0) == 1,
                pow10((q0 - 0) as nat) == g,
        ;
        assert(bin_units(lo_c, p, 0, u) == lo);
        assert(bin_units(hc, p, 0, u) == hi);
        assert(rounds_at(m2, e2, narrow, n as nat, q0, 0));
        (n as nat, q0)
    } else {
        let j = (-p) as nat;
        assert(u == p);
        let g = pow2(j);
        vstd::arithmetic::power2::lemma_pow2_pos(j);
        if g < w {
            assert(j == 1) by {
                if j >= 2 {
                    vstd::arithmetic::power2::lemma_pow2_strictly_increases(2, j);
                }
            }
            let lo = lo_c * 1;
            let hi = hc * 1;
            let n = lemma_grid_point(lo, hi, g as int, 1, w, hc, bound);
            assert(pow10(0) == 1);
            assert(dec_units(n as nat, 0, 0, u) == n * g) by (nonlinear_arith)
                requires
                    dec_units(n as nat, 0, 0, u) == n * pow10(0) * pow2(j),
                    pow10(0) == 1,
                    g == pow2(j),
            ;
            assert(bin_units(lo_c, p, 0, u) == lo);
            assert(bin_units(hc, p, 0, u) == hi);
            assert(rounds_at(m2, e2, narrow, n as nat, 0, 0));
            (n as nat, 0)
        } else {
            let x = g / (w as nat);
            assert(x >= 1) by (nonlinear_arith)
                requires
                    x == g / (w as nat),
                    g >= w,
                    w > 0,
            ;
            let r = num_digits(x);
            lemma_num_digits(x);
            let q0 = -(r as int);
            let f = pow10(r);
            crate::digits::lemma_pow10_positive(r);
            assert(f == 10 * pow10((r - 1) as nat));
            assert(g < w * f) by (nonlinear_arith)
                requires
                    x == g / (w as nat),
                    x + 1 <= f,
                    w > 0,
            ;
            assert(w * f <= 10 * g) by (nonlinear_arith)
                requires
                    x == g / (w as nat),
                    pow10((r - 1) as nat) <= x,
                    f == 10 * pow10((r - 1) as nat),
                    w > 0,
            ;
            let lo = lo_c * f;
            let hi = hc * f;
            assert(hi - lo == w * f) by (nonlinear_arith)
                requires
                    lo == lo_c * f,
                    hi == hc * f,
                    w == hc - lo_c,
            ;
            assert(lo >= 0) by (nonlinear_arith)
                requires
                    lo == lo_c * f,
                    lo_c >= 0,
                    f >= 0,
            ;
            let n = lemma_grid_point(lo, hi, g as int, f as int, w, hc, bound);
            assert(min_int(q0, 0) == q0);
            assert(pow10(0) == 1);
            assert(dec_units(n as nat, q0, q0, u) == n * g) by (nonlinear_arith)
                requires
                    dec_units(n as nat, q0, q0, u) == n * pow10(0) * pow2(j),
                    pow10(0) == 1,
                    g == pow2(j),
            ;
            assert(bin_units(lo_c, p, q0, u) == lo_c * pow2(0) * pow10(r));
            assert(bin_units(lo_c, p, q0, u) == lo);
            assert(bin_units(hc, p, q0, u) == hi);
            assert(rounds_at(m2, e2, narrow, n as nat, q0, q0));
            (n as nat, q0)
        }
    }
}

} // verus!

verus! {

/// `2^(4n) <= 10^(2n)` (as `16 <= 100`).
pub proof fn lemma_pow2_below_pow10(n: nat)
    ensures
        pow2(4 * n) <= pow10(2 * n),
    decreases n,
{
    if n > 0 {
        lemma_pow2_below_pow10((n - 1) as nat);
        vstd::arithmetic::power2::lemma_pow2_adds((4 * (n - 1)) as nat, 4);
        vstd::arithmetic::power2::lemma2_to64();
        lemma_pow10_add((2 * (n - 1)) as nat, 2);
        assert(pow10(2) == 100) by {
            reveal_with_fuel(pow10, 3);
        }
        let a = pow2((4 * (n - 1)) as nat);
        let b = pow10((2 * (n - 1)) as nat);
        assert(((4 * (n - 1)) as nat + 4) as nat == 4 * n);
        assert(((2 * (n - 1)) as nat + 2) as nat == 2 * n);
        assert(pow2(4 * n) == a * 16);
        assert(pow10(2 * n) == b * 100);
        assert(a * 16 <= b * 100) by (nonlinear_arith)
            requires
                a <= b,
        ;
    } else {
        vstd::arithmetic::power2::lemma2_to64();
        assert(pow10(0) == 1);
    }
}

/// ECMAScript's decimal of a binary64-sized value has at most 17 digits.
pub proof fn lemma_chosen_digits(m2: nat, e2: int, narrow: bool, s: nat, q: int)
    requires
        chosen_decimal(m2, e2, narrow, s, q),
        1 <= m2 < pow2(53),
        narrow ==> m2 <= pow2(52),
    ensures
        num_digits(s) <= 17,
{
    let c = lemma_short_candidate(m2, e2, narrow);
    assert(num_digits(s) <= num_digits(c.0));
    lemma_num_digits(c.0);
    let kn = num_digits(c.0);
    if kn > 17 {
        lemma_pow10_monotone(17, (kn - 1) as nat);
    }
}

/// Upper half of `lemma_chosen_exponent`.
#[verifier::spinoff_prover]
#[verifier::rlimit(30)]
proof fn lemma_chosen_exponent_upper(m2: nat, e2: int, narrow: bool, s: nat, q: int)
    requires
        chosen_decimal(m2, e2, narrow, s, q),
        1 <= m2 < pow2(53),
        -1074 <= e2 <= 971,
    ensures
        q + num_digits(s) - 1 <= 999,
{
    let k = num_digits(s);
    lemma_num_digits(s);
    let e = q + k - 1;
    let t = min_int(q, 0);
    let u = bin_unit(e2);
    let p = e2 - 2;
    let ff = pow10((-t) as nat);
    let bb = pow2((-u) as nat);
    let cc = pow2((p - u) as nat);
    crate::digits::lemma_pow10_positive((-t) as nat);
    vstd::arithmetic::power2::lemma_pow2_pos((-u) as nat);
    vstd::arithmetic::power2::lemma_pow2_pos((p - u) as nat);
    vstd::arithmetic::power2::lemma2_to64();
    vstd::arithmetic::power2::lemma2_to64_rest();
    let lo_c: int = 4 * m2 - (if narrow { 1int } else { 2int });
    let hc: int = 4 * m2 + 2int;
    let d = dec_units(s, q, t, u);
    let lo = bin_units(lo_c, p, t, u);
    let hi = bin_units(hc, p, t, u);
    assert(lo <= d <= hi);
    let a = pow10((q - t) as nat);
    assert(d == s * a * bb);
    lemma_pow2_below_pow10(257);
    lemma_pow2_below_pow10(269);
    if e > 999 {
        // s * 10^q >= 10^e > 2^1025 > the upper bound of the interval
        lemma_pow10_add((k - 1) as nat, (q - t) as nat);
        lemma_pow10_add(e as nat, (-t) as nat);
        let pe = pow10(e as nat);
        assert(pow10((k - 1) as nat) * a == pe * ff);
        assert(pe * ff * bb <= d) by (nonlinear_arith)
            requires
                pow10((k - 1) as nat) <= s,
                pow10((k - 1) as nat) * a == pe * ff,
                d == s * a * bb,
                a >= 0,
                bb >= 0,
        ;
        assert(hi == hc * cc * ff);
        assert(pe * bb <= hc * cc) by (nonlinear_arith)
            requires
                pe * ff * bb <= hc * cc * ff,
                ff > 0,
        ;
        lemma_pow10_monotone(514, e as nat);
        assert(hc < pow2(56));
        if p >= 0 {
            vstd::arithmetic::power2::lemma_pow2_adds(56, p as nat);
            vstd::arithmetic::power2::lemma_pow2_strictly_increases((56 + p) as nat, 1028);
            assert(cc == pow2(p as nat));
            assert(hc * cc < pow2(56) * cc) by (nonlinear_arith)
                requires
                    hc < pow2(56),
                    cc > 0,
            ;
            assert(pow2(56) * cc < pow2(1028));
            assert(pow2(4 * 257) <= pow10(2 * 257));
            assert(pow2(1028) <= pow10(514));
            assert(pow10(514) <= pe);
            assert(pe * bb >= pe) by (nonlinear_arith)
                requires
                    bb >= 1,
                    pe >= 0,
            ;
        } else {
            assert(cc == 1);
            assert(hc * cc == hc) by (nonlinear_arith)
                requires
                    cc == 1,
            ;
            lemma_pow10_monotone(17, e as nat);
            assert(pow10(17) == 100000000000000000) by {
                reveal_with_fuel(pow10, 18);
            }
            assert(pe * bb >= pe) by (nonlinear_arith)
                requires
                    bb >= 1,
                    pe >= 0,
            ;
        }
    }
}

/// Lower half of `lemma_chosen_exponent`.
#[verifier::spinoff_prover]
#[verifier::rlimit(30)]
proof fn lemma_chosen_exponent_lower(m2: nat, e2: int, narrow: bool, s: nat, q: int)
    requires
        candidate(m2, e2, narrow, s, q),
        1 <= m2 < pow2(53),
        -1074 <= e2 <= 971,
    ensures
        -999 <= q + num_digits(s) - 1,
{
    let k = num_digits(s);
    lemma_num_digits(s);
    let e = q + k - 1;
    let t = min_int(q, 0);
    let u = bin_unit(e2);
    let p = e2 - 2;
    let ff = pow10((-t) as nat);
    let bb = pow2((-u) as nat);
    let cc = pow2((p - u) as nat);
    crate::digits::lemma_pow10_positive((-t) as nat);
    vstd::arithmetic::power2::lemma_pow2_pos((-u) as nat);
    vstd::arithmetic::power2::lemma_pow2_pos((p - u) as nat);
    vstd::arithmetic::power2::lemma2_to64();
    vstd::arithmetic::power2::lemma2_to64_rest();
    let lo_c: int = 4 * m2 - (if narrow { 1int } else { 2int });
    let hc: int = 4 * m2 + 2int;
    let d = dec_units(s, q, t, u);
    let lo = bin_units(lo_c, p, t, u);
    let hi = bin_units(hc, p, t, u);
    assert(lo <= d <= hi);
    let a = pow10((q - t) as nat);
    assert(d == s * a * bb);
    lemma_pow2_below_pow10(257);
    lemma_pow2_below_pow10(269);
    if e < -999 {
        // s * 10^q < 10^(e+1) <= 10^-999 < 2^-1076 < the lower bound
        lemma_pow10_add(k, (q - t) as nat);
        let ph = pow10((e + 1 - t) as nat);
        assert(pow10(k) * a == ph);
        assert(d < ph * bb) by (nonlinear_arith)
            requires
                s < pow10(k),
                pow10(k) * a == ph,
                d == s * a * bb,
                a > 0,
                bb > 0,
        {
        }
        lemma_pow10_add((e + 1 - t) as nat, 999);
        lemma_pow10_monotone((e + 1 - t + 999) as nat, (-t) as nat);
        let p999 = pow10(999);
        crate::digits::lemma_pow10_positive(999);
        assert(ph * p999 <= ff);
        assert(lo == lo_c * cc * ff);
        assert(lo_c >= 2);
        assert(2 * cc * ff * p999 < ff * bb) by (nonlinear_arith)
            requires
                lo <= d,
                lo == lo_c * cc * ff,
                lo_c >= 2,
                d < ph * bb,
                ph * p999 <= ff,
                cc > 0,
                ff > 0,
                p999 > 0,
                bb > 0,
        ;
        assert(2 * cc * p999 < bb) by (nonlinear_arith)
            requires
                2 * cc * ff * p999 < ff * bb,
                ff > 0,
        ;
        lemma_pow10_monotone(538, 999);
        if p >= 0 {
            assert(bb == 1);
            assert(2 * cc * p999 >= 2) by (nonlinear_arith)
                requires
                    cc >= 1,
                    p999 >= 1,
            ;
        } else {
            assert(cc == 1);
            if (-u) < 1076 {
                vstd::arithmetic::power2::lemma_pow2_strictly_increases((-u) as nat, 1076);
            }
            assert(bb <= pow2(1076));
            assert(pow2(4 * 269) <= pow10(2 * 269));
            assert(bb <= p999);
            assert(2 * cc * p999 >= bb) by (nonlinear_arith)
                requires
                    cc == 1,
                    bb <= p999,
                    p999 >= 0,
            ;
        }
    }
}

/// The decimal exponent of ECMAScript's decimal of a binary64 value lies
/// between -999 and 999.
pub proof fn lemma_chosen_exponent(m2: nat, e2: int, narrow: bool, s: nat, q: int)
    requires
        chosen_decimal(m2, e2, narrow, s, q),
        1 <= m2 < pow2(53),
        -1074 <= e2 <= 971,
    ensures
        -999 <= q + num_digits(s) - 1 <= 999,
{
    lemma_chosen_exponent_upper(m2, e2, narrow, s, q);
    lemma_chosen_exponent_lower(m2, e2, narrow, s, q);
}

} // verus!

verus! {

/// Distances scale with the decimal unit like every other quantity.
proof fn lemma_distance_rescale(m2: nat, e2: int, s: nat, q: int, t0: int, t1: int)
    requires
        t0 <= t1,
        t1 <= q,
        t1 <= 0,
    ensures
        distance_at(m2, e2, s, q, t0) == distance_at(m2, e2, s, q, t1) * pow10((t1 - t0) as nat),
{
    let u = bin_unit(e2);
    let f = pow10((t1 - t0) as nat);
    lemma_units_rescale(s, q, 4 * m2 as int, e2 - 2, t0, t1, u);
    let d1 = dec_units(s, q, t1, u);
    let v1 = bin_units(4 * m2 as int, e2 - 2, t1, u);
    crate::digits::lemma_pow10_positive((t1 - t0) as nat);
    assert(d1 * f - v1 * f == (d1 - v1) * f) by (nonlinear_arith);
    assert((if (d1 - v1) * f >= 0 { (d1 - v1) * f } else { -((d1 - v1) * f) }) == (if d1 - v1
        >= 0 { d1 - v1 } else { -(d1 - v1) }) * f) by (nonlinear_arith)
        requires
            f > 0,
    ;
}

/// The decimal unit in which all decimals of interest are compared.
pub open spec fn global_unit() -> int {
    -1100
}

/// Distance to the value in the global unit.
pub open spec fn global_distance(m2: nat, e2: int, s: nat, q: int) -> int {
    distance_at(m2, e2, s, q, global_unit())
}

/// For decimals with exponents above the global unit, "no farther" is the
/// comparison of global distances.
proof fn lemma_no_farther_global(m2: nat, e2: int, s1: nat, q1: int, s2: nat, q2: int)
    requires
        q1 >= global_unit(),
        q2 >= global_unit(),
    ensures
        no_farther(m2, e2, s1, q1, s2, q2) <==> global_distance(m2, e2, s1, q1)
            <= global_distance(m2, e2, s2, q2),
{
    let t = min_int(min_int(q1, q2), 0);
    lemma_distance_rescale(m2, e2, s1, q1, global_unit(), t);
    lemma_distance_rescale(m2, e2, s2, q2, global_unit(), t);
    crate::digits::lemma_pow10_positive((t - global_unit()) as nat);
    lemma_scale_order(
        distance_at(m2, e2, s1, q1, t),
        distance_at(m2, e2, s2, q2, t),
        pow10((t - global_unit()) as nat) as int,
    );
}

/// Some decimal with `k` digits reads back as the value.
pub open spec fn has_candidate_with(m2: nat, e2: int, narrow: bool, k: nat) -> bool {
    exists|s: nat, q: int| #[trigger] candidate(m2, e2, narrow, s, q) && num_digits(s) == k
}

/// The fewest digits of a decimal that reads back as the value.
proof fn lemma_fewest_digits(m2: nat, e2: int, narrow: bool, j: nat) -> (k: nat)
    requires
        has_candidate_with(m2, e2, narrow, j),
    ensures
        has_candidate_with(m2, e2, narrow, k),
        k <= j,
        forall|k2: nat| k2 < k ==> !#[trigger] has_candidate_with(m2, e2, narrow, k2),
    decreases j,
{
    if exists|k2: nat| k2 < j && #[trigger] has_candidate_with(m2, e2, narrow, k2) {
        let k2 = choose|k2: nat| k2 < j && #[trigger] has_candidate_with(m2, e2, narrow, k2);
        lemma_fewest_digits(m2, e2, narrow, k2)
    } else {
        j
    }
}

/// Some `k`-digit decimal that reads back as the value is within `v` of it
/// (global unit).
pub open spec fn near_within(m2: nat, e2: int, narrow: bool, k: nat, v: nat) -> bool {
    exists|s: nat, q: int|
        #[trigger] candidate(m2, e2, narrow, s, q) && num_digits(s) == k && global_distance(
            m2,
            e2,
            s,
            q,
        ) <= v
}

/// A nearest `k`-digit decimal that reads back as the value.
proof fn lemma_nearest(m2: nat, e2: int, narrow: bool, k: nat, v: nat) -> (r: (nat, int))
    requires
        near_within(m2, e2, narrow, k, v),
    ensures
        candidate(m2, e2, narrow, r.0, r.1),
        num_digits(r.0) == k,
        forall|s: nat, q: int| #[trigger]
            candidate(m2, e2, narrow, s, q) && num_digits(s) == k ==> global_distance(
                m2,
                e2,
                r.0,
                r.1,
            ) <= global_distance(m2, e2, s, q),
    decreases v,
{
    if v > 0 && near_within(m2, e2, narrow, k, (v - 1) as nat) {
        lemma_nearest(m2, e2, narrow, k, (v - 1) as nat)
    } else {
        let r = choose|s: nat, q: int|
            #[trigger] candidate(m2, e2, narrow, s, q) && num_digits(s) == k && global_distance(
                m2,
                e2,
                s,
                q,
            ) <= v;
        assert forall|s: nat, q: int| #[trigger]
            candidate(m2, e2, narrow, s, q) && num_digits(s) == k implies global_distance(
            m2,
            e2,
            r.0,
            r.1,
        ) <= global_distance(m2, e2, s, q) by {
            if v > 0 && global_distance(m2, e2, s, q) <= v - 1 {
                assert(near_within(m2, e2, narrow, k, (v - 1) as nat));
            }
        }
        r
    }
}

} // verus!

verus! {

/// A decimal strictly between two equally near decimals that read back as
/// the value also reads back as it, and is strictly nearer.
proof fn lemma_between_nearer(
    m2: nat,
    e2: int,
    narrow: bool,
    s1: nat,
    q1: int,
    s2: nat,
    q2: int,
    s3: nat,
    q3: int,
    t: int,
)
    requires
        candidate(m2, e2, narrow, s1, q1),
        candidate(m2, e2, narrow, s2, q2),
        s3 > 0,
        t == min_int(min_int(q1, q2), 0),
        t == min_int(min_int(q1, q3), 0),
        no_farther(m2, e2, s1, q1, s2, q2),
        no_farther(m2, e2, s2, q2, s1, q1),
        dec_units(s1, q1, t, bin_unit(e2)) < dec_units(s3, q3, t, bin_unit(e2)) < dec_units(
            s2,
            q2,
            t,
            bin_unit(e2),
        ),
    ensures
        candidate(m2, e2, narrow, s3, q3),
        !no_farther(m2, e2, s1, q1, s3, q3),
{
    let u = bin_unit(e2);
    lemma_rounds_rescale(m2, e2, narrow, s1, q1, t, min_int(q1, 0));
    lemma_rounds_rescale(m2, e2, narrow, s2, q2, t, min_int(q2, 0));
    assert(rounds_at(m2, e2, narrow, s3, q3, t));
    lemma_rounds_rescale(m2, e2, narrow, s3, q3, t, min_int(q3, 0));
    let v = bin_units(4 * m2 as int, e2 - 2, t, u);
    lemma_between_is_nearer(
        dec_units(s1, q1, t, u),
        dec_units(s2, q2, t, u),
        dec_units(s3, q3, t, u),
        v,
    );
}

/// Doubling keeps a number off the multiples of 5 and of 19.
proof fn lemma_double_not_multiple(x: int, m: int)
    requires
        m == 5 || m == 19,
        x % m != 0,
    ensures
        (2 * x) % m != 0,
{
    let r = x % m;
    let a = x / m;
    assert(x == m * a + r) by (nonlinear_arith)
        requires
            m > 0,
            r == x % m,
            a == x / m,
    ;
    assert(0 < r < m);
    assert(2 * x == m * (2 * a) + 2 * r) by (nonlinear_arith)
        requires
            x == m * a + r,
    ;
    if 2 * r < m {
        assert((2 * x) % m == 2 * r) by (nonlinear_arith)
            requires
                2 * x == m * (2 * a) + 2 * r,
                0 <= 2 * r < m,
                m > 0,
        ;
    } else {
        assert(2 * x == m * (2 * a + 1) + (2 * r - m)) by (nonlinear_arith)
            requires
                2 * x == m * (2 * a) + 2 * r,
        ;
        assert((2 * x) % m == 2 * r - m) by (nonlinear_arith)
            requires
                2 * x == m * (2 * a + 1) + (2 * r - m),
                0 <= 2 * r - m < m,
                m > 0,
        ;
        assert(2 * r - m != 0) by {
            assert(m % 2 == 1);
        }
    }
}

/// Multiplying by a power of two keeps a number off the multiples of 5 and
/// of 19.
proof fn lemma_pow2_not_multiple(x: int, m: int, j: nat)
    requires
        m == 5 || m == 19,
        x % m != 0,
    ensures
        (x * pow2(j)) % m != 0,
    decreases j,
{
    if j == 0 {
        vstd::arithmetic::power2::lemma2_to64();
        assert(x * pow2(0) == x);
    } else {
        lemma_pow2_not_multiple(x, m, (j - 1) as nat);
        vstd::arithmetic::power2::lemma_pow2_unfold(j);
        lemma_double_not_multiple(x * pow2((j - 1) as nat), m);
        assert(x * pow2(j) == 2 * (x * pow2((j - 1) as nat))) by (nonlinear_arith)
            requires
                pow2(j) == 2 * pow2((j - 1) as nat),
        ;
    }
}

/// The value is never exactly halfway between `9 * 10^q` and `10^(q+1)`
/// while both read back as it.
proof fn lemma_no_nine_ten_tie(m2: nat, e2: int, narrow: bool, q: int)
    requires
        candidate(m2, e2, narrow, 9, q),
        candidate(m2, e2, narrow, 1, q + 1),
        m2 >= 1,
    ensures
        !(no_farther(m2, e2, 9, q, 1, q + 1) && no_farther(m2, e2, 1, q + 1, 9, q)),
{
    if no_farther(m2, e2, 9, q, 1, q + 1) && no_farther(m2, e2, 1, q + 1, 9, q) {
        let t = min_int(q, 0);
        let u = bin_unit(e2);
        let p = e2 - 2;
        assert(min_int(min_int(q, q + 1), 0) == t);
        let pp = pow10((q - t) as nat);
        let bb = pow2((-u) as nat);
        let cc = pow2((p - u) as nat);
        let ff = pow10((-t) as nat);
        crate::digits::lemma_pow10_positive((q - t) as nat);
        crate::digits::lemma_pow10_positive((-t) as nat);
        vstd::arithmetic::power2::lemma_pow2_pos((-u) as nat);
        vstd::arithmetic::power2::lemma_pow2_pos((p - u) as nat);
        assert(pow10((q + 1 - t) as nat) == 10 * pp);
        let d1 = dec_units(9, q, t, u);
        let d2 = dec_units(1, q + 1, t, u);
        assert(d1 == 9 * pp * bb);
        assert(d2 == 1 * (10 * pp) * bb);
        assert(d2 == 10 * (pp * bb) && d1 == 9 * (pp * bb)) by (nonlinear_arith)
            requires
                d1 == 9 * pp * bb,
                d2 == 1 * (10 * pp) * bb,
        ;
        let v = bin_units(4 * m2 as int, p, t, u);
        assert(v == 4 * m2 * cc * ff);
        assert(pp * bb > 0) by (nonlinear_arith)
            requires
                pp > 0,
                bb > 0,
        ;
        // equally near and on either side: the value is their midpoint
        assert(d1 + d2 == 2 * v);
        assert(19 * (pp * bb) == 8 * m2 * (cc * ff)) by (nonlinear_arith)
            requires
                d1 + d2 == 2 * v,
                d2 == 10 * (pp * bb),
                d1 == 9 * (pp * bb),
                v == 4 * m2 * cc * ff,
        ;
        // both in the interval, whose width is at most 4 * cc * ff
        lemma_rounds_rescale(m2, e2, narrow, 1, q + 1, t, min_int(q + 1, 0));
        let lo = bin_units(4 * m2 - (if narrow { 1int } else { 2int }), p, t, u);
        let hi = bin_units(4 * m2 + 2int, p, t, u);
        assert(lo <= d1 && d2 <= hi);
        assert(hi - lo <= 4 * (cc * ff)) by (nonlinear_arith)
            requires
                lo == (4 * m2 - (if narrow { 1int } else { 2int })) * cc * ff,
                hi == (4 * m2 + 2int) * cc * ff,
                cc * ff >= 0,
        ;
        assert(m2 <= 9) by (nonlinear_arith)
            requires
                19 * (pp * bb) == 8 * m2 * (cc * ff),
                d2 - d1 <= 4 * (cc * ff),
                d2 - d1 == pp * bb,
                cc * ff > 0,
        ;
        assert((8 * m2) % 19 != 0);
        if q >= 0 {
            assert(t == 0);
            assert(ff == 1);
            // 19 divides 8 * m2 * 2^c, which it cannot
            let c = (p - u) as nat;
            lemma_pow2_not_multiple((8 * m2) as int, 19, c);
            assert((19 * (pp * bb)) % 19 == 0) by (nonlinear_arith);
            assert(8 * m2 * (cc * ff) == (8 * m2) * pow2(c)) by (nonlinear_arith)
                requires
                    ff == 1,
                    cc == pow2(c),
            ;
        } else {
            assert(t == q);
            assert(pp == 1);
            // 5 divides the right-hand side but not 19 * 2^j
            assert(ff == 10 * pow10((-q - 1) as nat));
            lemma_pow2_not_multiple(19, 5, (-u) as nat);
            let w = 16 * m2 * cc * pow10((-q - 1) as nat);
            assert(8 * m2 * (cc * ff) == w * 5) by (nonlinear_arith)
                requires
                    ff == 10 * pow10((-q - 1) as nat),
                    w == 16 * m2 * cc * pow10((-q - 1) as nat),
            ;
            vstd::arithmetic::div_mod::lemma_mod_multiples_basic(w as int, 5);
            assert(19 * (pp * bb) == 19 * pow2((-u) as nat)) by (nonlinear_arith)
                requires
                    pp == 1,
                    bb == pow2((-u) as nat),
            ;
        }
    }
}

} // verus!

verus! {

/// A decimal with a larger exponent and as many digits as a shortest nearest
/// one is never exactly as near to the value.
#[verifier::spinoff_prover]
#[verifier::rlimit(30)]
proof fn lemma_no_tie_across(
    m2: nat,
    e2: int,
    narrow: bool,
    s1: nat,
    q1: int,
    s2: nat,
    q2: int,
)
    requires
        shortest_nearest(m2, e2, narrow, s1, q1),
        candidate(m2, e2, narrow, s2, q2),
        q1 < q2,
        num_digits(s1) == num_digits(s2),
        no_farther(m2, e2, s2, q2, s1, q1),
        m2 >= 1,
    ensures
        !no_farther(m2, e2, s1, q1, s2, q2),
{
    if no_farther(m2, e2, s1, q1, s2, q2) {
        lemma_larger_exponent(m2, e2, narrow, s1, q1, s2, q2);
        lemma_num_digits(s1);
        assert(pow10(0) == 1);
        assert(pow10(1) == 10) by {
            reveal_with_fuel(pow10, 2);
        }
        lemma_one_digit();
        let t = min_int(q1, 0);
        let u = bin_unit(e2);
        assert(min_int(min_int(q1, q2), 0) == t);
        let a = pow10((q1 - t) as nat);
        let b = pow2((-u) as nat);
        crate::digits::lemma_pow10_positive((q1 - t) as nat);
        vstd::arithmetic::power2::lemma_pow2_pos((-u) as nat);
        lemma_pow10_add(1, (q1 - t) as nat);
        let a1 = pow10((q1 + 1 - t) as nat);
        assert(a1 == 10 * a);
        let d1 = dec_units(s1, q1, t, u);
        let d2 = dec_units(1, q2, t, u);
        let a2 = pow10((q2 - t) as nat);
        lemma_pow10_monotone((q1 + 1 - t) as nat, (q2 - t) as nat);
        assert(d1 == s1 * a * b);
        assert(d2 == 1 * a2 * b);
        assert(d1 < a1 * b) by (nonlinear_arith)
            requires
                d1 == s1 * a * b,
                s1 < 10,
                a1 == 10 * a,
                a > 0,
                b > 0,
        ;
        if q2 >= q1 + 2 {
            // `10^(q1+1)` lies strictly between the two
            lemma_pow10_add(1, (q1 + 1 - t) as nat);
            lemma_pow10_monotone((q1 + 2 - t) as nat, (q2 - t) as nat);
            assert(a1 * b < a2 * b) by (nonlinear_arith)
                requires
                    a2 >= 10 * a1,
                    a1 > 0,
                    b > 0,
            ;
            assert(min_int(min_int(q1, q1 + 1), 0) == t);
            assert(dec_units(1, q1 + 1, t, u) == 1 * a1 * b);
            lemma_between_nearer(m2, e2, narrow, s1, q1, 1, q2, 1, q1 + 1, t);
            assert(candidate(m2, e2, narrow, 1, q1 + 1));
        } else if s1 < 9 {
            // `(s1 + 1) * 10^q1` lies strictly between the two
            let s3 = (s1 + 1) as nat;
            assert(q2 == q1 + 1);
            assert(dec_units(s3, q1, t, u) == s3 * a * b);
            assert(d1 < s3 * a * b < a1 * b) by (nonlinear_arith)
                requires
                    d1 == s1 * a * b,
                    s3 == s1 + 1,
                    s3 < 10,
                    a1 == 10 * a,
                    a > 0,
                    b > 0,
            ;
            assert(min_int(min_int(q1, q1), 0) == t);
            lemma_between_nearer(m2, e2, narrow, s1, q1, 1, q2, s3, q1, t);
            lemma_num_digits_between(s3, 1);
            assert(candidate(m2, e2, narrow, s3, q1));
        } else {
            assert(s1 == 9);
            assert(q2 == q1 + 1);
            lemma_no_nine_ten_tie(m2, e2, narrow, q1);
        }
    }
}

/// Two distinct decimals, each shortest and nearest, are not both odd.
proof fn lemma_tie_has_even(
    m2: nat,
    e2: int,
    narrow: bool,
    s1: nat,
    q1: int,
    s2: nat,
    q2: int,
)
    requires
        shortest_nearest(m2, e2, narrow, s1, q1),
        shortest_nearest(m2, e2, narrow, s2, q2),
        s1 != s2 || q1 != q2,
        m2 >= 1,
    ensures
        s1 % 2 == 0 || s2 % 2 == 0,
{
    assert(candidate(m2, e2, narrow, s2, q2));
    assert(candidate(m2, e2, narrow, s1, q1));
    assert(num_digits(s1) == num_digits(s2));
    assert(no_farther(m2, e2, s1, q1, s2, q2));
    assert(no_farther(m2, e2, s2, q2, s1, q1));
    if s1 % 2 != 0 && s2 % 2 != 0 {
        if q1 == q2 {
            if s1 < s2 {
                lemma_same_exponent_gap(m2, e2, narrow, s1, s2, q1);
                assert(candidate(m2, e2, narrow, (s1 + 1) as nat, q1));
            } else {
                lemma_same_exponent_gap(m2, e2, narrow, s2, s1, q1);
                assert(candidate(m2, e2, narrow, (s2 + 1) as nat, q1));
            }
        } else if q1 < q2 {
            lemma_no_tie_across(m2, e2, narrow, s1, q1, s2, q2);
        } else {
            lemma_no_tie_across(m2, e2, narrow, s2, q2, s1, q1);
        }
    }
}

/// Every finite nonzero binary64-sized value has a decimal that ECMAScript
/// chooses.
#[verifier::spinoff_prover]
#[verifier::rlimit(30)]
pub proof fn lemma_chosen_exists(m2: nat, e2: int, narrow: bool) -> (r: (nat, int))
    requires
        1 <= m2 < pow2(53),
        narrow ==> m2 <= pow2(52),
        -1074 <= e2 <= 971,
    ensures
        chosen_decimal(m2, e2, narrow, r.0, r.1),
{
    let c0 = lemma_short_candidate(m2, e2, narrow);
    let j = num_digits(c0.0);
    lemma_num_digits(c0.0);
    if j > 17 {
        lemma_pow10_monotone(17, (j - 1) as nat);
    }
    assert(has_candidate_with(m2, e2, narrow, j));
    let k = lemma_fewest_digits(m2, e2, narrow, j);
    // every candidate with at most 17 digits has its exponent above the global unit
    assert forall|s: nat, q: int|
        #[trigger] candidate(m2, e2, narrow, s, q) && num_digits(s) <= 17 implies q
        >= global_unit() by {
        lemma_chosen_exponent_lower(m2, e2, narrow, s, q);
    }
    let w = choose|s: nat, q: int| #[trigger]
        candidate(m2, e2, narrow, s, q) && num_digits(s) == k;
    let v = global_distance(m2, e2, w.0, w.1);
    assert(v >= 0);
    assert(near_within(m2, e2, narrow, k, v as nat));
    let b = lemma_nearest(m2, e2, narrow, k, v as nat);
    assert forall|s2: nat, q2: int| #[trigger]
        candidate(m2, e2, narrow, s2, q2) implies num_digits(b.0) <= num_digits(s2) by {
        if num_digits(s2) < k {
            assert(has_candidate_with(m2, e2, narrow, num_digits(s2)));
        }
    }
    assert forall|s2: nat, q2: int| #[trigger]
        candidate(m2, e2, narrow, s2, q2) && num_digits(s2) == num_digits(b.0) implies no_farther(
        m2,
        e2,
        b.0,
        b.1,
        s2,
        q2,
    ) by {
        lemma_no_farther_global(m2, e2, b.0, b.1, s2, q2);
    }
    assert(shortest_nearest(m2, e2, narrow, b.0, b.1));
    if b.0 % 2 == 0 || !(exists|s2: nat, q2: int| #[trigger]
        candidate(m2, e2, narrow, s2, q2) && num_digits(s2) == num_digits(b.0) && no_farther(
            m2,
            e2,
            s2,
            q2,
            b.0,
            b.1,
        ) && (s2 != b.0 || q2 != b.1)) {
        b
    } else {
        let c = choose|s2: nat, q2: int| #[trigger]
            candidate(m2, e2, narrow, s2, q2) && num_digits(s2) == num_digits(b.0) && no_farther(
                m2,
                e2,
                s2,
                q2,
                b.0,
                b.1,
            ) && (s2 != b.0 || q2 != b.1);
        lemma_no_farther_global(m2, e2, c.0, c.1, b.0, b.1);
        assert forall|s2: nat, q2: int| #[trigger]
            candidate(m2, e2, narrow, s2, q2) && num_digits(s2) == num_digits(c.0) implies no_farther(
            m2,
            e2,
            c.0,
            c.1,
            s2,
            q2,
        ) by {
            lemma_no_farther_global(m2, e2, b.0, b.1, s2, q2);
            lemma_no_farther_global(m2, e2, c.0, c.1, s2, q2);
        }
        assert(shortest_nearest(m2, e2, narrow, c.0, c.1));
        lemma_tie_has_even(m2, e2, narrow, b.0, b.1, c.0, c.1);
        c
    }
}

} // verus!
