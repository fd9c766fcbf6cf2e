//! The ECMAScript `Number::toString` layout of a decimal digit string.
//!
//! A finite nonzero number is given by its shortest decimal digits
//! `d1 d2 ... dk` and its decimal exponent `e`, so that the number is
//! `d1.d2...dk * 10^e`. With `n = e + 1` (the position of the decimal point
//! after `d1 ... dn`), ECMA-262 prints
//! - `k <= n <= 21`: the digits followed by `n - k` zeros (no fraction);
//! - `0 < n <= 21`: the first `n` digits, a point, the remaining digits;
//! - `-6 < n <= 0`: `0.`, then `-n` zeros, then the digits;
//! - otherwise exponential notation `d1[.d2...dk]e+e` or `d1[.d2...dk]e-|e|`.
//!
//! Texts are ASCII bytes: `+` is 43, `-` 45, `.` 46, `0`..`9` 48..57, `e` 101.

use vstd::prelude::*;
use crate::digits::{
    all_digits, digit_char, digit_chars, nat_text, push_digit_chars, push_nat, push_zeros, zeros,
};

verus! {

/// Size of a buffer that holds every output of the formatter for a binary64
/// value (at most 17 significant digits and a three-digit exponent).
pub const BUFFER_SIZE: usize = 25;

/// The digit string is one that the layout accepts: at least one digit, all
/// of them digit values.
pub open spec fn valid_digits(ds: Seq<u8>) -> bool {
    ds.len() >= 1 && all_digits(ds)
}

/// A shortest decimal representation: valid digits with no leading and no
/// trailing zero.
pub open spec fn shortest_digits(ds: Seq<u8>) -> bool {
    valid_digits(ds) && ds[0] != 0 && ds.last() != 0
}

/// Integer absolute value.
pub open spec fn abs_int(x: int) -> nat {
    if x < 0 { (-x) as nat } else { x as nat }
}

/// `.` followed by all digits but the first, or nothing for a single digit.
pub open spec fn fraction_text(ds: Seq<u8>) -> Seq<u8> {
    if ds.len() > 1 { seq![46u8] + digit_chars(ds.skip(1)) } else { seq![] }
}

/// Exponential notation `d1[.d2...dk]e(+|-)|exp|`.
pub open spec fn exponential_text(ds: Seq<u8>, exp: int) -> Seq<u8> {
    seq![digit_char(ds[0])] + fraction_text(ds) + seq![101u8] + (if exp >= 0 {
        seq![43u8]
    } else {
        seq![45u8]
    }) + nat_text(abs_int(exp))
}

/// Whether ECMA-262 prints a number with decimal exponent `exp` in fixed
/// notation.
pub open spec fn is_fixed_exp(exp: int) -> bool {
    -6 <= exp <= 20
}

/// ECMA-262 rendering of the (unsigned) decimal `d1.d2...dk * 10^exp`.
pub open spec fn ecma_unsigned(ds: Seq<u8>, exp: int) -> Seq<u8> {
    let k = ds.len() as int;
    let n = exp + 1;
    if k <= n && n <= 21 {
        digit_chars(ds) + zeros((n - k) as nat)
    } else if 0 < n && n <= 21 {
        digit_chars(ds.take(n)) + seq![46u8] + digit_chars(ds.skip(n))
    } else if -6 < n && n <= 0 {
        seq![48u8, 46u8] + zeros((-n) as nat) + digit_chars(ds)
    } else {
        exponential_text(ds, exp)
    }
}

/// ECMA-262 rendering of the signed decimal.
pub open spec fn ecma_text(negative: bool, ds: Seq<u8>, exp: int) -> Seq<u8> {
    (if negative { seq![45u8] } else { seq![] }) + ecma_unsigned(ds, exp)
}

/// Writes `-` when `negative`, then the decimal `ds[0].ds[1]... * 10^exp`
/// (`ds` holds digit values) in the ECMA-262 layout.
#[verifier::rlimit(40)]
pub fn write_decimal(negative: bool, ds: &[u8], exp: i64) -> (out: Vec<u8>)
    requires
        valid_digits(ds@),
        i64::MIN < exp < i64::MAX,
    ensures
        out@ == ecma_text(negative, ds@, exp as int),
{
    let ghost dsv = ds@;
    let k = ds.len();
    let n: i64 = exp + 1;
    let mut out: Vec<u8> = Vec::new();
    if negative {
        out.push(45u8);
    }
    let ghost head = out@;
    assert(head == (if negative { seq![45u8] } else { Seq::<u8>::empty() }));
    if k <= 21 && (k as i64) <= n && n <= 21 {
        // 1234e7 -> 12340000000
        push_digit_chars(&mut out, ds, 0, k);
        push_zeros(&mut out, (n - k as i64) as usize);
        assert(dsv.subrange(0, k as int) =~= dsv);
    } else if 0 < n && n <= 21 {
        // 1234e-2 -> 12.34
        let p = n as usize;
        push_digit_chars(&mut out, ds, 0, p);
        out.push(46u8);
        push_digit_chars(&mut out, ds, p, k);
        assert(dsv.subrange(0, p as int) =~= dsv.take(n as int));
        assert(dsv.subrange(p as int, k as int) =~= dsv.skip(n as int));
    } else if -6 < n && n <= 0 {
        // 1234e-6 -> 0.001234
        out.push(48u8);
        out.push(46u8);
        push_zeros(&mut out, (-n) as usize);
        push_digit_chars(&mut out, ds, 0, k);
        assert(dsv.subrange(0, k as int) =~= dsv);
    } else {
        // 1234e30 -> 1.234e+33
        push_digit_chars(&mut out, ds, 0, 1);
        if k > 1 {
            out.push(46u8);
            push_digit_chars(&mut out, ds, 1, k);
            assert(dsv.subrange(1, k as int) =~= dsv.skip(1));
        }
        assert(digit_chars(dsv.subrange(0, 1)) =~= seq![digit_char(dsv[0])]);
        out.push(101u8);
        let mag: u64 = if exp >= 0 {
            out.push(43u8);
            exp as u64
        } else {
            out.push(45u8);
            (-exp) as u64
        };
        push_nat(&mut out, mag);
    }
    assert(out@ =~= ecma_text(negative, dsv, exp as int));
    out
}

} // verus!
