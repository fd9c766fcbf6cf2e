use zmij_ecma::ecma::{write_decimal, BUFFER_SIZE};
use zmij_ecma::float_bits::{classify, is_negative, FloatClass};
use zmij_ecma::format::{write_decimal_number, write_ecma};
use zmij_ecma::digits::strip_trailing_zeros;

fn text(negative: bool, digits: &[u8], exp: i64) -> String {
    String::from_utf8(write_decimal(negative, digits, exp)).unwrap()
}

fn number(negative: bool, mantissa: u64, exponent: i32) -> String {
    String::from_utf8(write_decimal_number(negative, mantissa, exponent)).unwrap()
}

#[test]
fn layout_integer_with_padding() {
    assert_eq!(text(false, &[1, 2, 3, 4], 10), "12340000000");
    assert_eq!(text(false, &[1, 2, 3, 4], 3), "1234");
    assert_eq!(text(false, &[1], 20), "100000000000000000000");
}

#[test]
fn layout_point_inside() {
    assert_eq!(text(false, &[1, 2, 3, 4], 1), "12.34");
    assert_eq!(text(true, &[9, 0, 1, 2], 1), "-90.12");
    assert_eq!(text(false, &[1, 2, 3, 4], 0), "1.234");
}

#[test]
fn layout_leading_zeros() {
    assert_eq!(text(false, &[1, 2, 3, 4], -3), "0.001234");
    assert_eq!(text(false, &[1], -1), "0.1");
    assert_eq!(text(false, &[1], -6), "0.000001");
}

#[test]
fn layout_exponential() {
    assert_eq!(text(false, &[1, 2, 3, 4], 33), "1.234e+33");
    assert_eq!(text(false, &[1], 21), "1e+21");
    assert_eq!(text(false, &[1], -7), "1e-7");
    assert_eq!(text(true, &[1, 2, 3], -8), "-1.23e-8");
    assert_eq!(text(false, &[5], -324), "5e-324");
    assert_eq!(text(false, &[7], 3_000_000_000), "7e+3000000000");
}

#[test]
fn layout_range_boundaries() {
    // exponent 20 is fixed, 21 is exponential; -6 is fixed, -7 exponential
    assert_eq!(text(false, &[1, 5], 20), "150000000000000000000");
    assert_eq!(text(false, &[1, 5], 21), "1.5e+21");
    assert_eq!(text(false, &[1, 5], -6), "0.0000015");
    assert_eq!(text(false, &[1, 5], -7), "1.5e-7");
}

#[test]
fn output_fits_buffer() {
    let longest = number(true, 15809161985788154, -22);
    assert_eq!(longest, "-0.0000015809161985788154");
    assert_eq!(longest.len(), BUFFER_SIZE);
    let exponential = number(true, 12345678912345678, -316);
    assert_eq!(exponential, "-1.2345678912345678e-300");
    assert!(exponential.len() <= BUFFER_SIZE);
}

#[test]
fn decimal_number_drops_trailing_zeros() {
    assert_eq!(number(false, 1000, 0), "1000");
    assert_eq!(number(false, 1000, -3), "1");
    assert_eq!(number(false, 1230, -5), "0.0123");
    assert_eq!(number(false, 9061488, 9), "9061488000000000");
    assert_eq!(number(false, 10, 20), "1e+21");
    assert_eq!(number(true, 18446744073709551615, 0), "-18446744073709551615");
    assert_eq!(number(false, 0, 5), "0");
    assert_eq!(number(true, 0, -5), "0");
}

#[test]
fn strip_zeros_counts() {
    assert_eq!(strip_trailing_zeros(1200), (12, 2));
    assert_eq!(strip_trailing_zeros(7), (7, 0));
    assert_eq!(strip_trailing_zeros(10_000_000_000_000_000_000), (1, 19));
}

#[test]
fn classify_bit_patterns() {
    assert!(classify(0) == FloatClass::Zero);
    assert!(classify(0x8000_0000_0000_0000) == FloatClass::Zero);
    assert!(classify(1) == FloatClass::Finite);
    assert!(classify(0x3ff0_0000_0000_0000) == FloatClass::Finite);
    assert!(classify(0x7ff0_0000_0000_0000) == FloatClass::Infinite);
    assert!(classify(0xfff0_0000_0000_0000) == FloatClass::Infinite);
    assert!(classify(0x7ff8_0000_0000_0000) == FloatClass::Nan);
    assert!(classify(0xfff0_0000_0000_0001) == FloatClass::Nan);
    assert!(is_negative(0x8000_0000_0000_0000));
    assert!(!is_negative(0x7fff_ffff_ffff_ffff));
}

#[test]
fn sign_ignored_for_nan_and_zero() {
    assert_eq!(write_ecma(0, 5, 0), b"0".to_vec());
    assert_eq!(write_ecma(0x8000_0000_0000_0000, 5, 0), b"0".to_vec());
    assert_eq!(write_ecma(0x7ff8_0000_0000_0000, 5, 0), b"NaN".to_vec());
    assert_eq!(write_ecma(0xfff8_0000_0000_0000, 5, 0), b"NaN".to_vec());
}

#[test]
fn negation_prefixes_minus() {
    let one = 0x3ff0_0000_0000_0000u64;
    assert_eq!(write_ecma(one, 1, 0), b"1".to_vec());
    assert_eq!(write_ecma(one ^ 0x8000_0000_0000_0000, 1, 0), b"-1".to_vec());
    assert_eq!(write_ecma(0x7ff0_0000_0000_0000, 0, 0), b"Infinity".to_vec());
    assert_eq!(write_ecma(0xfff0_0000_0000_0000, 0, 0), b"-Infinity".to_vec());
}

#[test]
fn write_ecma_lays_out_the_decimal() {
    // 0.1 has bits 0x3fb999999999999a and shortest decimal 1 * 10^-1
    assert_eq!(write_ecma(0x3fb9_9999_9999_999a, 1, -1), b"0.1".to_vec());
    assert_eq!(write_ecma(0xbfb9_9999_9999_999a, 1, -1), b"-0.1".to_vec());
    // 1e21
    assert_eq!(write_ecma(0x444b_1ae4_d6e2_ef50, 1, 21), b"1e+21".to_vec());
}

use zmij_ecma::float_bits::{classify32, is_negative32};
use zmij_ecma::format::write_ecma32;

fn f32_to_string(value: f32) -> String {
    let (mantissa, exponent) = if value.is_finite() && value != 0.0 {
        let d = ryu_floating_decimal::f2d(value);
        (d.mantissa, d.exponent)
    } else {
        (0, 0)
    };
    String::from_utf8(write_ecma32(value.to_bits(), mantissa, exponent)).unwrap()
}

fn f64_to_string(value: f64) -> String {
    let (mantissa, exponent) = if value.is_finite() && value != 0.0 {
        let d = ryu_floating_decimal::d2d(value);
        (d.mantissa, d.exponent)
    } else {
        (0, 0)
    };
    String::from_utf8(write_ecma(value.to_bits(), mantissa, exponent)).unwrap()
}

#[test]
fn binary32_classes() {
    assert!(classify32(0) == FloatClass::Zero);
    assert!(classify32(0x8000_0000) == FloatClass::Zero);
    assert!(classify32(1) == FloatClass::Finite);
    assert!(classify32(0x7f80_0000) == FloatClass::Infinite);
    assert!(classify32(0xff80_0000) == FloatClass::Infinite);
    assert!(classify32(0x7fc0_0000) == FloatClass::Nan);
    assert!(is_negative32(0x8000_0000));
    assert_eq!(f32_to_string(f32::NAN), "NaN");
    assert_eq!(f32_to_string(f32::NEG_INFINITY), "-Infinity");
    assert_eq!(f32_to_string(-0.0), "0");
    assert_eq!(f32_to_string(0.1), "0.1");
    assert_eq!(f32_to_string(1e21), "1e+21");
    assert_eq!(f32_to_string(-1.5e-7), "-1.5e-7");
}

#[test]
fn binary32_matches_ryu_js() {
    let mut state: u32 = 0x2545_f491;
    for _ in 0..200_000 {
        state ^= state << 13;
        state ^= state >> 17;
        state ^= state << 5;
        let value = f32::from_bits(state);
        let expected = ryu_js::Buffer::new().format(value).to_owned();
        assert_eq!(f32_to_string(value), expected, "{:#x}", state);
    }
}

#[test]
fn output_reads_back_as_the_value() {
    let mut state: u64 = 0x0123_4567_89ab_cdef;
    for _ in 0..100_000 {
        state ^= state << 13;
        state ^= state >> 7;
        state ^= state << 17;
        let value = f64::from_bits(state);
        if value.is_finite() {
            let text = f64_to_string(value);
            assert_eq!(text.parse::<f64>().unwrap(), value, "{}", text);
        }
    }
}

#[test]
fn trailing_zeros_do_not_change_text() {
    assert_eq!(number(false, 1230, -2), number(false, 123, -1));
    assert_eq!(number(true, 5000, 18), number(true, 5, 21));
}

#[test]
fn finite_text_bytes_and_length() {
    let mut state: u64 = 0x9e37_79b9_7f4a_7c15;
    for _ in 0..100_000 {
        state ^= state << 13;
        state ^= state >> 7;
        state ^= state << 17;
        let value = f64::from_bits(state);
        let text = f64_to_string(value);
        assert!(!text.is_empty() && text.len() <= 25, "{}", text);
        if value.is_finite() {
            assert!(
                text.bytes().all(|c| c.is_ascii_digit() || b".e+-".contains(&c)),
                "{}",
                text
            );
            let magnitude = value.abs();
            let exponential = text.contains('e');
            if magnitude != 0.0 && magnitude >= 1e-6 && magnitude < 1e21 {
                // the decimal of a value strictly inside the fixed range is inside it too
                if magnitude > 1e-6 {
                    assert!(!exponential, "{}", text);
                }
            } else if magnitude != 0.0 && magnitude < 1e-6 {
                let decimal: f64 = text.trim_start_matches('-').parse().unwrap();
                assert_eq!(exponential, decimal < 1e-6, "{}", text);
            }
        }
    }
    assert_eq!(f64_to_string(1e-6), "0.000001");
    assert_eq!(f64_to_string(1e-7), "1e-7");
    assert_eq!(f64_to_string(1e21), "1e+21");
    assert_eq!(f64_to_string(999999999999999900000.0), "999999999999999900000");
}
