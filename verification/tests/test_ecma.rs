#![allow(clippy::unreadable_literal)]

use zmij_ecma::format::write_ecma;

/// Formats a value as ECMAScript's `Number::toString` does: the shortest
/// round-trip decimal of a finite nonzero value comes from Ryu, the rest
/// from the library.
fn number_to_string(value: f64) -> String {
    let (mantissa, exponent) = if value.is_finite() && value != 0.0 {
        let d = ryu_floating_decimal::d2d(value);
        (d.mantissa, d.exponent)
    } else {
        (0, 0)
    };
    String::from_utf8(write_ecma(value.to_bits(), mantissa, exponent)).unwrap()
}

fn ryu_js_string(value: f64) -> String {
    ryu_js::Buffer::new().format(value).to_owned()
}

#[test]
fn normal() {
    assert_eq!(number_to_string(6.62607015e-34), "6.62607015e-34");

    // Exact half-ulp tie when rounding to nearest integer.
    assert_eq!(number_to_string(5.444310685350916e+14), "544431068535091.6");
}

#[test]
fn subnormal() {
    assert_eq!(number_to_string(f64::from_bits(1)), "5e-324");
    assert_eq!(number_to_string(1e-323), "1e-323");
    assert_eq!(number_to_string(1.2e-322), "1.2e-322");
    assert_eq!(number_to_string(1.24e-322), "1.24e-322");
    assert_eq!(number_to_string(1.234e-320), "1.234e-320");
}

#[test]
fn all_irregular() {
    for exp in 1..0x3ffu64 {
        let bits = exp << 52;
        let value = f64::from_bits(bits);

        assert_eq!(number_to_string(value), ryu_js_string(value));
    }
}

#[test]
fn all_exponents() {
    for exp in 0..=0x3ffu64 {
        let bits = (exp << 52) | 1;
        let value = f64::from_bits(bits);

        assert_eq!(number_to_string(value), ryu_js_string(value));
    }
}

#[test]
fn small_int() {
    assert_eq!(number_to_string(1.0), "1");
}

#[test]
fn zero() {
    assert_eq!(number_to_string(0.0), "0");
    assert_eq!(number_to_string(-0.0), "0");
}

#[test]
fn inf() {
    assert_eq!(number_to_string(f64::INFINITY), "Infinity");
}

#[test]
fn nan() {
    assert_eq!(number_to_string(f64::NAN.copysign(-1.0)), "NaN");
}

#[test]
fn shorter() {
    // A possibly shorter underestimate is picked (u' in Schubfach).
    assert_eq!(
        number_to_string(-4.932096661796888e-226),
        "-4.932096661796888e-226"
    );

    // A possibly shorter overestimate is picked (w' in Schubfach).
    assert_eq!(
        number_to_string(3.439070283483335e+35),
        "3.439070283483335e+35"
    );
}

#[test]
fn single_candidate() {
    // Only an underestimate is in the rounding region (u in Schubfach).
    assert_eq!(
        number_to_string(6.606854224493745e-17),
        "6.606854224493745e-17"
    );

    // Only an overestimate is in the rounding region (w in Schubfach).
    assert_eq!(
        number_to_string(6.079537928711555e+61),
        "6.079537928711555e+61"
    );
}

#[test]
fn null_terminated() {
    assert_eq!(number_to_string(9.061488e15), "9061488000000000");
    assert_eq!(number_to_string(f64::NAN.copysign(1.0)), "NaN");
}

#[test]
fn no_buffer() {
    assert_eq!(number_to_string(6.62607015e-34), "6.62607015e-34");
}

#[test]
fn test_ecma262_compliance() {
    assert_eq!(number_to_string(f64::NAN), "NaN");
    assert_eq!(number_to_string(f64::INFINITY), "Infinity");
    assert_eq!(number_to_string(f64::NEG_INFINITY), "-Infinity");
    assert_eq!(number_to_string(0.0), "0");
    assert_eq!(number_to_string(9.0), "9");
    assert_eq!(number_to_string(90.0), "90");
    assert_eq!(number_to_string(90.12), "90.12");

    assert_eq!(number_to_string(0.000001), "0.000001");
    assert_eq!(number_to_string(0.0000001), "1e-7");
    assert_eq!(number_to_string(3e50), "3e+50");

    assert_eq!(number_to_string(90.12), "90.12");

    assert_eq!(
        number_to_string(111111111111111111111.0),
        "111111111111111110000"
    );
    assert_eq!(
        number_to_string(1111111111111111111111.0),
        "1.1111111111111111e+21"
    );
    assert_eq!(
        number_to_string(11111111111111111111111.0),
        "1.1111111111111111e+22"
    );

    assert_eq!(number_to_string(0.1), "0.1");
    assert_eq!(number_to_string(0.01), "0.01");
    assert_eq!(number_to_string(0.001), "0.001");
    assert_eq!(number_to_string(0.0001), "0.0001");
    assert_eq!(number_to_string(0.00001), "0.00001");
    assert_eq!(number_to_string(0.000001), "0.000001");
    assert_eq!(number_to_string(0.0000001), "1e-7");
    assert_eq!(number_to_string(0.00000012), "1.2e-7");
    assert_eq!(number_to_string(0.000000123), "1.23e-7");
    assert_eq!(number_to_string(0.00000001), "1e-8");

    assert_eq!(number_to_string(-0.0), "0");
    assert_eq!(number_to_string(-9.0), "-9");
    assert_eq!(number_to_string(-90.12), "-90.12");
    assert_eq!(number_to_string(-0.0000000123), "-1.23e-8");
    assert_eq!(
        number_to_string(-111111111111111111111.0),
        "-111111111111111110000"
    );
    assert_eq!(
        number_to_string(-1111111111111111111111.0),
        "-1.1111111111111111e+21"
    );
    assert_eq!(number_to_string(-0.000000123), "-1.23e-7");

    assert_eq!(
        number_to_string(123456789010111213141516171819.0),
        "1.234567890101112e+29"
    );
}

#[test]
fn max_size_double_to_string() {
    assert_eq!(
        number_to_string(-0.0000015809161985788154),
        "-0.0000015809161985788154"
    );
}

#[test]
fn ryu_comparison() {
    // Random bit patterns from an xorshift sequence seeded by the clock.
    let mut state: u64 = std::time::SystemTime::now()
        .duration_since(std::time::UNIX_EPOCH)
        .map(|d| d.as_nanos() as u64)
        .unwrap_or(0x9e37_79b9_7f4a_7c15)
        | 1;
    let mut fail = 0;

    for _ in 0..1_000_000 {
        state ^= state << 13;
        state ^= state >> 7;
        state ^= state << 17;
        let float = f64::from_bits(state);
        let ryu = ryu_js_string(float);
        let zmij = number_to_string(float);

        if ryu != zmij {
            println!("RYU={ryu} ZMIJ={zmij}");
            fail += 1;
        }
    }

    assert!(fail == 0, "{fail} mismatches");
}
