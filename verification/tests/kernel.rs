use fpdec::{
    adjust_coeffs, checked_adjust_coeffs, checked_mul_pow_ten, dec_repr_from_str,
    dec_repr_to_bytes, i128_div_mod_floor, i128_div_rounded, i128_magnitude,
    i128_mul_div_ten_pow_rounded, i128_shifted_div_mod_floor, i128_shifted_div_rounded,
    mul_pow_ten, ten_pow, ParseDecimalError, RoundingMode,
};

#[test]
fn test_ten_pow_values() {
    assert_eq!(ten_pow(0), 1);
    assert_eq!(ten_pow(1), 10);
    assert_eq!(ten_pow(18), 1_000_000_000_000_000_000);
    assert_eq!(ten_pow(38), 100_000_000_000_000_000_000_000_000_000_000_000_000);
}

#[test]
fn test_mul_pow_ten() {
    assert_eq!(mul_pow_ten(7, 2), 700);
    assert_eq!(mul_pow_ten(-3, 4), -30000);
    assert_eq!(mul_pow_ten(0, 38), 0);
}

#[test]
fn test_checked_mul_pow_ten_overflow_boundary() {
    assert!(checked_mul_pow_ten(i128::MAX, 1).is_none());
    assert_eq!(checked_mul_pow_ten(10, 1), Some(100));
    assert_eq!(checked_mul_pow_ten(i128::MIN, 0), Some(i128::MIN));
    assert!(checked_mul_pow_ten(i128::MIN, 1).is_none());
}

#[test]
fn test_adjust_coeffs() {
    assert_eq!(adjust_coeffs(12, 2, 34, 2), (12, 34));
    assert_eq!(adjust_coeffs(12, 3, 34, 1), (12, 3400));
    assert_eq!(adjust_coeffs(12, 1, 34, 3), (1200, 34));
}

#[test]
fn test_checked_adjust_coeffs() {
    assert_eq!(checked_adjust_coeffs(12, 1, 34, 3), (Some(1200), Some(34)));
    let (a, b) = checked_adjust_coeffs(i128::MAX, 0, 1, 2);
    assert!(a.is_none());
    assert_eq!(b, Some(1));
}

#[test]
fn test_div_mod_floor_signs() {
    // The floor invariant: x == q * y + r, |r| < |y|, sign(r) == sign(y).
    assert_eq!(i128_div_mod_floor(7, 3), (2, 1));
    assert_eq!(i128_div_mod_floor(-7, 3), (-3, 2));
    assert_eq!(i128_div_mod_floor(7, -3), (-3, -2));
    assert_eq!(i128_div_mod_floor(-7, -3), (2, -1));
    assert_eq!(i128_div_mod_floor(6, 3), (2, 0));
    assert_eq!(i128_div_mod_floor(-6, 3), (-2, 0));
    assert_eq!(i128_div_mod_floor(i128::MIN, 1), (i128::MIN, 0));
}

#[test]
fn test_div_mod_floor_invariant_many() {
    let cases: [i128; 8] = [0, 1, -1, 7, -7, 123456789, i128::MAX, i128::MIN + 1];
    let divisors: [i128; 6] = [1, -1, 3, -3, 1_000_000_007, -17];
    for &x in cases.iter() {
        for &y in divisors.iter() {
            let (q, r) = i128_div_mod_floor(x, y);
            assert_eq!(q.wrapping_mul(y).wrapping_add(r), x);
            assert!(r.unsigned_abs() < y.unsigned_abs());
            assert!(r == 0 || (r > 0) == (y > 0));
        }
    }
}

#[test]
fn test_magnitude() {
    assert_eq!(i128_magnitude(1), 0);
    assert_eq!(i128_magnitude(-9), 0);
    assert_eq!(i128_magnitude(10), 1);
    assert_eq!(i128_magnitude(-99), 1);
    assert_eq!(i128_magnitude(1_000_000_000_000_000_000), 18);
    assert_eq!(i128_magnitude(i128::MAX), 38);
}

#[test]
fn test_scaled_div_floor_end_to_end() {
    // 700 / 3 == 233, remainder 1.
    assert_eq!(i128_shifted_div_mod_floor(7, 2, 3), Some((233, 1)));
    // 10 / 3 rounds up to 3 with half-up (3.33...).
    assert_eq!(
        i128_shifted_div_rounded(1, 1, 3, RoundingMode::HalfUp),
        Some(3)
    );
}

#[test]
fn test_shifted_div_mod_floor_signs() {
    assert_eq!(i128_shifted_div_mod_floor(-7, 2, 3), Some((-234, 2)));
    assert_eq!(i128_shifted_div_mod_floor(7, 2, -3), Some((-234, -2)));
    assert_eq!(i128_shifted_div_mod_floor(-7, 2, -3), Some((233, -1)));
    assert_eq!(i128_shifted_div_mod_floor(-6, 1, 3), Some((-20, 0)));
    assert_eq!(i128_shifted_div_mod_floor(6, 1, -3), Some((-20, 0)));
    assert!(i128_shifted_div_mod_floor(i128::MAX, 2, 3).is_none());
}

#[test]
fn test_rounding_ties() {
    // 5 / 2 == 2.5: exact tie.
    assert_eq!(i128_div_rounded(5, 2, RoundingMode::HalfEven), 2);
    assert_eq!(i128_div_rounded(5, 2, RoundingMode::HalfUp), 3);
    assert_eq!(i128_div_rounded(5, 2, RoundingMode::Floor), 2);
    assert_eq!(i128_div_rounded(5, 2, RoundingMode::Ceiling), 3);
}

#[test]
fn test_rounding_negative_ties() {
    // -5 / 2 == -2.5: the two half-up conventions diverge only here.
    assert_eq!(i128_div_rounded(-5, 2, RoundingMode::HalfUp), -3);
    assert_eq!(i128_div_rounded(-5, 2, RoundingMode::HalfDown), -2);
    assert_eq!(i128_div_rounded(-5, 2, RoundingMode::HalfEven), -2);
    assert_eq!(i128_div_rounded(-5, 2, RoundingMode::HalfCeiling), -2);
    assert_eq!(i128_div_rounded(-5, 2, RoundingMode::HalfFloor), -3);
    assert_eq!(i128_div_rounded(-5, 2, RoundingMode::Up), -3);
    assert_eq!(i128_div_rounded(-5, 2, RoundingMode::Down), -2);
    assert_eq!(i128_div_rounded(-5, 2, RoundingMode::Floor), -3);
    assert_eq!(i128_div_rounded(-5, 2, RoundingMode::Ceiling), -2);
}

#[test]
fn test_rounding_non_ties() {
    assert_eq!(i128_div_rounded(7, 3, RoundingMode::HalfEven), 2);
    assert_eq!(i128_div_rounded(8, 3, RoundingMode::HalfEven), 3);
    assert_eq!(i128_div_rounded(-7, 3, RoundingMode::HalfEven), -2);
    assert_eq!(i128_div_rounded(-8, 3, RoundingMode::HalfEven), -3);
    assert_eq!(i128_div_rounded(7, 3, RoundingMode::Up), 3);
    assert_eq!(i128_div_rounded(7, 3, RoundingMode::Down), 2);
}

#[test]
fn test_mul_div_ten_pow_rounded() {
    // 3 * 5 / 10 == 1.5: tie.
    assert_eq!(
        i128_mul_div_ten_pow_rounded(3, 1, 5, RoundingMode::HalfEven),
        Some(2)
    );
    assert_eq!(
        i128_mul_div_ten_pow_rounded(3, 1, 5, RoundingMode::HalfDown),
        Some(1)
    );
    assert_eq!(
        i128_mul_div_ten_pow_rounded(123, 2, 100, RoundingMode::Floor),
        Some(123)
    );
    assert!(i128_mul_div_ten_pow_rounded(i128::MAX, 0, 2, RoundingMode::Floor).is_none());
}

#[test]
fn test_parser_error_classes() {
    assert_eq!(dec_repr_from_str(""), Err(ParseDecimalError::Empty));
    assert_eq!(dec_repr_from_str("12.34.5"), Err(ParseDecimalError::Invalid));
    assert_eq!(
        dec_repr_from_str("1e400"),
        Err(ParseDecimalError::MaxScaleExceeded)
    );
    assert_eq!(dec_repr_from_str("-0.000"), Ok((0, 3)));
}

#[test]
fn test_parser_no_digits() {
    assert_eq!(dec_repr_from_str("."), Err(ParseDecimalError::NoDigits));
    assert_eq!(dec_repr_from_str("-"), Err(ParseDecimalError::NoDigits));
    assert_eq!(dec_repr_from_str("+"), Err(ParseDecimalError::NoDigits));
}

#[test]
fn test_parser_malformed() {
    assert_eq!(dec_repr_from_str("abc"), Err(ParseDecimalError::Invalid));
    assert_eq!(dec_repr_from_str("1e"), Err(ParseDecimalError::Invalid));
    assert_eq!(dec_repr_from_str("1e+"), Err(ParseDecimalError::Invalid));
    assert_eq!(dec_repr_from_str("1e5x"), Err(ParseDecimalError::Invalid));
    assert_eq!(dec_repr_from_str("--1"), Err(ParseDecimalError::Invalid));
}

#[test]
fn test_parser_values() {
    assert_eq!(dec_repr_from_str("0"), Ok((0, 0)));
    assert_eq!(dec_repr_from_str("12"), Ok((12, 0)));
    assert_eq!(dec_repr_from_str("-17.5"), Ok((-175, 1)));
    assert_eq!(dec_repr_from_str("+1.5e-2"), Ok((15, 3)));
    assert_eq!(dec_repr_from_str("1.5e1"), Ok((15, 0)));
    assert_eq!(dec_repr_from_str("1e2"), Ok((100, 0)));
    assert_eq!(dec_repr_from_str(".5"), Ok((5, 1)));
    assert_eq!(dec_repr_from_str("5."), Ok((5, 0)));
    assert_eq!(
        dec_repr_from_str("0.000000000000000001"),
        Ok((1, 18))
    );
    assert_eq!(
        dec_repr_from_str("0.0000000000000000001"),
        Err(ParseDecimalError::MaxScaleExceeded)
    );
}

#[test]
fn test_parser_range_limits() {
    // i128::MIN is accepted, its magnitude as a positive number is not.
    assert_eq!(
        dec_repr_from_str("-170141183460469231731687303715884105728"),
        Ok((i128::MIN, 0))
    );
    assert_eq!(
        dec_repr_from_str("170141183460469231731687303715884105728"),
        Err(ParseDecimalError::Invalid)
    );
    assert_eq!(
        dec_repr_from_str("170141183460469231731687303715884105727"),
        Ok((i128::MAX, 0))
    );
}

#[test]
fn test_format_values() {
    assert_eq!(dec_repr_to_bytes(0, 0), b"0".to_vec());
    assert_eq!(dec_repr_to_bytes(0, 3), b"0.000".to_vec());
    assert_eq!(dec_repr_to_bytes(-175, 1), b"-17.5".to_vec());
    assert_eq!(dec_repr_to_bytes(12345, 3), b"12.345".to_vec());
    assert_eq!(dec_repr_to_bytes(5, 2), b"0.05".to_vec());
}

#[test]
fn test_format_parse_round_trip() {
    let cases: [(i128, u8); 10] = [
        (0, 0),
        (0, 3),
        (1, 18),
        (-1, 18),
        (-175, 1),
        (12345, 3),
        (i128::MAX, 0),
        (i128::MIN, 0),
        (i128::MAX, 18),
        (i128::MIN, 18),
    ];
    for &(coeff, scale) in cases.iter() {
        let v = dec_repr_to_bytes(coeff, scale);
        let text = std::str::from_utf8(&v).unwrap();
        assert_eq!(dec_repr_from_str(text), Ok((coeff, scale)));
    }
}

#[test]
fn test_parser_long_fraction_with_large_exponent() {
    // The exponent must not be lost against a long fractional digit run:
    // 0.(10036 zeros)1e100190 is 10^90153, far outside the range.
    let lit = format!("0.{}1e100190", "0".repeat(10036));
    assert_eq!(
        dec_repr_from_str(&lit),
        Err(ParseDecimalError::MaxScaleExceeded)
    );
    // The same shape with a zero coefficient is exactly zero.
    let lit = format!("0.{}0e100190", "0".repeat(10036));
    assert_eq!(dec_repr_from_str(&lit), Ok((0, 0)));
    // And with a negative exponent the scale is far above the maximum.
    let lit = format!("0.{}1e-100190", "0".repeat(10036));
    assert_eq!(
        dec_repr_from_str(&lit),
        Err(ParseDecimalError::MaxScaleExceeded)
    );
}

#[test]
fn test_parser_exponent_near_shift_limit() {
    // fr = 5, exponent 6: scale -1, one shift into the coefficient.
    assert_eq!(dec_repr_from_str("0.00001e6"), Ok((10, 0)));
    // fr = 0, exponent 38: the widest representable shift of 1.
    assert_eq!(
        dec_repr_from_str("1e38"),
        Ok((100_000_000_000_000_000_000_000_000_000_000_000_000, 0))
    );
    // fr = 0, exponent 39: one step past it.
    assert_eq!(dec_repr_from_str("1e39"), Err(ParseDecimalError::MaxScaleExceeded));
    assert_eq!(dec_repr_from_str("0e39"), Ok((0, 0)));
}
