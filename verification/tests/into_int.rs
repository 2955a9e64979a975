use fpdec::{Decimal, TryFromDecimalError};

#[test]
fn into_i128_test_zero() {
    let t = Decimal::zero().try_into_i128();
    assert_eq!(t.unwrap(), 0_i128);
}

#[test]
fn into_i128_test_one() {
    let t = Decimal::one().try_into_i128();
    assert_eq!(t.unwrap(), 1_i128);
}

#[test]
fn into_i128_test_neg_one() {
    let t = Decimal::neg_one().try_into_i128();
    assert_eq!(t.unwrap(), -1_i128);
}

#[test]
fn into_i128_test_max() {
    let t = Decimal::max_value().try_into_i128();
    assert_eq!(t.unwrap(), i128::MAX);
}

#[test]
fn into_i128_test_delta() {
    let t = Decimal::delta().try_into_i128();
    assert!(t.is_err());
    assert_eq!(t.unwrap_err(), TryFromDecimalError::NotAnIntValue);
}

#[test]
fn into_i128_test_non_int() {
    let d = Decimal::new_raw(1, 1);
    let t = d.try_into_i128();
    assert!(t.is_err());
    assert_eq!(t.unwrap_err(), TryFromDecimalError::NotAnIntValue);
}

#[test]
fn into_int_test_zero() {
    let t = Decimal::zero().try_into_i8();
    assert_eq!(t.unwrap(), 0_i8);
}

#[test]
fn into_int_test_one() {
    let t: i32 = Decimal::one().try_into_i32().unwrap();
    assert_eq!(t, 1_i32);
}

#[test]
fn into_int_test_neg_one() {
    let t = Decimal::neg_one().try_into_i64();
    assert_eq!(t.unwrap(), -1_i64);
    let t = Decimal::neg_one().try_into_u64();
    assert!(t.is_err());
    assert_eq!(t.unwrap_err(), TryFromDecimalError::ValueOutOfRange);
}

#[test]
fn into_int_test_max() {
    let t = Decimal::max_value().try_into_u128();
    assert_eq!(t.unwrap(), i128::MAX as u128);
    let t = Decimal::max_value().try_into_u64();
    assert!(t.is_err());
    assert_eq!(t.unwrap_err(), TryFromDecimalError::ValueOutOfRange);
}

#[test]
fn into_int_test_delta() {
    let t = Decimal::delta().try_into_i16();
    assert!(t.is_err());
    assert_eq!(t.unwrap_err(), TryFromDecimalError::NotAnIntValue);
}

#[test]
fn into_int_test_non_int() {
    let d = Decimal::new_raw(1, 1);
    let t = d.try_into_u32();
    assert!(t.is_err());
    assert_eq!(t.unwrap_err(), TryFromDecimalError::NotAnIntValue);
}

#[test]
fn test_truncated() {
    let d = Decimal::new_raw(12345, 3);
    let t: u8 = d.trunc().try_into_u8().unwrap();
    assert_eq!(t, 12_u8);
}

#[test]
fn into_int_more_widths() {
    assert_eq!(Decimal::new_raw(255, 0).try_into_u8().unwrap(), 255_u8);
    assert_eq!(
        Decimal::new_raw(256, 0).try_into_u8().unwrap_err(),
        TryFromDecimalError::ValueOutOfRange
    );
    assert_eq!(Decimal::new_raw(-128, 0).try_into_i8().unwrap(), -128_i8);
    assert_eq!(
        Decimal::new_raw(-129, 0).try_into_i8().unwrap_err(),
        TryFromDecimalError::ValueOutOfRange
    );
    assert_eq!(Decimal::new_raw(65535, 0).try_into_u16().unwrap(), 65535_u16);
    assert_eq!(Decimal::new_raw(-40000, 3).try_into_i16().unwrap(), -40_i16);
}

#[test]
fn into_int_scaled_integral() {
    // 12000 * 10^-3 == 12 is integral despite its non-zero scale.
    assert_eq!(Decimal::new_raw(12000, 3).try_into_i128().unwrap(), 12_i128);
    assert_eq!(Decimal::new_raw(-12000, 3).try_into_i64().unwrap(), -12_i64);
}

#[test]
fn test_trunc_signs() {
    assert_eq!(Decimal::new_raw(12345, 3).trunc().coefficient(), 12);
    assert_eq!(Decimal::new_raw(-12345, 3).trunc().coefficient(), -12);
    assert_eq!(Decimal::new_raw(-999, 3).trunc().coefficient(), 0);
    assert_eq!(Decimal::new_raw(42, 0).trunc().coefficient(), 42);
}

#[test]
fn test_signum_and_sign_predicates() {
    assert_eq!(Decimal::new_raw(5, 1).signum().coefficient(), 1);
    assert_eq!(Decimal::new_raw(-5, 1).signum().coefficient(), -1);
    assert_eq!(Decimal::new_raw(0, 1).signum().coefficient(), 0);
    assert!(Decimal::new_raw(5, 1).is_positive());
    assert!(Decimal::new_raw(-5, 1).is_negative());
    assert!(!Decimal::new_raw(0, 1).is_positive());
    assert!(!Decimal::new_raw(0, 1).is_negative());
}

#[test]
fn test_abs() {
    let d = Decimal::new_raw(-175, 1).abs();
    assert_eq!(d.coefficient(), 175);
    assert_eq!(d.n_frac_digits(), 1);
    let d = Decimal::new_raw(175, 1).abs();
    assert_eq!(d.coefficient(), 175);
}
