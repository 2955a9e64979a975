use fpdec::{Decimal, ParseDecimalError};

#[test]
fn num_traits_test_zero() {
    assert!(Decimal::is_zero(&Decimal::zero()));
    assert!(Decimal::is_zero(&Decimal::new_raw(0, 7)));
    assert!(!Decimal::is_zero(&Decimal::new_raw(1, 2)));
}

#[test]
fn num_traits_test_one() {
    assert!(Decimal::is_one(&Decimal::one()));
    assert!(Decimal::is_one(&Decimal::new_raw(1000, 3)));
    assert!(!Decimal::is_one(&Decimal::new_raw(1, 1)));
}

#[test]
fn test_from_str_radix() {
    let d = Decimal::from_str_radix("-17.5", 10).unwrap();
    assert_eq!(d.coefficient(), -175);
    assert_eq!(d.n_frac_digits(), 1);
}

#[test]
fn test_err_invalid_radix() {
    let res = Decimal::from_str_radix("5.4", 16);
    assert!(res.is_err());
    let err = res.unwrap_err();
    assert_eq!(err, ParseDecimalError::Invalid);
}
