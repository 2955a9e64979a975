use fpdec::wide::{u128_msb, u128_mul_u128, u256_idiv_u128};
use fpdec::i256_div_mod_floor;

/// A simple multiplicative congruential generator, wide enough to exercise
/// full 128-bit operands.
struct Lcg(u128);

impl Lcg {
    fn next(&mut self) -> u128 {
        self.0 = self
            .0
            .wrapping_mul(0x2360ed051fc65da44385df649fccf645)
            .wrapping_add(0x14057b7ef767814f);
        self.0
    }
}

#[test]
fn test_u128_mul_u128_known() {
    assert_eq!(u128_mul_u128(0, 12345), (0, 0));
    assert_eq!(u128_mul_u128(1, u128::MAX), (0, u128::MAX));
    assert_eq!(u128_mul_u128(1 << 64, 1 << 64), (1, 0));
    assert_eq!(
        u128_mul_u128(u128::MAX, u128::MAX),
        (u128::MAX - 1, 1)
    );
}

#[test]
fn test_u128_msb() {
    assert_eq!(u128_msb(1), 0);
    assert_eq!(u128_msb(2), 1);
    assert_eq!(u128_msb(3), 1);
    assert_eq!(u128_msb(u128::MAX), 127);
    assert_eq!(u128_msb(1 << 127), 127);
    assert_eq!(u128_msb(1 << 64), 64);
}

#[test]
fn test_u256_idiv_u128_reconstructs() {
    let mut gen = Lcg(42);
    for _ in 0..20000 {
        let a = gen.next();
        let b = gen.next();
        let y = gen.next() | 1;
        let (mut h, mut l) = u128_mul_u128(a, b);
        let (ph, pl) = (h, l);
        let r = u256_idiv_u128(&mut h, &mut l, y);
        assert!(r < y);
        // Reconstruct: quotient * y + r must give the product back.
        let (qh1, ql1) = u128_mul_u128(l, y);
        let hy = h.checked_mul(y).expect("quotient fits");
        let (sl, carry) = ql1.overflowing_add(r);
        let sh = qh1 + hy + (carry as u128);
        assert_eq!((sh, sl), (ph, pl));
    }
}

#[test]
fn test_u256_idiv_u128_small_and_pow2_divisors() {
    let mut gen = Lcg(7);
    for k in 0..=127u32 {
        let a = gen.next();
        let b = gen.next();
        let y = 1u128 << k;
        let (mut h, mut l) = u128_mul_u128(a, b);
        let (ph, pl) = (h, l);
        let r = u256_idiv_u128(&mut h, &mut l, y);
        assert!(r < y || y == 1);
        let (qh1, ql1) = u128_mul_u128(l, y);
        let hy = h.checked_mul(y).expect("quotient fits");
        let (sl, carry) = ql1.overflowing_add(r);
        let sh = qh1 + hy + (carry as u128);
        assert_eq!((sh, sl), (ph, pl));
    }
}

#[test]
fn test_i256_div_mod_floor_known() {
    assert_eq!(i256_div_mod_floor(6, 7, 2), Some((21, 0)));
    assert_eq!(i256_div_mod_floor(-6, 7, 4), Some((-11, 2)));
    assert_eq!(i256_div_mod_floor(i128::MAX, i128::MAX, i128::MAX), Some((i128::MAX, 0)));
    assert!(i256_div_mod_floor(i128::MAX, i128::MAX, 7).is_none());
    assert!(i256_div_mod_floor(i128::MIN, i128::MAX, i128::MAX).is_none());
    assert_eq!(
        i256_div_mod_floor(i128::MIN, i128::MAX, i128::MAX),
        None
    );
}

#[test]
fn test_i256_div_mod_floor_random_nonnegative() {
    // Wide-division exactness against a 256-bit reconstruction.
    let mut gen = Lcg(12345);
    let mut checked = 0u32;
    for _ in 0..100000 {
        let x1 = (gen.next() >> 1) as i128;
        let x2 = (gen.next() >> 1) as i128;
        let y = ((gen.next() >> 1) | 1) as i128;
        match i256_div_mod_floor(x1, x2, y) {
            None => continue,
            Some((q, r)) => {
                assert!(q >= 0 && r >= 0 && r < y);
                let (ph, pl) = u128_mul_u128(x1 as u128, x2 as u128);
                let (qh1, ql1) = u128_mul_u128(q as u128, y as u128);
                let (sl, carry) = ql1.overflowing_add(r as u128);
                let sh = qh1 + (carry as u128);
                assert_eq!((sh, sl), (ph, pl));
                checked += 1;
            }
        }
    }
    assert!(checked > 1000);
}

#[test]
fn test_i256_div_mod_floor_sign_cases() {
    // 5 * 7 == 35; floor of +-35 / 4.
    assert_eq!(i256_div_mod_floor(5, 7, 4), Some((8, 3)));
    assert_eq!(i256_div_mod_floor(-5, 7, 4), Some((-9, 1)));
    assert_eq!(i256_div_mod_floor(5, -7, 4), Some((-9, 1)));
    assert_eq!(i256_div_mod_floor(-5, -7, 4), Some((8, 3)));
}
