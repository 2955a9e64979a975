//! Arithmetic kernel for a fixed-point decimal number type.
//!
//! A decimal value is represented by its caller as a pair
//! `(coefficient: i128, scale: u8)` standing for `coefficient * 10^-scale`.
//! This crate provides the exact integer primitives such a type needs:
//! power-of-ten scaling, 256-bit wide multiplication and division with
//! floor semantics and explicit overflow detection, a family of rounding
//! modes, and a strict decimal-text parser.

use vstd::prelude::*;

pub mod decimal;
pub mod parser;
pub mod powers_of_ten;
pub mod rounding;
pub mod wide;

pub use decimal::{Decimal, TryFromDecimalError};
pub use parser::{dec_repr_from_str, dec_repr_to_bytes, ParseDecimalError};
pub use powers_of_ten::{checked_mul_pow_ten, mul_pow_ten, ten_pow};
pub use rounding::{
    i128_div_rounded, i128_mul_div_ten_pow_rounded, i128_shifted_div_rounded, RoundingMode,
};

verus! {

use vstd::arithmetic::div_mod::{
    lemma_fundamental_div_mod,
    lemma_mod_division_less_than_divisor,
};
use vstd::math::abs;

use crate::powers_of_ten::{pow10, lemma_pow10_positive};
use crate::wide::{u128_mul_u128, u256_idiv_u128, u256_val};

/// The maximum number of fractional decimal digits supported.
pub const MAX_N_FRAC_DIGITS: u8 = 18;

/// Rescale the pair with the smaller scale up to the larger scale, so that
/// both coefficients share the scale `max(p, q)`.
///
/// The caller must guarantee that the rescaled coefficient stays within
/// `i128` range.
pub fn adjust_coeffs(x: i128, p: u8, y: i128, q: u8) -> (r: (i128, i128))
    requires
        p <= 38,
        q <= 38,
        p > q ==> i128::MIN <= y * pow10((p - q) as nat) <= i128::MAX,
        p < q ==> i128::MIN <= x * pow10((q - p) as nat) <= i128::MAX,
    ensures
        p == q ==> r == (x, y),
        p > q ==> r.0 == x && r.1 == y * pow10((p - q) as nat),
        p < q ==> r.0 == x * pow10((q - p) as nat) && r.1 == y,
{
    if p == q {
        (x, y)
    } else if p > q {
        (x, mul_pow_ten(y, p - q))
    } else {
        (mul_pow_ten(x, q - p), y)
    }
}

/// Rescale the pair with the smaller scale up to the larger scale, reporting
/// overflow of either coefficient separately instead of requiring the caller
/// to rule it out.
pub fn checked_adjust_coeffs(x: i128, p: u8, y: i128, q: u8) -> (r: (Option<
    i128,
>, Option<i128>))
    requires
        p <= 38,
        q <= 38,
    ensures
        p == q ==> r == (Some(x), Some(y)),
        p > q ==> r.0 == Some(x) && r.1 == (if i128::MIN <= y * pow10((p - q) as nat)
            <= i128::MAX {
            Some((y * pow10((p - q) as nat)) as i128)
        } else {
            None::<i128>
        }),
        p < q ==> r.1 == Some(y) && r.0 == (if i128::MIN <= x * pow10((q - p) as nat)
            <= i128::MAX {
            Some((x * pow10((q - p) as nat)) as i128)
        } else {
            None::<i128>
        }),
{
    if p == q {
        (Some(x), Some(y))
    } else if p > q {
        (Some(x), checked_mul_pow_ten(y, p - q))
    } else {
        (checked_mul_pow_ten(x, q - p), Some(y))
    }
}

/// Return `|x|` as an unsigned value, which is exact even for `i128::MIN`.
pub(crate) fn i128_unsigned_abs(x: i128) -> (r: u128)
    ensures
        r == abs(x as int),
{
    if x >= 0 {
        x as u128
    } else {
        (-(x + 1)) as u128 + 1
    }
}

/// Return `-m` as an `i128`; `m` may be as large as `2^127`.
pub(crate) fn u128_to_i128_neg(m: u128) -> (r: i128)
    requires
        m <= 0x80000000000000000000000000000000,
    ensures
        r == -(m as int),
{
    if m == 0 {
        0
    } else {
        -((m - 1) as i128) - 1
    }
}

/// Attach the correct signs to an unsigned quotient/remainder pair so that
/// the result follows the floor convention: the dividend was `xa_val` in
/// magnitude and negative iff `x_neg`, and `uq * |y| + ur == xa_val` with
/// `ur < |y|`.
fn apply_floor_signs(uq: u128, ur: u128, x_neg: bool, y: i128, Ghost(xa_val): Ghost<int>) -> (qr: (
    i128,
    i128,
))
    requires
        y != 0,
        ur < abs(y as int),
        uq * (abs(y as int) as int) + ur == xa_val,
        uq <= i128::MAX || (x_neg && ur == 0 && y > 0 && uq
            == 0x80000000000000000000000000000000),
    ensures
        qr.0 * y + qr.1 == (if x_neg {
            -xa_val
        } else {
            xa_val
        }),
        qr.1 == 0 || ((qr.1 > 0) <==> (y > 0)),
        abs(qr.1 as int) < abs(y as int),
{
    let ghost yai: int = abs(y as int) as int;
    let y_neg = y < 0;
    if x_neg == y_neg {
        let r = if y_neg {
            u128_to_i128_neg(ur)
        } else {
            ur as i128
        };
        let q = uq as i128;
        proof {
            assert(q * y + r == (if x_neg { -xa_val } else { xa_val })) by (nonlinear_arith)
                requires
                    uq * yai + ur == xa_val,
                    q == uq,
                    y_neg ==> y == -yai && r == -(ur as int),
                    !y_neg ==> y == yai && r == ur,
                    x_neg == y_neg,
            ;
        }
        (q, r)
    } else if ur == 0 {
        let q = u128_to_i128_neg(uq);
        proof {
            assert(q * y + 0 == (if x_neg { -xa_val } else { xa_val })) by (nonlinear_arith)
                requires
                    uq * yai + ur == xa_val,
                    ur == 0,
                    q == -(uq as int),
                    y_neg ==> y == -yai,
                    !y_neg ==> y == yai,
                    x_neg != y_neg,
            ;
        }
        (q, 0)
    } else {
        let q = u128_to_i128_neg(uq) - 1;
        let ya = i128_unsigned_abs(y);
        let r = if y_neg {
            u128_to_i128_neg(ya - ur)
        } else {
            (ya - ur) as i128
        };
        proof {
            assert(q * y + r == (if x_neg { -xa_val } else { xa_val })) by (nonlinear_arith)
                requires
                    uq * yai + ur == xa_val,
                    0 < ur < yai,
                    q == -(uq as int) - 1,
                    ya == yai,
                    y_neg ==> y == -yai && r == -(yai - ur),
                    !y_neg ==> y == yai && r == yai - ur,
                    x_neg != y_neg,
            ;
        }
        (q, r)
    }
}

/// Return `(q, r)` with `x == q * y + r`, where `q` is rounded toward
/// negative infinity, so that `r`, if non-zero, has the same sign as `y`
/// and `0 <= |r| < |y|`.
pub fn i128_div_mod_floor(x: i128, y: i128) -> (r: (i128, i128))
    requires
        y != 0,
        !(x == i128::MIN && y == -1),
    ensures
        r.0 * y + r.1 == x,
        r.1 == 0 || ((r.1 > 0) <==> (y > 0)),
        abs(r.1 as int) < abs(y as int),
{
    let xa = i128_unsigned_abs(x);
    let ya = i128_unsigned_abs(y);
    let uq = xa / ya;
    let ur = xa % ya;
    proof {
        lemma_fundamental_div_mod(xa as int, ya as int);
        lemma_mod_division_less_than_divisor(xa as int, ya as int);
        assert(uq * ya + ur == xa) by (nonlinear_arith)
            requires
                xa == ya * uq + ur,
        ;
        if ya >= 2 {
            assert(uq <= i128::MAX) by (nonlinear_arith)
                requires
                    xa == ya * uq + ur,
                    ur >= 0,
                    uq >= 0,
                    ya >= 2,
                    xa <= 0x80000000000000000000000000000000,
            ;
        }
    }
    apply_floor_signs(uq, ur, x < 0, y, Ghost(xa as int))
}

/// Return the decimal magnitude of `i`: the largest `n` with `10^n <= |i|`.
pub fn i128_magnitude(i: i128) -> (r: u8)
    requires
        i != 0,
    ensures
        r <= 38,
        pow10(r as nat) <= abs(i as int) < pow10((r + 1) as nat),
{
    let a = i128_unsigned_abs(i);
    let mut v = a;
    let mut m: u8 = 0;
    proof {
        vstd::arithmetic::power::lemma_pow0(10);
        assert(pow10(0) == 1);
    }
    while v >= 10
        invariant
            1 <= v,
            m <= 38,
            v * pow10(m as nat) <= a,
            a < (v + 1) * pow10(m as nat),
        decreases v,
    {
        let v2 = v / 10;
        proof {
            let p: int = pow10(m as nat);
            let pn: int = pow10((m + 1) as nat);
            lemma_pow10_positive(m as nat);
            lemma_pow10_positive((m + 1) as nat);
            assert(pn == p * 10) by {
                crate::powers_of_ten::lemma_pow10_adds(m as nat, 1);
                vstd::arithmetic::power::lemma_pow1(10);
            }
            assert(v2 * pn <= a && a < (v2 + 1) * pn && 1 <= v2) by (nonlinear_arith)
                requires
                    v2 == v / 10,
                    v == 10 * v2 + (v % 10),
                    0 <= v % 10 < 10,
                    10 <= v,
                    v * p <= a < (v + 1) * p,
                    pn == p * 10,
                    p >= 1,
            ;
            if m == 38 {
                crate::powers_of_ten::lemma_pow10_bounds();
                crate::powers_of_ten::lemma_pow10_adds(38, 1);
                vstd::arithmetic::power::lemma_pow1(10);
                assert(pn <= a) by (nonlinear_arith)
                    requires
                        v2 >= 1,
                        v2 * pn <= a,
                        pn >= 0,
                ;
                assert(false);
            }
        }
        v = v2;
        m = m + 1;
    }
    proof {
        let p: int = pow10(m as nat);
        lemma_pow10_positive(m as nat);
        assert(pow10((m + 1) as nat) == p * 10) by {
            crate::powers_of_ten::lemma_pow10_adds(m as nat, 1);
            vstd::arithmetic::power::lemma_pow1(10);
        }
        assert(p <= a && a < p * 10) by (nonlinear_arith)
            requires
                1 <= v < 10,
                v * p <= a < (v + 1) * p,
                p >= 1,
        ;
    }
    m
}

/// Return `Some((q, r))` with `q == (x * 10^p) / y` and
/// `r == (x * 10^p) % y` under the floor convention (`r`, if non-zero, has
/// the sign of `y` and `0 <= |r| < |y|`), or `None` if the magnitude of the
/// quotient exceeds `i128::MAX`.
pub fn i128_shifted_div_mod_floor(x: i128, p: u8, y: i128) -> (res: Option<(i128, i128)>)
    requires
        p <= 38,
        y != 0,
    ensures
        res is Some <==> abs(x as int) * pow10(p as nat) / (abs(y as int) as int) <= i128::MAX,
        res matches Some(qr) ==> {
            &&& qr.0 * y + qr.1 == x * pow10(p as nat)
            &&& qr.1 == 0 || ((qr.1 > 0) <==> (y > 0))
            &&& abs(qr.1 as int) < abs(y as int)
        },
{
    let ghost big: int = 0x100000000000000000000000000000000int;
    let xa = i128_unsigned_abs(x);
    let tp = ten_pow(p);
    let (mut h, mut l) = u128_mul_u128(xa, tp);
    let ya = i128_unsigned_abs(y);
    let ghost prod: int = xa as int * tp as int;
    let ur = u256_idiv_u128(&mut h, &mut l, ya);
    proof {
        lemma_fundamental_div_mod(prod, ya as int);
    }
    if h != 0 || l > (i128::MAX as u128) {
        proof {
            assert(u256_val(h, l) > i128::MAX);
        }
        return None;
    }
    proof {
        assert(l * (ya as int) + ur == prod) by (nonlinear_arith)
            requires
                prod == ya * (l as int) + ur,
        ;
    }
    let qr = apply_floor_signs(l, ur, x < 0, y, Ghost(prod));
    proof {
        assert(x * pow10(p as nat) == (if x < 0 { -prod } else { prod })) by (nonlinear_arith)
            requires
                prod == xa as int * tp as int,
                tp == pow10(p as nat),
                x < 0 ==> x == -(xa as int),
                x >= 0 ==> x == xa,
        ;
    }
    Some(qr)
}

/// Return `Some((q, r))` with `q == (x1 * x2) / y` and `r == (x1 * x2) % y`
/// under the floor convention (`0 <= r < y`, since `y` must be positive),
/// or `None` if the magnitude of the quotient exceeds `i128::MAX`.
pub fn i256_div_mod_floor(x1: i128, x2: i128, y: i128) -> (res: Option<(i128, i128)>)
    requires
        y > 0,
    ensures
        res is Some <==> (abs(x1 as int) * abs(x2 as int)) as int / (y as int) <= i128::MAX,
        res matches Some(qr) ==> {
            &&& qr.0 * y + qr.1 == x1 * x2
            &&& 0 <= qr.1 < y
        },
{
    let a1 = i128_unsigned_abs(x1);
    let a2 = i128_unsigned_abs(x2);
    let (mut h, mut l) = u128_mul_u128(a1, a2);
    let ya = i128_unsigned_abs(y);
    let ghost prod: int = a1 as int * a2 as int;
    let ur = u256_idiv_u128(&mut h, &mut l, ya);
    proof {
        lemma_fundamental_div_mod(prod, ya as int);
    }
    if h != 0 || l > (i128::MAX as u128) {
        proof {
            assert(u256_val(h, l) > i128::MAX);
        }
        return None;
    }
    proof {
        assert(l * (ya as int) + ur == prod) by (nonlinear_arith)
            requires
                prod == ya * (l as int) + ur,
        ;
    }
    let x_neg = (x1 < 0) != (x2 < 0);
    let qr = apply_floor_signs(l, ur, x_neg, y, Ghost(prod));
    proof {
        assert(x1 * x2 == (if x_neg { -prod } else { prod })) by (nonlinear_arith)
            requires
                prod == a1 as int * a2 as int,
                x1 < 0 ==> x1 == -(a1 as int),
                x1 >= 0 ==> x1 == a1,
                x2 < 0 ==> x2 == -(a2 as int),
                x2 >= 0 ==> x2 == a2,
                x_neg == ((x1 < 0) != (x2 < 0)),
        ;
    }
    Some(qr)
}

} // verus!
