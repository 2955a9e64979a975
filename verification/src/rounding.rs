//! Rounding modes and rounded division.
//!
//! Every mode is a total, deterministic function of the floor quotient, the
//! floor remainder and the divisor; the sign of the true quotient is read
//! off the floor quotient itself (a non-integer quotient is negative
//! exactly when its floor is).

use vstd::prelude::*;

verus! {

use vstd::arithmetic::div_mod::{
    lemma_fundamental_div_mod,
    lemma_fundamental_div_mod_converse_div,
    lemma_fundamental_div_mod_converse_mod,
};
use vstd::math::abs;

use crate::powers_of_ten::pow10;
use crate::{i128_div_mod_floor, i128_shifted_div_mod_floor, i256_div_mod_floor, ten_pow};

/// The rounding policies: how an inexact quotient is collapsed onto one of
/// the two neighbouring integers.
#[derive(Clone, Copy, Debug, PartialEq, Eq, Structural)]
pub enum RoundingMode {
    /// Round toward negative infinity.
    Floor,
    /// Round toward positive infinity.
    Ceiling,
    /// Round away from zero.
    Up,
    /// Round toward zero.
    Down,
    /// Round to the nearest integer; ties go away from zero.
    HalfUp,
    /// Round to the nearest integer; ties go toward zero.
    HalfDown,
    /// Round to the nearest integer; ties go to the even neighbour.
    HalfEven,
    /// Round to the nearest integer; ties go toward positive infinity.
    HalfCeiling,
    /// Round to the nearest integer; ties go toward negative infinity.
    HalfFloor,
}

/// Floor division: the quotient rounded toward negative infinity.
pub open spec fn div_floor(a: int, b: int) -> int {
    if b > 0 {
        a / b
    } else {
        (-a) / (-b)
    }
}

/// The remainder matching `div_floor`; its sign follows the divisor.
pub open spec fn mod_floor(a: int, b: int) -> int {
    a - b * div_floor(a, b)
}

/// A pair `(q, r)` with `a == q * b + r`, `|r| < |b|` and the sign of `r`
/// following the sign of `b` is exactly the floor quotient and remainder.
pub proof fn lemma_floor_unique(a: int, b: int, q: int, r: int)
    requires
        b != 0,
        a == q * b + r,
        r == 0 || ((r > 0) <==> (b > 0)),
        abs(r) < abs(b),
    ensures
        q == div_floor(a, b),
        r == mod_floor(a, b),
{
    if b > 0 {
        lemma_fundamental_div_mod_converse_div(a, b, q, r);
        lemma_fundamental_div_mod_converse_mod(a, b, q, r);
        lemma_fundamental_div_mod(a, b);
    } else {
        assert(-a == q * (-b) + (-r)) by (nonlinear_arith)
            requires
                a == q * b + r,
        ;
        lemma_fundamental_div_mod_converse_div(-a, -b, q, -r);
        assert(q == div_floor(a, b));
        assert(b * q == q * b) by (nonlinear_arith);
    }
}

/// Twice the magnitude of the fractional part of the true quotient, in
/// units of `|y|`: for a non-negative quotient that is twice the floor
/// remainder, for a negative one its complement, since the floor remainder
/// then measures the distance from the next integer below.
pub open spec fn double_frac(q: int, r: int, y: int) -> int {
    if q >= 0 {
        2 * (abs(r) as int)
    } else {
        2 * (abs(y) - abs(r))
    }
}

/// The rounded quotient, as a function of the floor quotient `q`, the floor
/// remainder `r` and the divisor `y`.  "Up" means away from zero and "down"
/// toward zero; a half mode compares twice the fractional part's magnitude
/// with the divisor's and falls back to its tie policy on equality.
pub open spec fn round_quotient(mode: RoundingMode, q: int, r: int, y: int) -> int {
    if r == 0 {
        q
    } else {
        match mode {
            RoundingMode::Floor => q,
            RoundingMode::Ceiling => q + 1,
            RoundingMode::Up => if q >= 0 {
                q + 1
            } else {
                q
            },
            RoundingMode::Down => if q >= 0 {
                q
            } else {
                q + 1
            },
            RoundingMode::HalfUp => if double_frac(q, r, y) < abs(y) {
                if q >= 0 {
                    q
                } else {
                    q + 1
                }
            } else if double_frac(q, r, y) > abs(y) {
                if q >= 0 {
                    q + 1
                } else {
                    q
                }
            } else {
                if q >= 0 {
                    q + 1
                } else {
                    q
                }
            },
            RoundingMode::HalfDown => if double_frac(q, r, y) < abs(y) {
                if q >= 0 {
                    q
                } else {
                    q + 1
                }
            } else if double_frac(q, r, y) > abs(y) {
                if q >= 0 {
                    q + 1
                } else {
                    q
                }
            } else {
                if q >= 0 {
                    q
                } else {
                    q + 1
                }
            },
            RoundingMode::HalfEven => if double_frac(q, r, y) < abs(y) {
                if q >= 0 {
                    q
                } else {
                    q + 1
                }
            } else if double_frac(q, r, y) > abs(y) {
                if q >= 0 {
                    q + 1
                } else {
                    q
                }
            } else {
                if q % 2 == 0 {
                    q
                } else {
                    q + 1
                }
            },
            RoundingMode::HalfCeiling => if double_frac(q, r, y) < abs(y) {
                if q >= 0 {
                    q
                } else {
                    q + 1
                }
            } else if double_frac(q, r, y) > abs(y) {
                if q >= 0 {
                    q + 1
                } else {
                    q
                }
            } else {
                q + 1
            },
            RoundingMode::HalfFloor => if double_frac(q, r, y) < abs(y) {
                if q >= 0 {
                    q
                } else {
                    q + 1
                }
            } else if double_frac(q, r, y) > abs(y) {
                if q >= 0 {
                    q + 1
                } else {
                    q
                }
            } else {
                q
            },
        }
    }
}

/// An integer and its negation have the same parity.
proof fn lemma_parity_neg(q: int)
    ensures
        (abs(q) % 2 == 0) <==> (q % 2 == 0),
{
    lemma_fundamental_div_mod(q, 2);
    vstd::arithmetic::div_mod::lemma_mod_division_less_than_divisor(q, 2);
    if q < 0 {
        if q % 2 == 0 {
            lemma_fundamental_div_mod_converse_mod(-q, 2, -(q / 2), 0);
        } else {
            lemma_fundamental_div_mod_converse_mod(-q, 2, -(q / 2) - 1, 1);
        }
    }
}

/// Decide whether the rounded quotient is one above the floor quotient.
fn round_bump(q: i128, rm: i128, y: i128, mode: RoundingMode) -> (b: bool)
    requires
        y != 0,
        rm == 0 || ((rm > 0) <==> (y > 0)),
        abs(rm as int) < abs(y as int),
    ensures
        round_quotient(mode, q as int, rm as int, y as int) == (if b {
            q + 1
        } else {
            q as int
        }),
{
    if rm == 0 {
        return false;
    }
    let ra = crate::i128_unsigned_abs(rm);
    let ya = crate::i128_unsigned_abs(y);
    let fa = if q >= 0 {
        2 * ra
    } else {
        2 * (ya - ra)
    };
    match mode {
        RoundingMode::Floor => false,
        RoundingMode::Ceiling => true,
        RoundingMode::Up => q >= 0,
        RoundingMode::Down => q < 0,
        RoundingMode::HalfUp => {
            if fa < ya {
                q < 0
            } else {
                q >= 0
            }
        },
        RoundingMode::HalfDown => {
            if fa < ya {
                q < 0
            } else if fa > ya {
                q >= 0
            } else {
                q < 0
            }
        },
        RoundingMode::HalfEven => {
            if fa < ya {
                q < 0
            } else if fa > ya {
                q >= 0
            } else {
                let qa = crate::i128_unsigned_abs(q);
                proof {
                    lemma_parity_neg(q as int);
                }
                qa % 2 != 0
            }
        },
        RoundingMode::HalfCeiling => {
            if fa < ya {
                q < 0
            } else if fa > ya {
                q >= 0
            } else {
                true
            }
        },
        RoundingMode::HalfFloor => {
            if fa < ya {
                q < 0
            } else if fa > ya {
                q >= 0
            } else {
                false
            }
        },
    }
}

/// With a non-zero floor remainder the floor quotient cannot be
/// `i128::MAX`, so rounding it up stays in range.
proof fn lemma_bump_fits(x: int, y: int, q: int, rm: int)
    requires
        i128::MIN <= x <= i128::MAX,
        y != 0,
        x == q * y + rm,
        y > 0 ==> 0 < rm < y,
        y < 0 ==> y < rm < 0,
        q <= i128::MAX,
    ensures
        q < i128::MAX,
{
    assert(q < i128::MAX) by (nonlinear_arith)
        requires
            i128::MIN <= x <= i128::MAX,
            x == q * y + rm,
            y > 0 ==> 0 < rm < y,
            y < 0 ==> y < rm < 0,
            y != 0,
            q <= i128::MAX,
    ;
}

/// Divide `x` by `y` and round the quotient with the given mode.
pub fn i128_div_rounded(x: i128, y: i128, mode: RoundingMode) -> (r: i128)
    requires
        y != 0,
        !(x == i128::MIN && y == -1),
    ensures
        r == round_quotient(
            mode,
            div_floor(x as int, y as int),
            mod_floor(x as int, y as int),
            y as int,
        ),
{
    let (q, rm) = i128_div_mod_floor(x, y);
    proof {
        lemma_floor_unique(x as int, y as int, q as int, rm as int);
        if rm != 0 {
            lemma_bump_fits(x as int, y as int, q as int, rm as int);
        }
    }
    if round_bump(q, rm, y, mode) {
        q + 1
    } else {
        q
    }
}

/// Divide `x * 10^p` by `y` and round the quotient with the given mode,
/// returning `None` when either the floor quotient's magnitude or the
/// rounded result exceeds the `i128` range.
pub fn i128_shifted_div_rounded(x: i128, p: u8, y: i128, mode: RoundingMode) -> (res: Option<
    i128,
>)
    requires
        p <= 38,
        y != 0,
    ensures
        ({
            let prod = x * pow10(p as nat);
            let rq = round_quotient(
                mode,
                div_floor(prod, y as int),
                mod_floor(prod, y as int),
                y as int,
            );
            if abs(x as int) * pow10(p as nat) / (abs(y as int) as int) > i128::MAX {
                res is None
            } else if rq > i128::MAX {
                res is None
            } else {
                res == Some(rq as i128)
            }
        }),
{
    let ghost prod: int = x * pow10(p as nat);
    match i128_shifted_div_mod_floor(x, p, y) {
        None => None,
        Some((q, rm)) => {
            proof {
                lemma_floor_unique(prod, y as int, q as int, rm as int);
            }
            let bump = round_bump(q, rm, y, mode);
            if bump && q == i128::MAX {
                None
            } else {
                if bump {
                    Some(q + 1)
                } else {
                    Some(q)
                }
            }
        },
    }
}

/// Multiply `x1` by `x2`, divide the product by `10^p` and round with the
/// given mode, returning `None` when either the floor quotient's magnitude
/// or the rounded result exceeds the `i128` range.
pub fn i128_mul_div_ten_pow_rounded(x1: i128, p: u8, x2: i128, mode: RoundingMode) -> (res: Option<
    i128,
>)
    requires
        p <= 38,
    ensures
        ({
            let prod = x1 * x2;
            let rq = round_quotient(
                mode,
                div_floor(prod, pow10(p as nat)),
                mod_floor(prod, pow10(p as nat)),
                pow10(p as nat),
            );
            if (abs(x1 as int) * abs(x2 as int)) as int / pow10(p as nat) > i128::MAX {
                res is None
            } else if rq > i128::MAX {
                res is None
            } else {
                res == Some(rq as i128)
            }
        }),
{
    proof {
        crate::powers_of_ten::lemma_pow10_fits(p as nat);
    }
    let d = ten_pow(p) as i128;
    let ghost prod: int = x1 * x2;
    match i256_div_mod_floor(x1, x2, d) {
        None => None,
        Some((q, rm)) => {
            proof {
                lemma_floor_unique(prod, d as int, q as int, rm as int);
            }
            let bump = round_bump(q, rm, d, mode);
            if bump && q == i128::MAX {
                None
            } else {
                if bump {
                    Some(q + 1)
                } else {
                    Some(q)
                }
            }
        },
    }
}

} // verus!
