//! A thin fixed-point decimal value built directly on the kernel: a signed
//! 128-bit coefficient together with the number of fractional digits, read
//! as `coeff * 10^-n_frac_digits`.

use vstd::prelude::*;

verus! {

use vstd::math::abs;
use vstd::string::StringSliceAdditionalSpecFns;

use crate::parser::{dec_repr_from_str, parse_dec_bytes, ParseDecimalError};
use crate::powers_of_ten::pow10;
use crate::rounding::{div_floor, mod_floor};
use crate::{i128_div_mod_floor, ten_pow};

/// Why a decimal value could not be converted into a plain integer.
#[derive(Clone, Copy, Debug, PartialEq, Eq, Structural)]
pub enum TryFromDecimalError {
    /// The value has a non-zero fractional part.
    NotAnIntValue,
    /// The value is integral but does not fit in the target type.
    ValueOutOfRange,
}

/// A decimal number: `coeff * 10^-n_frac_digits`, with at most 18
/// fractional digits.
#[derive(Clone, Copy, Debug)]
pub struct Decimal {
    /// The signed coefficient.
    pub coeff: i128,
    /// The number of fractional digits (the scale).
    pub n_frac_digits: u8,
}

/// Truncating division (toward zero) by a positive divisor.
pub open spec fn div_trunc(a: int, b: int) -> int {
    if a >= 0 {
        a / b
    } else {
        -((-a) / b)
    }
}

/// The decimal as a plain integer, when its fractional part is zero.
pub open spec fn dec_as_int(d: Decimal) -> Option<int> {
    if d.n_frac_digits == 0 {
        Some(d.coeff as int)
    } else if d.coeff == 0 {
        Some(0int)
    } else if mod_floor(d.coeff as int, pow10(d.n_frac_digits as nat)) == 0 {
        Some(div_floor(d.coeff as int, pow10(d.n_frac_digits as nat)))
    } else {
        None
    }
}

/// An integral decimal value always fits the 128-bit range: dividing the
/// coefficient by a positive power of ten never grows its magnitude.
pub proof fn lemma_dec_as_int_bounds(d: Decimal)
    requires
        d.wf(),
    ensures
        dec_as_int(d) matches Some(v) ==> i128::MIN <= v <= i128::MAX,
{
    if d.n_frac_digits > 0 && d.coeff != 0 {
        let b: int = pow10(d.n_frac_digits as nat);
        crate::powers_of_ten::lemma_pow10_fits(d.n_frac_digits as nat);
        let a: int = d.coeff as int;
        if a >= 0 {
            vstd::arithmetic::div_mod::lemma_div_pos_is_pos(a, b);
            vstd::arithmetic::div_mod::lemma_div_nonincreasing(a, b);
        } else {
            vstd::arithmetic::div_mod::lemma_fundamental_div_mod(a, b);
            vstd::arithmetic::div_mod::lemma_mod_division_less_than_divisor(a, b);
            let q: int = a / b;
            let m2: int = a % b;
            assert(a <= q <= 0) by (nonlinear_arith)
                requires
                    a == b * q + m2,
                    0 <= m2 < b,
                    b >= 1,
                    a < 0,
            ;
        }
    }
}

impl Decimal {
    /// The value minus one.
    pub fn neg_one() -> (d: Decimal)
        ensures
            d.coeff == -1,
            d.n_frac_digits == 0,
            d.wf(),
    {
        Decimal { coeff: -1, n_frac_digits: 0 }
    }

    /// The largest representable value.
    pub fn max_value() -> (d: Decimal)
        ensures
            d.coeff == i128::MAX,
            d.n_frac_digits == 0,
            d.wf(),
    {
        Decimal { coeff: i128::MAX, n_frac_digits: 0 }
    }

    /// The smallest representable value.
    pub fn min_value() -> (d: Decimal)
        ensures
            d.coeff == i128::MIN,
            d.n_frac_digits == 0,
            d.wf(),
    {
        Decimal { coeff: i128::MIN, n_frac_digits: 0 }
    }

    /// The smallest positive representable value, `10^-18`.
    pub fn delta() -> (d: Decimal)
        ensures
            d.coeff == 1,
            d.n_frac_digits == 18,
            d.wf(),
    {
        Decimal { coeff: 1, n_frac_digits: 18 }
    }

    /// The well-formedness of a decimal: its scale never exceeds the
    /// supported maximum.
    pub open spec fn wf(self) -> bool {
        self.n_frac_digits <= 18
    }

    /// Build a decimal directly from a coefficient and a scale.
    pub fn new_raw(coeff: i128, n_frac_digits: u8) -> (d: Decimal)
        requires
            n_frac_digits <= 18,
        ensures
            d.coeff == coeff,
            d.n_frac_digits == n_frac_digits,
            d.wf(),
    {
        Decimal { coeff, n_frac_digits }
    }

    /// The coefficient of the value.
    pub fn coefficient(&self) -> (c: i128)
        ensures
            c == self.coeff,
    {
        self.coeff
    }

    /// The number of fractional digits of the value.
    pub fn n_frac_digits(&self) -> (n: u8)
        ensures
            n == self.n_frac_digits,
    {
        self.n_frac_digits
    }

    /// Whether the value is zero.
    pub fn eq_zero(&self) -> (r: bool)
        ensures
            r <==> self.coeff == 0,
    {
        self.coeff == 0
    }

    /// Whether the value is one.
    pub fn eq_one(&self) -> (r: bool)
        requires
            self.wf(),
        ensures
            r <==> self.coeff == pow10(self.n_frac_digits as nat),
    {
        let p = ten_pow(self.n_frac_digits);
        proof {
            crate::powers_of_ten::lemma_pow10_fits(self.n_frac_digits as nat);
        }
        self.coeff >= 0 && (self.coeff as u128) == p
    }

    /// The additive identity.
    pub fn zero() -> (d: Decimal)
        ensures
            d.coeff == 0,
            d.n_frac_digits == 0,
            d.wf(),
    {
        Decimal { coeff: 0, n_frac_digits: 0 }
    }

    /// Whether the value equals the additive identity.
    pub fn is_zero(&self) -> (r: bool)
        ensures
            r <==> self.coeff == 0,
    {
        self.eq_zero()
    }

    /// The multiplicative identity.
    pub fn one() -> (d: Decimal)
        ensures
            d.coeff == 1,
            d.n_frac_digits == 0,
            d.wf(),
    {
        Decimal { coeff: 1, n_frac_digits: 0 }
    }

    /// Whether the value equals the multiplicative identity.
    pub fn is_one(&self) -> (r: bool)
        requires
            self.wf(),
        ensures
            r <==> self.coeff == pow10(self.n_frac_digits as nat),
    {
        self.eq_one()
    }

    /// Parse a decimal literal; a radix other than ten is rejected, and
    /// everything else is delegated to the kernel parser.
    pub fn from_str_radix(lit: &str, radix: u32) -> (res: Result<Decimal, ParseDecimalError>)
        ensures
            radix != 10 ==> res == Err::<Decimal, ParseDecimalError>(ParseDecimalError::Invalid),
            radix == 10 ==> (match parse_dec_bytes(lit.spec_bytes()) {
                Ok(p) => res matches Ok(d) && d.coeff == p.0 && d.n_frac_digits == p.1 && d.wf(),
                Err(e) => res == Err::<Decimal, ParseDecimalError>(e),
            }),
    {
        if radix != 10 {
            return Err(ParseDecimalError::Invalid);
        }
        match dec_repr_from_str(lit) {
            Ok((coeff, scale)) => {
                proof {
                    crate::parser::lemma_parse_scale_bounded(lit.spec_bytes());
                }
                Ok(Decimal { coeff, n_frac_digits: scale })
            },
            Err(e) => Err(e),
        }
    }

    /// The absolute value.
    pub fn abs(&self) -> (d: Decimal)
        requires
            self.coeff != i128::MIN,
        ensures
            d.coeff == abs(self.coeff as int),
            d.n_frac_digits == self.n_frac_digits,
    {
        if self.coeff < 0 {
            Decimal { coeff: -self.coeff, n_frac_digits: self.n_frac_digits }
        } else {
            *self
        }
    }

    /// The sign of the value as a decimal: minus one, zero or one.
    pub fn signum(&self) -> (d: Decimal)
        ensures
            d.n_frac_digits == 0,
            d.coeff == (if self.coeff > 0 {
                1int
            } else if self.coeff < 0 {
                -1int
            } else {
                0int
            }),
    {
        if self.coeff > 0 {
            Decimal::one()
        } else if self.coeff < 0 {
            Decimal::neg_one()
        } else {
            Decimal::zero()
        }
    }

    /// Whether the value is greater than zero.
    pub fn is_positive(&self) -> (r: bool)
        ensures
            r <==> self.coeff > 0,
    {
        self.coeff > 0
    }

    /// Whether the value is less than zero.
    pub fn is_negative(&self) -> (r: bool)
        ensures
            r <==> self.coeff < 0,
    {
        self.coeff < 0
    }

    /// The value with its fractional part discarded (truncation toward
    /// zero), at scale zero.
    pub fn trunc(&self) -> (d: Decimal)
        requires
            self.wf(),
        ensures
            d.n_frac_digits == 0,
            d.coeff == div_trunc(self.coeff as int, pow10(self.n_frac_digits as nat)),
    {
        if self.n_frac_digits == 0 {
            proof {
                lemma_div_trunc_whole(self.coeff as int);
            }
            return Decimal { coeff: self.coeff, n_frac_digits: 0 };
        }
        let t = ten_pow(self.n_frac_digits) as i128;
        proof {
            crate::powers_of_ten::lemma_pow10_fits(self.n_frac_digits as nat);
        }
        let (q, r) = i128_div_mod_floor(self.coeff, t);
        let c = if self.coeff < 0 && r != 0 {
            q + 1
        } else {
            q
        };
        proof {
            lemma_floor_to_trunc(self.coeff as int, t as int, q as int, r as int);
        }
        Decimal { coeff: c, n_frac_digits: 0 }
    }

    /// Convert into an `i128` if the value is integral.
    pub fn try_into_i128(self) -> (res: Result<i128, TryFromDecimalError>)
        requires
            self.wf(),
        ensures
            match dec_as_int(self) {
                Some(v) => res == Ok::<i128, TryFromDecimalError>(v as i128),
                None => res == Err::<i128, TryFromDecimalError>(TryFromDecimalError::NotAnIntValue),
            },
    {
        if self.n_frac_digits == 0 || self.coeff == 0 {
            return Ok(self.coeff);
        }
        let t = ten_pow(self.n_frac_digits) as i128;
        proof {
            crate::powers_of_ten::lemma_pow10_fits(self.n_frac_digits as nat);
        }
        let (q, r) = i128_div_mod_floor(self.coeff, t);
        proof {
            crate::rounding::lemma_floor_unique(self.coeff as int, t as int, q as int, r as int);
        }
        if r == 0 {
            Ok(q)
        } else {
            Err(TryFromDecimalError::NotAnIntValue)
        }
    }

    /// Convert into a `u8` if the value is integral and in range.
    pub fn try_into_u8(self) -> (res: Result<u8, TryFromDecimalError>)
        requires
            self.wf(),
        ensures
            match dec_as_int(self) {
                Some(v) => res == (if 0 <= v <= u8::MAX as i128 {
                    Ok::<u8, TryFromDecimalError>(v as u8)
                } else {
                    Err::<u8, TryFromDecimalError>(TryFromDecimalError::ValueOutOfRange)
                }),
                None => res == Err::<u8, TryFromDecimalError>(TryFromDecimalError::NotAnIntValue),
            },
    {
        proof {
            lemma_dec_as_int_bounds(self);
        }
        match self.try_into_i128() {
            Ok(i) => if (0) <= i && i <= (u8::MAX as i128) {
                Ok(i as u8)
            } else {
                Err(TryFromDecimalError::ValueOutOfRange)
            },
            Err(e) => Err(e),
        }
    }

    /// Convert into a `i8` if the value is integral and in range.
    pub fn try_into_i8(self) -> (res: Result<i8, TryFromDecimalError>)
        requires
            self.wf(),
        ensures
            match dec_as_int(self) {
                Some(v) => res == (if i8::MIN as i128 <= v <= i8::MAX as i128 {
                    Ok::<i8, TryFromDecimalError>(v as i8)
                } else {
                    Err::<i8, TryFromDecimalError>(TryFromDecimalError::ValueOutOfRange)
                }),
                None => res == Err::<i8, TryFromDecimalError>(TryFromDecimalError::NotAnIntValue),
            },
    {
        proof {
            lemma_dec_as_int_bounds(self);
        }
        match self.try_into_i128() {
            Ok(i) => if (i8::MIN as i128) <= i && i <= (i8::MAX as i128) {
                Ok(i as i8)
            } else {
                Err(TryFromDecimalError::ValueOutOfRange)
            },
            Err(e) => Err(e),
        }
    }

    /// Convert into a `u16` if the value is integral and in range.
    pub fn try_into_u16(self) -> (res: Result<u16, TryFromDecimalError>)
        requires
            self.wf(),
        ensures
            match dec_as_int(self) {
                Some(v) => res == (if 0 <= v <= u16::MAX as i128 {
                    Ok::<u16, TryFromDecimalError>(v as u16)
                } else {
                    Err::<u16, TryFromDecimalError>(TryFromDecimalError::ValueOutOfRange)
                }),
                None => res == Err::<u16, TryFromDecimalError>(TryFromDecimalError::NotAnIntValue),
            },
    {
        proof {
            lemma_dec_as_int_bounds(self);
        }
        match self.try_into_i128() {
            Ok(i) => if (0) <= i && i <= (u16::MAX as i128) {
                Ok(i as u16)
            } else {
                Err(TryFromDecimalError::ValueOutOfRange)
            },
            Err(e) => Err(e),
        }
    }

    /// Convert into a `i16` if the value is integral and in range.
    pub fn try_into_i16(self) -> (res: Result<i16, TryFromDecimalError>)
        requires
            self.wf(),
        ensures
            match dec_as_int(self) {
                Some(v) => res == (if i16::MIN as i128 <= v <= i16::MAX as i128 {
                    Ok::<i16, TryFromDecimalError>(v as i16)
                } else {
                    Err::<i16, TryFromDecimalError>(TryFromDecimalError::ValueOutOfRange)
                }),
                None => res == Err::<i16, TryFromDecimalError>(TryFromDecimalError::NotAnIntValue),
            },
    {
        proof {
            lemma_dec_as_int_bounds(self);
        }
        match self.try_into_i128() {
            Ok(i) => if (i16::MIN as i128) <= i && i <= (i16::MAX as i128) {
                Ok(i as i16)
            } else {
                Err(TryFromDecimalError::ValueOutOfRange)
            },
            Err(e) => Err(e),
        }
    }

    /// Convert into a `u32` if the value is integral and in range.
    pub fn try_into_u32(self) -> (res: Result<u32, TryFromDecimalError>)
        requires
            self.wf(),
        ensures
            match dec_as_int(self) {
                Some(v) => res == (if 0 <= v <= u32::MAX as i128 {
                    Ok::<u32, TryFromDecimalError>(v as u32)
                } else {
                    Err::<u32, TryFromDecimalError>(TryFromDecimalError::ValueOutOfRange)
                }),
                None => res == Err::<u32, TryFromDecimalError>(TryFromDecimalError::NotAnIntValue),
            },
    {
        proof {
            lemma_dec_as_int_bounds(self);
        }
        match self.try_into_i128() {
            Ok(i) => if (0) <= i && i <= (u32::MAX as i128) {
                Ok(i as u32)
            } else {
                Err(TryFromDecimalError::ValueOutOfRange)
            },
            Err(e) => Err(e),
        }
    }

    /// Convert into a `i32` if the value is integral and in range.
    pub fn try_into_i32(self) -> (res: Result<i32, TryFromDecimalError>)
        requires
            self.wf(),
        ensures
            match dec_as_int(self) {
                Some(v) => res == (if i32::MIN as i128 <= v <= i32::MAX as i128 {
                    Ok::<i32, TryFromDecimalError>(v as i32)
                } else {
                    Err::<i32, TryFromDecimalError>(TryFromDecimalError::ValueOutOfRange)
                }),
                None => res == Err::<i32, TryFromDecimalError>(TryFromDecimalError::NotAnIntValue),
            },
    {
        proof {
            lemma_dec_as_int_bounds(self);
        }
        match self.try_into_i128() {
            Ok(i) => if (i32::MIN as i128) <= i && i <= (i32::MAX as i128) {
                Ok(i as i32)
            } else {
                Err(TryFromDecimalError::ValueOutOfRange)
            },
            Err(e) => Err(e),
        }
    }

    /// Convert into a `u64` if the value is integral and in range.
    pub fn try_into_u64(self) -> (res: Result<u64, TryFromDecimalError>)
        requires
            self.wf(),
        ensures
            match dec_as_int(self) {
                Some(v) => res == (if 0 <= v <= u64::MAX as i128 {
                    Ok::<u64, TryFromDecimalError>(v as u64)
                } else {
                    Err::<u64, TryFromDecimalError>(TryFromDecimalError::ValueOutOfRange)
                }),
                None => res == Err::<u64, TryFromDecimalError>(TryFromDecimalError::NotAnIntValue),
            },
    {
        proof {
            lemma_dec_as_int_bounds(self);
        }
        match self.try_into_i128() {
            Ok(i) => if (0) <= i && i <= (u64::MAX as i128) {
                Ok(i as u64)
            } else {
                Err(TryFromDecimalError::ValueOutOfRange)
            },
            Err(e) => Err(e),
        }
    }

    /// Convert into a `i64` if the value is integral and in range.
    pub fn try_into_i64(self) -> (res: Result<i64, TryFromDecimalError>)
        requires
            self.wf(),
        ensures
            match dec_as_int(self) {
                Some(v) => res == (if i64::MIN as i128 <= v <= i64::MAX as i128 {
                    Ok::<i64, TryFromDecimalError>(v as i64)
                } else {
                    Err::<i64, TryFromDecimalError>(TryFromDecimalError::ValueOutOfRange)
                }),
                None => res == Err::<i64, TryFromDecimalError>(TryFromDecimalError::NotAnIntValue),
            },
    {
        proof {
            lemma_dec_as_int_bounds(self);
        }
        match self.try_into_i128() {
            Ok(i) => if (i64::MIN as i128) <= i && i <= (i64::MAX as i128) {
                Ok(i as i64)
            } else {
                Err(TryFromDecimalError::ValueOutOfRange)
            },
            Err(e) => Err(e),
        }
    }

    /// Convert into a `u128` if the value is integral and non-negative.
    pub fn try_into_u128(self) -> (res: Result<u128, TryFromDecimalError>)
        requires
            self.wf(),
        ensures
            match dec_as_int(self) {
                Some(v) => res == (if v >= 0 {
                    Ok::<u128, TryFromDecimalError>(v as u128)
                } else {
                    Err::<u128, TryFromDecimalError>(TryFromDecimalError::ValueOutOfRange)
                }),
                None => res == Err::<u128, TryFromDecimalError>(TryFromDecimalError::NotAnIntValue),
            },
    {
        proof {
            lemma_dec_as_int_bounds(self);
        }
        match self.try_into_i128() {
            Ok(i) => if i >= 0 {
                Ok(i as u128)
            } else {
                Err(TryFromDecimalError::ValueOutOfRange)
            },
            Err(e) => Err(e),
        }
    }
}

/// Truncation of a whole number by `10^0` leaves it unchanged.
proof fn lemma_div_trunc_whole(a: int)
    ensures
        div_trunc(a, pow10(0)) == a,
{
    crate::powers_of_ten::lemma_pow10_bounds();
    vstd::arithmetic::div_mod::lemma_div_basics_1(a);
    vstd::arithmetic::div_mod::lemma_div_basics_1(-a);
}

/// Truncating division follows from floor division by stepping the
/// quotient back up for a negative inexact dividend.
proof fn lemma_floor_to_trunc(a: int, b: int, q: int, r: int)
    requires
        b > 0,
        a == q * b + r,
        0 <= r < b,
    ensures
        div_trunc(a, b) == (if a < 0 && r != 0 {
            q + 1
        } else {
            q
        }),
{
    vstd::arithmetic::div_mod::lemma_fundamental_div_mod_converse_div(a, b, q, r);
    if a < 0 {
        if r != 0 {
            assert(-a == (-q - 1) * b + (b - r)) by (nonlinear_arith)
                requires
                    a == q * b + r,
            ;
            vstd::arithmetic::div_mod::lemma_fundamental_div_mod_converse_div(-a, b, -q - 1, b - r);
        } else {
            assert(-a == (-q) * b + 0) by (nonlinear_arith)
                requires
                    a == q * b + r,
                    r == 0,
            ;
            vstd::arithmetic::div_mod::lemma_fundamental_div_mod_converse_div(-a, b, -q, 0);
        }
    }
}

} // verus!
