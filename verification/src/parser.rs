//! Strict decimal-text parser producing an exact `(coefficient, scale)`
//! pair, and the inverse formatter.
//!
//! The accepted form is: an optional sign, an integer digit run and/or a
//! decimal point followed by a fractional digit run (at least one digit in
//! all), and an optional exponent marker with an optionally signed digit
//! run.  A positive exponent reduces the scale, multiplying the coefficient
//! by ten for each step below zero; a negative exponent increases it.  The
//! parser never accepts a prefix: every byte must belong to the literal.

use vstd::prelude::*;

verus! {

use vstd::math::abs;
use vstd::string::StringSliceAdditionalSpecFns;

use crate::powers_of_ten::{pow10, lemma_pow10_increases, lemma_pow10_positive};
use crate::ten_pow;

/// The lexical defect classes of a rejected decimal literal.
#[derive(Clone, Copy, Debug, PartialEq, Eq, Structural)]
pub enum ParseDecimalError {
    /// The input was empty.
    Empty,
    /// The input held no digit at all.
    NoDigits,
    /// A malformed sign, exponent, repeated point, unexpected byte, or a
    /// coefficient too large for the 128-bit range.
    Invalid,
    /// The resulting scale would not fit in the supported range of 0 to 18
    /// fractional digits.
    MaxScaleExceeded,
}

/// Whether `b` is an ASCII decimal digit.
pub open spec fn is_digit_byte(b: u8) -> bool {
    48 <= b <= 57
}

/// The mantissa scanner's outcome: accumulated coefficient (`None` once it
/// has outgrown an `u128`), number of digits seen, number of fractional
/// digits seen, position after the scan, and whether an exponent marker
/// was consumed.
pub open spec fn scan_mantissa(
    s: Seq<u8>,
    i: int,
    acc: Option<u128>,
    nd: int,
    seen_point: bool,
    fr: int,
) -> Result<(Option<u128>, int, int, int, bool), ParseDecimalError>
    decreases s.len() - i,
{
    if i < 0 || i >= s.len() {
        Ok((acc, nd, fr, i, false))
    } else if is_digit_byte(s[i]) {
        let acc2 = match acc {
            Some(a) => if a * 10 + (s[i] - 48) <= u128::MAX {
                Some((a * 10 + (s[i] - 48)) as u128)
            } else {
                None
            },
            None => None,
        };
        scan_mantissa(s, i + 1, acc2, nd + 1, seen_point, if seen_point {
            fr + 1
        } else {
            fr
        })
    } else if s[i] == 46 {
        if seen_point {
            Err(ParseDecimalError::Invalid)
        } else {
            scan_mantissa(s, i + 1, acc, nd, true, fr)
        }
    } else if s[i] == 101 || s[i] == 69 {
        Ok((acc, nd, fr, i + 1, true))
    } else {
        Err(ParseDecimalError::Invalid)
    }
}

/// The exponent scanner: a run of digits to the end of the input.
///
/// Accumulation is clamped once the exponent exceeds `cap`, which the
/// caller sets to the fractional digit count plus the widest shift a
/// coefficient can absorb.  A clamp can only happen when the final scale
/// already lies below every representable one, where the outcome no longer
/// depends on the exact exponent: a negative exponent has pushed the scale
/// far above the maximum, and a positive one calls for a shift past the
/// whole 128-bit range, so only a zero coefficient still succeeds.
pub open spec fn scan_exponent(s: Seq<u8>, i: int, e: int, cap: int) -> Result<
    int,
    ParseDecimalError,
>
    decreases s.len() - i,
{
    if i < 0 || i >= s.len() {
        Ok(e)
    } else if is_digit_byte(s[i]) {
        scan_exponent(s, i + 1, if e > cap {
            e
        } else {
            e * 10 + (s[i] - 48)
        }, cap)
    } else {
        Err(ParseDecimalError::Invalid)
    }
}

/// Assemble the final `(coefficient, scale)` pair from the scanned parts:
/// the unsigned coefficient `a`, the sign, and the scale after exponent
/// adjustment.
pub open spec fn assemble_dec(a: u128, neg: bool, scale: int) -> Result<
    (i128, u8),
    ParseDecimalError,
> {
    if scale > 18 {
        Err(ParseDecimalError::MaxScaleExceeded)
    } else if scale >= 0 {
        if neg {
            if a > 0x80000000000000000000000000000000u128 {
                Err(ParseDecimalError::Invalid)
            } else {
                Ok(((-(a as int)) as i128, scale as u8))
            }
        } else {
            if a > i128::MAX as u128 {
                Err(ParseDecimalError::Invalid)
            } else {
                Ok((a as i128, scale as u8))
            }
        }
    } else {
        let v = a * pow10((-scale) as nat);
        if neg {
            if v > 0x80000000000000000000000000000000 {
                Err(ParseDecimalError::MaxScaleExceeded)
            } else {
                Ok(((-v) as i128, 0))
            }
        } else {
            if v > i128::MAX {
                Err(ParseDecimalError::MaxScaleExceeded)
            } else {
                Ok((v as i128, 0))
            }
        }
    }
}

/// The full parse of a decimal literal given as bytes.
pub open spec fn parse_dec_bytes(s: Seq<u8>) -> Result<(i128, u8), ParseDecimalError> {
    if s.len() == 0 {
        Err(ParseDecimalError::Empty)
    } else {
        let neg = s[0] == 45;
        let start: int = if s[0] == 45 || s[0] == 43 {
            1
        } else {
            0
        };
        match scan_mantissa(s, start, Some(0), 0, false, 0) {
            Err(e) => Err(e),
            Ok((acc, nd, fr, j, has_exp)) => {
                if nd == 0 {
                    Err(ParseDecimalError::NoDigits)
                } else {
                    let exp_res: Result<int, ParseDecimalError> = if has_exp {
                        let (k, en) = if j < s.len() && (s[j] == 43 || s[j] == 45) {
                            (j + 1, s[j] == 45)
                        } else {
                            (j, false)
                        };
                        if k >= s.len() {
                            Err(ParseDecimalError::Invalid)
                        } else {
                            match scan_exponent(s, k, 0, fr + 38) {
                                Err(e) => Err(e),
                                Ok(e) => Ok(
                                    if en {
                                        -e
                                    } else {
                                        e
                                    },
                                ),
                            }
                        }
                    } else {
                        Ok(0)
                    };
                    match exp_res {
                        Err(e) => Err(e),
                        Ok(e) => match acc {
                            None => Err(ParseDecimalError::Invalid),
                            Some(a) => assemble_dec(a, neg, fr - e),
                        },
                    }
                }
            },
        }
    }
}

/// The decimal digit string of `a`, most significant digit first, with no
/// leading zero except for `a == 0` itself.
pub open spec fn dec_digits(a: nat) -> Seq<u8>
    decreases a,
{
    if a < 10 {
        seq![(48 + a) as u8]
    } else {
        dec_digits(a / 10) + seq![(48 + a % 10) as u8]
    }
}

/// The decimal digit string of `a` in exactly `w` digits, zero padded.
pub open spec fn dec_digits_fixed(a: nat, w: nat) -> Seq<u8>
    decreases w,
{
    if w == 0 {
        Seq::empty()
    } else {
        dec_digits_fixed(a / 10, (w - 1) as nat) + seq![(48 + a % 10) as u8]
    }
}

/// The canonical text of the pair `(coeff, scale)`: an optional minus
/// sign, the integral digits, and, for a positive scale, a point followed
/// by exactly `scale` fractional digits.
pub open spec fn fmt_dec_bytes(coeff: i128, scale: u8) -> Seq<u8> {
    let a = abs(coeff as int) as nat;
    let ai = a / (pow10(scale as nat) as nat);
    let af = a % (pow10(scale as nat) as nat);
    let body = if scale == 0 {
        dec_digits(ai)
    } else {
        dec_digits(ai) + seq![46u8] + dec_digits_fixed(af, scale as nat)
    };
    if coeff < 0 {
        seq![45u8] + body
    } else {
        body
    }
}

/// The numeric value of the digit bytes of `s` between `i` and `j`.
pub open spec fn digits_val(s: Seq<u8>, i: int, j: int) -> int
    decreases j - i,
{
    if j <= i {
        0
    } else {
        digits_val(s, i, j - 1) * 10 + (s[j - 1] - 48)
    }
}

/// The digit string of `a` consists of digits and spells out `a`.
proof fn lemma_dec_digits_props(s: Seq<u8>, i: int, a: nat)
    requires
        0 <= i,
        i + dec_digits(a).len() <= s.len(),
        s.subrange(i, i + dec_digits(a).len() as int) =~= dec_digits(a),
    ensures
        dec_digits(a).len() >= 1,
        forall|k: int| i <= k < i + dec_digits(a).len() ==> is_digit_byte(#[trigger] s[k]),
        digits_val(s, i, i + dec_digits(a).len() as int) == a,
    decreases a,
{
    reveal_with_fuel(digits_val, 3);
    reveal_with_fuel(dec_digits, 2);
    if a < 10 {
        assert(s[i] == dec_digits(a)[0]);
    } else {
        let hd = dec_digits((a / 10) as nat);
        assert(s.subrange(i, i + hd.len() as int) =~= hd);
        lemma_dec_digits_props(s, i, (a / 10) as nat);
        assert(s[i + hd.len()] == dec_digits(a)[hd.len() as int]);
        assert(digits_val(s, i, i + hd.len() + 1) == digits_val(s, i, i + hd.len()) * 10 + (s[i
            + hd.len()] - 48));
        vstd::arithmetic::div_mod::lemma_fundamental_div_mod(a as int, 10);
    }
}

/// The fixed-width digit string of `a` consists of digits and spells out
/// `a`, provided `a` fits the width.
proof fn lemma_dec_digits_fixed_props(s: Seq<u8>, i: int, a: nat, w: nat)
    requires
        0 <= i,
        a < pow10(w),
        i + w <= s.len(),
        s.subrange(i, i + w as int) =~= dec_digits_fixed(a, w),
    ensures
        dec_digits_fixed(a, w).len() == w,
        forall|k: int| i <= k < i + w ==> is_digit_byte(#[trigger] s[k]),
        digits_val(s, i, i + w as int) == a,
    decreases w,
{
    reveal_with_fuel(digits_val, 3);
    reveal_with_fuel(dec_digits_fixed, 2);
    crate::powers_of_ten::lemma_pow10_bounds();
    lemma_dec_digits_fixed_len(a, w);
    if w > 0 {
        vstd::arithmetic::power::lemma_pow1(10);
        crate::powers_of_ten::lemma_pow10_adds((w - 1) as nat, 1);
        vstd::arithmetic::div_mod::lemma_fundamental_div_mod(a as int, 10);
        vstd::arithmetic::div_mod::lemma_mod_division_less_than_divisor(a as int, 10);
        let a2 = (a / 10) as nat;
        assert(a2 < pow10((w - 1) as nat)) by (nonlinear_arith)
            requires
                a < pow10((w - 1) as nat) * 10,
                a2 == a / 10 < a + 1,
                a == 10 * a2 + (a % 10),
                0 <= a % 10 < 10,
        ;
        lemma_dec_digits_fixed_len(a2, (w - 1) as nat);
        assert(s.subrange(i, i + w - 1) =~= dec_digits_fixed(a2, (w - 1) as nat));
        lemma_dec_digits_fixed_props(s, i, a2, (w - 1) as nat);
        assert(s[i + w - 1] == dec_digits_fixed(a, w)[w - 1]);
    }
}

/// The fixed-width digit string has exactly its width as length.
proof fn lemma_dec_digits_fixed_len(a: nat, w: nat)
    ensures
        dec_digits_fixed(a, w).len() == w,
    decreases w,
{
    if w > 0 {
        lemma_dec_digits_fixed_len((a / 10) as nat, (w - 1) as nat);
    }
}

/// Scanning a run of digit bytes folds their value into the accumulator
/// and counts them, leaving everything else to the rest of the scan.
proof fn lemma_scan_digit_run(s: Seq<u8>, i: int, j: int, v: u128, nd: int, sp: bool, fr: int)
    requires
        0 <= i <= j <= s.len(),
        forall|k: int| i <= k < j ==> is_digit_byte(#[trigger] s[k]),
        v * pow10((j - i) as nat) + digits_val(s, i, j) <= u128::MAX,
        digits_val(s, i, j) >= 0,
    ensures
        scan_mantissa(s, i, Some(v), nd, sp, fr) == scan_mantissa(
            s,
            j,
            Some((v * pow10((j - i) as nat) + digits_val(s, i, j)) as u128),
            nd + (j - i),
            sp,
            fr + if sp {
                j - i
            } else {
                0
            },
        ),
    decreases j - i,
{
    lemma_pow10_positive((j - i) as nat);
    if i == j {
        crate::powers_of_ten::lemma_pow10_bounds();
    } else {
        let d: int = s[i] - 48;
        lemma_digits_val_front(s, i, j);
        lemma_digits_val_nonneg(s, i + 1, j);
        let v2: int = v * 10 + d;
        let p1: int = pow10((j - i - 1) as nat);
        lemma_pow10_positive((j - i - 1) as nat);
        vstd::arithmetic::power::lemma_pow1(10);
        crate::powers_of_ten::lemma_pow10_adds((j - i - 1) as nat, 1);
        assert(v * pow10((j - i) as nat) + digits_val(s, i, j) == v2 * p1 + digits_val(
            s,
            i + 1,
            j,
        )) by (nonlinear_arith)
            requires
                pow10((j - i) as nat) == p1 * 10,
                digits_val(s, i, j) == d * p1 + digits_val(s, i + 1, j),
                v2 == v * 10 + d,
        ;
        assert(v2 <= v2 * p1) by (nonlinear_arith)
            requires
                p1 >= 1,
                v2 >= 0,
        ;
        lemma_scan_digit_run(s, i + 1, j, v2 as u128, nd + 1, sp, fr + if sp {
            1int
        } else {
            0int
        });
    }
}

/// The leading digit contributes its value at the run's full power of ten.
proof fn lemma_digits_val_front(s: Seq<u8>, i: int, j: int)
    requires
        0 <= i < j <= s.len(),
    ensures
        digits_val(s, i, j) == (s[i] - 48) * pow10((j - i - 1) as nat) + digits_val(s, i + 1, j),
    decreases j - i,
{
    reveal_with_fuel(digits_val, 3);
    if j == i + 1 {
        crate::powers_of_ten::lemma_pow10_bounds();
        let d: int = s[i] - 48;
        let p0: int = pow10(0);
        assert(d * p0 == d) by (nonlinear_arith)
            requires
                p0 == 1,
        ;
    } else {
        lemma_digits_val_front(s, i, j - 1);
        vstd::arithmetic::power::lemma_pow1(10);
        crate::powers_of_ten::lemma_pow10_adds((j - i - 2) as nat, 1);
        assert(((s[i] - 48) * pow10((j - i - 2) as nat) + digits_val(s, i + 1, j - 1)) * 10 + (s[j
            - 1] - 48) == (s[i] - 48) * pow10((j - i - 1) as nat) + (digits_val(s, i + 1, j - 1)
            * 10 + (s[j - 1] - 48))) by (nonlinear_arith)
            requires
                pow10((j - i - 1) as nat) == pow10((j - i - 2) as nat) * 10,
        ;
    }
}

/// A run of digit bytes has a non-negative value.
proof fn lemma_digits_val_nonneg(s: Seq<u8>, i: int, j: int)
    requires
        forall|k: int| i <= k < j ==> is_digit_byte(#[trigger] s[k]),
    ensures
        digits_val(s, i, j) >= 0,
    decreases j - i,
{
    if i < j {
        lemma_digits_val_nonneg(s, i, j - 1);
    }
}

/// Formatting a pair and parsing the text reproduces the pair exactly, for
/// every coefficient and every scale up to the supported maximum.
pub proof fn lemma_format_parse_round_trip(coeff: i128, scale: u8)
    requires
        scale <= 18,
    ensures
        parse_dec_bytes(fmt_dec_bytes(coeff, scale)) == Ok::<(i128, u8), ParseDecimalError>(
            (coeff, scale),
        ),
{
    let s = fmt_dec_bytes(coeff, scale);
    let a = abs(coeff as int) as nat;
    let tp = pow10(scale as nat) as nat;
    crate::powers_of_ten::lemma_pow10_fits(scale as nat);
    let ai = a / tp;
    let af = a % tp;
    vstd::arithmetic::div_mod::lemma_fundamental_div_mod(a as int, tp as int);
    vstd::arithmetic::div_mod::lemma_mod_division_less_than_divisor(a as int, tp as int);
    let neg = coeff < 0;
    let start: int = if neg {
        1int
    } else {
        0int
    };
    let id = dec_digits(ai);
    let ilen = id.len() as int;
    assert(s.subrange(start, start + ilen) =~= id);
    lemma_dec_digits_props(s, start, ai);
    lemma_digits_val_nonneg(s, start, start + ilen);
    crate::powers_of_ten::lemma_pow10_bounds();
    if neg {
        assert(s[0] == 45);
    } else {
        assert(is_digit_byte(s[0]));
    }
    vstd::arithmetic::div_mod::lemma_div_pos_is_pos(a as int, tp as int);
    vstd::arithmetic::div_mod::lemma_div_nonincreasing(a as int, tp as int);
    assert((ai as u128) == ai);
    if scale == 0 {
        vstd::arithmetic::div_mod::lemma_div_basics_2(a as int);
        assert(ai == a);
        assert(0 * pow10(ilen as nat) + digits_val(s, start, start + ilen) == a)
            by (nonlinear_arith)
            requires
                digits_val(s, start, start + ilen) == a,
        ;
        lemma_scan_digit_run(s, start, start + ilen, 0u128, 0, false, 0);
        assert(scan_mantissa(s, start, Some(0u128), 0, false, 0) == Ok::<
            (Option<u128>, int, int, int, bool),
            ParseDecimalError,
        >((Some(a as u128), ilen, 0, start + ilen, false)));
        assert(assemble_dec(a as u128, neg, 0) == Ok::<(i128, u8), ParseDecimalError>(
            (coeff, scale),
        ));
    } else {
        let fd = dec_digits_fixed(af, scale as nat);
        lemma_dec_digits_fixed_len(af, scale as nat);
        let pp = start + ilen;
        assert(s.subrange(pp + 1, pp + 1 + scale) =~= fd);
        lemma_dec_digits_fixed_props(s, pp + 1, af, scale as nat);
        lemma_digits_val_nonneg(s, pp + 1, pp + 1 + scale);
        assert(0 * pow10(ilen as nat) + digits_val(s, start, pp) == ai) by (nonlinear_arith)
            requires
                digits_val(s, start, pp) == ai,
        ;
        lemma_scan_digit_run(s, start, pp, 0u128, 0, false, 0);
        assert(s[pp] == 46);
        assert(scan_mantissa(s, pp, Some(ai as u128), ilen, false, 0) == scan_mantissa(
            s,
            pp + 1,
            Some(ai as u128),
            ilen,
            true,
            0,
        ));
        assert(ai * pow10(scale as nat) + digits_val(s, pp + 1, pp + 1 + scale) == a)
            by (nonlinear_arith)
            requires
                digits_val(s, pp + 1, pp + 1 + scale) == af,
                a == tp * ai + af,
                pow10(scale as nat) == tp,
        ;
        assert((ai as u128) * pow10(scale as nat) + digits_val(s, pp + 1, pp + 1 + scale) == a);
        lemma_scan_digit_run(s, pp + 1, pp + 1 + scale, ai as u128, ilen, true, 0);
        assert(scan_mantissa(s, start, Some(0u128), 0, false, 0) == Ok::<
            (Option<u128>, int, int, int, bool),
            ParseDecimalError,
        >((Some(a as u128), ilen + scale, scale as int, s.len() as int, false)));
        assert(assemble_dec(a as u128, neg, scale as int) == Ok::<(i128, u8), ParseDecimalError>(
            (coeff, scale),
        ));
    }
}

/// Append the decimal digits of `a` to `out`, most significant first.
fn push_digits(a: u128, out: &mut Vec<u8>)
    ensures
        final(out)@ == old(out)@ + dec_digits(a as nat),
    decreases a,
{
    if a < 10 {
        out.push(48 + a as u8);
        proof {
            assert(out@ =~= old(out)@ + dec_digits(a as nat));
        }
    } else {
        push_digits(a / 10, out);
        out.push(48 + (a % 10) as u8);
        proof {
            assert(out@ =~= old(out)@ + dec_digits(a as nat));
        }
    }
}

/// Append exactly `w` decimal digits of `a` to `out`, zero padded.
fn push_digits_fixed(a: u128, w: u8, out: &mut Vec<u8>)
    requires
        a < pow10(w as nat),
    ensures
        final(out)@ == old(out)@ + dec_digits_fixed(a as nat, w as nat),
    decreases w,
{
    if w > 0 {
        proof {
            vstd::arithmetic::power::lemma_pow1(10);
            crate::powers_of_ten::lemma_pow10_adds((w - 1) as nat, 1);
            let a2: int = a as int / 10;
            assert(a2 < pow10((w - 1) as nat)) by (nonlinear_arith)
                requires
                    a < pow10((w - 1) as nat) * 10,
                    a == 10 * a2 + (a as int % 10),
                    0 <= a as int % 10 < 10,
            ;
        }
        push_digits_fixed(a / 10, w - 1, out);
        out.push(48 + (a % 10) as u8);
        proof {
            assert(out@ =~= old(out)@ + dec_digits_fixed(a as nat, w as nat));
        }
    } else {
        proof {
            assert(out@ =~= old(out)@ + dec_digits_fixed(a as nat, 0));
        }
    }
}

/// Format the pair `(coeff, scale)` as decimal text: the inverse of the
/// parser, producing an optional minus sign, the integral digits and, for
/// a positive scale, a point followed by exactly `scale` fractional
/// digits.
pub fn dec_repr_to_bytes(coeff: i128, scale: u8) -> (v: Vec<u8>)
    requires
        scale <= 18,
    ensures
        v@ == fmt_dec_bytes(coeff, scale),
{
    proof {
        crate::powers_of_ten::lemma_pow10_fits(scale as nat);
    }
    let a = crate::i128_unsigned_abs(coeff);
    let tp = ten_pow(scale);
    let ai = a / tp;
    let af = a % tp;
    let mut out: Vec<u8> = Vec::new();
    if coeff < 0 {
        out.push(45);
    }
    push_digits(ai, &mut out);
    if scale > 0 {
        out.push(46);
        push_digits_fixed(af, scale, &mut out);
    }
    proof {
        assert(out@ =~= fmt_dec_bytes(coeff, scale));
    }
    out
}

/// Every successful parse yields a scale within the supported range.
pub proof fn lemma_parse_scale_bounded(s: Seq<u8>)
    ensures
        parse_dec_bytes(s) matches Ok(p) ==> p.1 <= 18,
{
}

/// Parse a decimal literal into its exact `(coefficient, scale)` pair, or
/// report the one lexical defect class that applies.  This is the sole
/// textual ingestion path of the kernel.
#[verifier::loop_isolation(false)]
pub fn dec_repr_from_str(lit: &str) -> (res: Result<(i128, u8), ParseDecimalError>)
    ensures
        res == parse_dec_bytes(lit.spec_bytes()),
{
    let b = lit.as_bytes();
    let n = b.len();
    let ghost s: Seq<u8> = b@;
    if n == 0 {
        return Err(ParseDecimalError::Empty);
    }
    let c0 = b[0];
    let neg = c0 == 45;
    let start: usize = if c0 == 45 || c0 == 43 {
        1
    } else {
        0
    };
    let mut i: usize = start;
    let mut acc: u128 = 0;
    let mut acc_ok: bool = true;
    let mut nd: usize = 0;
    let mut sp: bool = false;
    let mut fr: usize = 0;
    let mut has_exp: bool = false;
    let ghost full: Result<(Option<u128>, int, int, int, bool), ParseDecimalError> = scan_mantissa(
        s,
        start as int,
        Some(0),
        0,
        false,
        0,
    );
    while i < n && !has_exp
        invariant
            n == s.len(),
            s == b@,
            i <= n,
            nd <= i,
            fr <= i,
            !has_exp ==> full == scan_mantissa(
                s,
                i as int,
                if acc_ok {
                    Some(acc)
                } else {
                    None
                },
                nd as int,
                sp,
                fr as int,
            ),
            has_exp ==> full == Ok::<_, ParseDecimalError>(
                (
                    if acc_ok {
                        Some(acc)
                    } else {
                        None
                    },
                    nd as int,
                    fr as int,
                    i as int,
                    true,
                ),
            ),
        decreases n - i,
    {
        let c = b[i];
        if 48 <= c && c <= 57 {
            if acc_ok {
                let d = (c - 48) as u128;
                match acc.checked_mul(10) {
                    Some(t) => match t.checked_add(d) {
                        Some(v) => {
                            acc = v;
                        },
                        None => {
                            acc_ok = false;
                        },
                    },
                    None => {
                        acc_ok = false;
                    },
                }
            }
            nd = nd + 1;
            if sp {
                fr = fr + 1;
            }
        } else if c == 46 {
            if sp {
                return Err(ParseDecimalError::Invalid);
            }
            sp = true;
        } else if c == 101 || c == 69 {
            has_exp = true;
        } else {
            return Err(ParseDecimalError::Invalid);
        }
        i = i + 1;
    }
    if nd == 0 {
        return Err(ParseDecimalError::NoDigits);
    }
    let mut e: u128 = 0;
    let mut en: bool = false;
    let cap: u128 = (fr as u128) + 38;
    if has_exp {
        if i < n && (b[i] == 43 || b[i] == 45) {
            en = b[i] == 45;
            i = i + 1;
        }
        if i >= n {
            return Err(ParseDecimalError::Invalid);
        }
        let ghost full_exp: Result<int, ParseDecimalError> = scan_exponent(
            s,
            i as int,
            0,
            fr as int + 38,
        );
        while i < n
            invariant
                n == s.len(),
                s == b@,
                i <= n,
                cap == fr as int + 38,
                e <= cap * 10 + 9,
                full_exp == scan_exponent(s, i as int, e as int, cap as int),
            decreases n - i,
        {
            let c = b[i];
            if 48 <= c && c <= 57 {
                if e <= cap {
                    e = e * 10 + ((c - 48) as u128);
                }
            } else {
                return Err(ParseDecimalError::Invalid);
            }
            i = i + 1;
        }
    }
    if !acc_ok {
        return Err(ParseDecimalError::Invalid);
    }
    let e_signed: i128 = if en {
        -(e as i128)
    } else {
        e as i128
    };
    let ghost fr_g: int = fr as int;
    let scale: i128 = (fr as i128) - e_signed;
    if scale > 18 {
        return Err(ParseDecimalError::MaxScaleExceeded);
    }
    if scale >= 0 {
        if neg {
            if acc > 0x80000000000000000000000000000000u128 {
                Err(ParseDecimalError::Invalid)
            } else {
                Ok((crate::u128_to_i128_neg(acc), scale as u8))
            }
        } else {
            if acc > (i128::MAX as u128) {
                Err(ParseDecimalError::Invalid)
            } else {
                Ok((acc as i128, scale as u8))
            }
        }
    } else {
        let ghost k: int = -(scale as int);
        if acc == 0 {
            proof {
                lemma_pow10_positive(k as nat);
                assert(0 * pow10(k as nat) == 0) by (nonlinear_arith);
            }
            return Ok((0, 0));
        }
        if scale < -38 {
            proof {
                crate::powers_of_ten::lemma_pow10_bounds();
                crate::powers_of_ten::lemma_pow10_adds(38, 1);
                vstd::arithmetic::power::lemma_pow1(10);
                if k > 39 {
                    lemma_pow10_increases(39, k as nat);
                }
                assert(pow10(k as nat) >= pow10(39));
                assert(acc * pow10(k as nat) > 0x80000000000000000000000000000000) by (
                nonlinear_arith)
                    requires
                        acc >= 1,
                        pow10(k as nat) > 0x80000000000000000000000000000000,
                ;
            }
            return Err(ParseDecimalError::MaxScaleExceeded);
        }
        let tp = ten_pow((-scale) as u8);
        match acc.checked_mul(tp) {
            None => {
                proof {
                    assert(acc * pow10(k as nat) > u128::MAX ==> acc * pow10(k as nat)
                        > 0x80000000000000000000000000000000);
                }
                Err(ParseDecimalError::MaxScaleExceeded)
            },
            Some(v) => {
                if neg {
                    if v > 0x80000000000000000000000000000000u128 {
                        Err(ParseDecimalError::MaxScaleExceeded)
                    } else {
                        Ok((crate::u128_to_i128_neg(v), 0))
                    }
                } else {
                    if v > (i128::MAX as u128) {
                        Err(ParseDecimalError::MaxScaleExceeded)
                    } else {
                        Ok((v as i128, 0))
                    }
                }
            },
        }
    }
}

} // verus!
