//! Exact 256-bit wide multiplication and division.
//!
//! A 256-bit unsigned value exists only transiently as a pair of `u128`
//! words `(hi, lo)` standing for `hi * 2^128 + lo`.  The division follows
//! Knuth's long-division algorithm, specialized to a divisor of at most two
//! 64-bit half-words and a four-half-word dividend.

use vstd::prelude::*;

verus! {

use vstd::arithmetic::div_mod::{
    lemma_fundamental_div_mod,
    lemma_fundamental_div_mod_converse_div,
    lemma_fundamental_div_mod_converse_mod,
    lemma_add_mod_noop,
    lemma_sub_mod_noop,
    lemma_small_mod,
};
use vstd::arithmetic::div_mod::{
    lemma_div_by_multiple,
    lemma_div_pos_is_pos,
    lemma_mod_division_less_than_divisor,
};
use vstd::arithmetic::power2::{
    pow2,
    lemma2_to64,
    lemma_pow2_adds,
    lemma_pow2_pos,
    lemma_pow2_strictly_increases,
};

/// The value of a 256-bit quantity given as two 128-bit words.
pub open spec fn u256_val(hi: u128, lo: u128) -> int {
    hi * 0x100000000000000000000000000000000 + lo
}

/// The value of a 128-bit quantity given as two 64-bit half-words.
pub open spec fn u128_val(hi: u128, lo: u128) -> int {
    hi * 0x10000000000000000 + lo
}

/// Return the high 64-bit half-word of `u`.
pub fn u128_hi(u: u128) -> (r: u128)
    ensures
        r == u as int / 0x10000000000000000,
        r < 0x10000000000000000,
{
    proof {
        assert(u >> 64u128 == u / 0x10000000000000000) by (bit_vector);
    }
    u >> 64
}

/// Return the low 64-bit half-word of `u`.
pub fn u128_lo(u: u128) -> (r: u128)
    ensures
        r == u as int % 0x10000000000000000,
        r < 0x10000000000000000,
{
    proof {
        assert(u & 0xffffffffffffffffu128 == u % 0x10000000000000000) by (bit_vector);
    }
    u & 0xffffffffffffffff
}

/// Exact unsigned multiplication `u128 x u128 -> u256`, by schoolbook
/// four-limb multiplication over 64-bit half-words.
pub fn u128_mul_u128(x: u128, y: u128) -> (r: (u128, u128))
    ensures
        u256_val(r.0, r.1) == x * y,
{
    let xh = u128_hi(x);
    let xl = u128_lo(x);
    let yh = u128_hi(y);
    let yl = u128_lo(y);
    proof {
        lemma_fundamental_div_mod(x as int, 0x10000000000000000);
        lemma_fundamental_div_mod(y as int, 0x10000000000000000);
        assert(xl * yl <= 0xffffffffffffffff * 0xffffffffffffffff && xl * yh
            <= 0xffffffffffffffff * 0xffffffffffffffff && xh * yl <= 0xffffffffffffffff
            * 0xffffffffffffffff && xh * yh <= 0xffffffffffffffff * 0xffffffffffffffff)
            by (nonlinear_arith)
            requires
                xl < 0x10000000000000000,
                xh < 0x10000000000000000,
                yl < 0x10000000000000000,
                yh < 0x10000000000000000,
        ;
    }
    let ghost pll: int = xl * yl;
    let ghost plh: int = xl * yh;
    let ghost phl: int = xh * yl;
    let ghost phh: int = xh * yh;
    let mut t = xl * yl;
    let mut rl = u128_lo(t);
    let ghost lo0: int = rl as int;
    let ghost hi0: int = t as int / 0x10000000000000000;
    proof {
        lemma_fundamental_div_mod(t as int, 0x10000000000000000);
    }
    let th = u128_hi(t);
    t = xl * yh + th;
    let ghost lo1: int = t as int % 0x10000000000000000;
    let ghost hi1: int = t as int / 0x10000000000000000;
    proof {
        lemma_fundamental_div_mod(t as int, 0x10000000000000000);
    }
    let mut rh = u128_hi(t);
    let tl = u128_lo(t);
    t = xh * yl + tl;
    let ghost lo2: int = t as int % 0x10000000000000000;
    let ghost hi2: int = t as int / 0x10000000000000000;
    proof {
        lemma_fundamental_div_mod(t as int, 0x10000000000000000);
    }
    let t_lo = u128_lo(t);
    proof {
        assert(t_lo << 64u128 == t_lo * 0x10000000000000000) by (bit_vector)
            requires
                t_lo < 0x10000000000000000,
        ;
    }
    rl = rl + (t_lo << 64);
    let t_hi = u128_hi(t);
    rh = rh + (xh * yh + t_hi);
    proof {
        assert(x * y == phh * 0x100000000000000000000000000000000 + (phl + plh)
            * 0x10000000000000000 + pll) by (nonlinear_arith)
            requires
                x == xh * 0x10000000000000000 + xl,
                y == yh * 0x10000000000000000 + yl,
                pll == xl * yl,
                plh == xl * yh,
                phl == xh * yl,
                phh == xh * yh,
        ;
    }
    (rh, rl)
}

/// Join two 64-bit half-words into one `u128`.
fn u128_from_halves(hi: u128, lo: u128) -> (r: u128)
    requires
        hi < 0x10000000000000000,
        lo < 0x10000000000000000,
    ensures
        r == u128_val(hi, lo),
{
    proof {
        assert(hi << 64u128 == hi * 0x10000000000000000) by (bit_vector)
            requires
                hi < 0x10000000000000000,
        ;
    }
    (hi << 64) + lo
}

/// One half-word step of schoolbook long division: divide the two-half-word
/// value `r * 2^64 + w` by `y`, where the incoming remainder `r` is already
/// reduced below `y`.
fn div_half_step(r: u128, w: u128, y: u128) -> (qr: (u128, u128))
    requires
        0 < y < 0x10000000000000000,
        r < y,
        w < 0x10000000000000000,
    ensures
        qr.0 * y + qr.1 == u128_val(r, w),
        qr.1 < y,
        qr.0 < 0x10000000000000000,
{
    let t = u128_from_halves(r, w);
    let q = t / y;
    let rem = t % y;
    proof {
        lemma_fundamental_div_mod(t as int, y as int);
        assert(q < 0x10000000000000000) by (nonlinear_arith)
            requires
                q == t as int / y as int,
                q * y + rem == t,
                rem >= 0,
                t < y * 0x10000000000000000,
        ;
    }
    (q, rem)
}

/// Multiply two 64-bit half-words; the product always fits in a `u128`.
fn mul_half_words(a: u128, b: u128) -> (r: u128)
    requires
        a < 0x10000000000000000,
        b < 0x10000000000000000,
    ensures
        r == a * b,
{
    proof {
        assert(a * b <= 0xffffffffffffffff * 0xffffffffffffffff) by (nonlinear_arith)
            requires
                a < 0x10000000000000000,
                b < 0x10000000000000000,
        ;
    }
    a * b
}

/// Compute one 64-bit quotient digit of the normalized long division.
///
/// Divides `num_hi * 2^64 + w` exactly by the normalized divisor
/// `yn == yn1 * 2^64 + yn0` (top bit of `yn1` set), where the leading part
/// `num_hi` is already reduced below `yn`.  The digit is first estimated
/// from the two leading half-words and then corrected downward by at most a
/// few steps using the exact cross-multiplication test; no add-back pass is
/// needed afterwards.
#[verifier::loop_isolation(false)]
fn div_correct_digit(num_hi: u128, w: u128, yn: u128, yn1: u128, yn0: u128) -> (qr: (
    u128,
    u128,
))
    requires
        yn1 == yn as int / 0x10000000000000000,
        yn0 == yn as int % 0x10000000000000000,
        0x8000000000000000 <= yn1,
        w < 0x10000000000000000,
        num_hi < yn,
    ensures
        qr.0 == (num_hi * 0x10000000000000000 + w) / yn as int,
        qr.1 == (num_hi * 0x10000000000000000 + w) % yn as int,
        qr.0 < 0x10000000000000000,
        qr.1 < yn,
{
    let ghost b: int = 0x10000000000000000;
    let ghost m_val: int = 0x100000000000000000000000000000000int;
    let ghost num: int = num_hi * b + w;
    let ghost qstar: int = num / yn as int;
    let ghost remv: int = num % yn as int;
    proof {
        lemma_fundamental_div_mod(yn as int, b);
        lemma_mod_division_less_than_divisor(yn as int, b);
        lemma_fundamental_div_mod(num, yn as int);
        lemma_mod_division_less_than_divisor(num, yn as int);
        lemma_div_pos_is_pos(num, yn as int);
        assert(qstar < b) by (nonlinear_arith)
            requires
                num == qstar * yn + remv,
                remv >= 0,
                num_hi < yn,
                num == num_hi * b + w,
                w < b,
                b >= 2,
                yn >= 1,
                qstar >= 0,
        ;
    }
    let mut q = num_hi / yn1;
    let mut rhat = num_hi % yn1;
    proof {
        lemma_fundamental_div_mod(num_hi as int, yn1 as int);
        lemma_mod_division_less_than_divisor(num_hi as int, yn1 as int);
        assert(q <= b + 1) by (nonlinear_arith)
            requires
                num_hi == yn1 * q + rhat,
                0 <= rhat < yn1,
                num_hi < yn,
                yn == yn1 * b + yn0,
                yn0 < b,
                b == 0x10000000000000000,
                yn1 >= 0x8000000000000000,
        ;
        assert(yn1 * qstar <= num_hi) by (nonlinear_arith)
            requires
                num == yn * qstar + remv,
                remv >= 0,
                qstar >= 0,
                yn == yn1 * b + yn0,
                0 <= yn0,
                num == num_hi * b + w,
                0 <= w < b,
                b >= 1,
                yn1 >= 1,
        ;
        assert(qstar <= q) by (nonlinear_arith)
            requires
                yn1 * qstar <= num_hi,
                num_hi == yn1 * q + rhat,
                0 <= rhat < yn1,
                yn1 >= 1,
        ;
    }
    while q >= 0x10000000000000000 || (rhat < 0x10000000000000000 && mul_half_words(q, yn0)
        > rhat * 0x10000000000000000 + w)
        invariant
            yn1 * q + rhat == num_hi,
            qstar <= q <= b + 1,
        decreases q,
    {
        proof {
            if q >= 0x10000000000000000 {
                assert(rhat < yn0) by (nonlinear_arith)
                    requires
                        yn1 * q + rhat == num_hi,
                        num_hi < yn,
                        yn == yn1 * b + yn0,
                        q >= b,
                        yn1 >= 1,
                        rhat >= 0,
                        b == 0x10000000000000000,
                ;
            } else {
                assert(q * yn > num) by (nonlinear_arith)
                    requires
                        q * yn0 > rhat * b + w,
                        yn1 * q + rhat == num_hi,
                        yn == yn1 * b + yn0,
                        num == num_hi * b + w,
                        b >= 1,
                ;
                assert(q > qstar) by (nonlinear_arith)
                    requires
                        q * yn > num,
                        num == qstar * yn + remv,
                        remv >= 0,
                        yn >= 1,
                ;
            }
            assert(q > qstar);
            assert(yn1 * (q - 1) == yn1 * q - yn1) by (nonlinear_arith);
        }
        q = q - 1;
        rhat = rhat + yn1;
    }
    proof {
        if rhat >= 0x10000000000000000 {
            assert(q * yn0 <= rhat * b + w) by (nonlinear_arith)
                requires
                    q < b,
                    yn0 < b,
                    rhat >= b,
                    b == 0x10000000000000000,
                    w >= 0,
                    yn0 >= 0,
                    q >= 0,
            ;
        }
        assert(q * yn <= num) by (nonlinear_arith)
            requires
                q * yn0 <= rhat * b + w,
                yn1 * q + rhat == num_hi,
                yn == yn1 * b + yn0,
                num == num_hi * b + w,
                b >= 1,
        ;
        assert(q <= qstar) by (nonlinear_arith)
            requires
                q * yn <= num,
                num == qstar * yn + remv,
                remv < yn,
                yn >= 1,
        ;
        assert(q == qstar);
        assert(num - q * yn == remv) by (nonlinear_arith)
            requires
                q == qstar,
                num == yn * qstar + remv,
        ;
    }
    let a1 = num_hi.wrapping_mul(0x10000000000000000);
    let a2 = a1.wrapping_add(w);
    let d = q.wrapping_mul(yn);
    let t = a2.wrapping_sub(d);
    proof {
        lemma_small_mod(a1 as nat, m_val as nat);
        assert(a1 == (num_hi * b) % m_val);
        if a1 + w <= u128::MAX {
            lemma_small_mod((a1 + w) as nat, m_val as nat);
        } else {
            lemma_fundamental_div_mod_converse_mod(a1 + w, m_val, 1, a1 + w - m_val);
        }
        assert(a2 == (a1 + w) % m_val);
        lemma_small_mod(w as nat, m_val as nat);
        lemma_add_mod_noop(num_hi * b, w as int, m_val);
        assert(a2 == num % m_val);
        assert(d == (q * yn) % m_val);
        if a2 >= d {
            lemma_small_mod((a2 - d) as nat, m_val as nat);
        } else {
            lemma_fundamental_div_mod_converse_mod(a2 as int - d as int, m_val, -1, a2 - d + m_val);
        }
        assert(t == (a2 as int - d as int) % m_val);
        lemma_sub_mod_noop(num, q * yn, m_val);
        assert(t == (num - q * yn) % m_val);
        lemma_small_mod(remv as nat, m_val as nat);
        assert(t == remv);
    }
    (q, t)
}

/// One narrowing step of the most-significant-bit search: if `v` has a set
/// bit at position `k` (that is, `c == 2^k`) or above, shift the window up
/// by `k` and reduce `v` accordingly.  The ghost argument carries the
/// original input, about which the bracketing invariant is maintained.
fn msb_step(v: u128, n: u8, k: u8, c: u128, Ghost(i): Ghost<u128>) -> (r: (u128, u8))
    requires
        1 <= v,
        v < c * c,
        n as int + k as int <= 127,
        c == pow2(k as nat),
        c >= 2,
        v * pow2(n as nat) <= i < (v + 1) * pow2(n as nat),
    ensures
        1 <= r.0 < c,
        r.0 * pow2(r.1 as nat) <= i < (r.0 + 1) * pow2(r.1 as nat),
        r.1 as int <= n as int + k as int,
{
    if v >= c {
        let v2 = v / c;
        proof {
            lemma_fundamental_div_mod(v as int, c as int);
            lemma_mod_division_less_than_divisor(v as int, c as int);
            lemma_pow2_adds(n as nat, k as nat);
            lemma_pow2_pos(n as nat);
            let m: int = v as int % c as int;
            let p: int = pow2(n as nat) as int;
            let pn: int = pow2((n + k) as nat) as int;
            assert(v2 * pn <= i < (v2 + 1) * pn && 1 <= v2 < c) by (nonlinear_arith)
                requires
                    v == c * v2 + m,
                    0 <= m < c,
                    c <= v,
                    v < c * c,
                    v * p <= i < (v + 1) * p,
                    pn == p * c,
                    p >= 1,
                    c >= 2,
            ;
        }
        (v2, n + k)
    } else {
        (v, n)
    }
}

/// Return the index of the most significant set bit of `i`, which must not
/// be zero.
pub fn u128_msb(i: u128) -> (r: u8)
    requires
        i != 0,
    ensures
        r <= 127,
        pow2(r as nat) <= i < pow2((r + 1) as nat),
{
    proof {
        lemma2_to64();
    }
    let ghost gi = i;
    let s = msb_step(i, 0, 64, 0x10000000000000000, Ghost(gi));
    let s = msb_step(s.0, s.1, 32, 0x100000000, Ghost(gi));
    let s = msb_step(s.0, s.1, 16, 0x10000, Ghost(gi));
    let s = msb_step(s.0, s.1, 8, 0x100, Ghost(gi));
    let s = msb_step(s.0, s.1, 4, 0x10, Ghost(gi));
    let s = msb_step(s.0, s.1, 2, 4, Ghost(gi));
    let s = msb_step(s.0, s.1, 1, 2, Ghost(gi));
    proof {
        lemma_pow2_adds(s.1 as nat, 1);
        let p: int = pow2(s.1 as nat) as int;
        assert(p <= i && i < 2 * p) by (nonlinear_arith)
            requires
                s.0 == 1,
                s.0 * p <= i < (s.0 + 1) * p,
        ;
        assert(pow2((s.1 + 1) as nat) == pow2(s.1 as nat) * 2);
    }
    s.1
}

/// Return `2^n` for `n` up to 127.
fn pow2_exec(n: u8) -> (r: u128)
    requires
        n <= 127,
    ensures
        r == pow2(n as nat),
{
    proof {
        lemma2_to64();
    }
    let mut p: u128 = 1;
    let mut j: u8 = 0;
    while j < n
        invariant
            j <= n,
            n <= 127,
            p == pow2(j as nat),
        decreases n - j,
    {
        proof {
            lemma_pow2_adds(j as nat, 1);
            lemma2_to64();
            lemma_pow2_strictly_increases((j + 1) as nat, 128);
            lemma_pow2_127_128();
        }
        p = p * 2;
        j = j + 1;
    }
    p
}

/// `pow2(127)` and `pow2(128)` written out, for bounding 128-bit quantities.
pub proof fn lemma_pow2_127_128()
    ensures
        pow2(127) == 0x80000000000000000000000000000000,
        pow2(128) == 0x100000000000000000000000000000000,
{
    lemma2_to64();
    vstd::arithmetic::power2::lemma2_to64_rest();
    lemma_pow2_adds(64, 63);
    lemma_pow2_adds(64, 64);
    assert(0x10000000000000000 * 0x8000000000000000nat == 0x80000000000000000000000000000000nat)
        by (nonlinear_arith);
    assert(0x10000000000000000 * 0x10000000000000000nat
        == 0x100000000000000000000000000000000nat) by (nonlinear_arith);
}

/// Divide the 256-bit value `xh * 2^128 + xl` in place by a 64-bit divisor
/// and return the remainder.
pub fn u256_idiv_u64(xh: &mut u128, xl: &mut u128, y: u64) -> (r: u128)
    requires
        y != 0,
    ensures
        u256_val(*final(xh), *final(xl)) == u256_val(*old(xh), *old(xl)) / y as int,
        r == u256_val(*old(xh), *old(xl)) % y as int,
        r < y,
{
    let ghost x_val: int = u256_val(*xh, *xl);
    if y == 1 {
        proof {
            lemma_fundamental_div_mod_converse_div(x_val, 1, x_val, 0);
            lemma_fundamental_div_mod_converse_mod(x_val, 1, x_val, 0);
        }
        return 0;
    }
    let yy = y as u128;
    let h3 = u128_hi(*xh);
    let h2 = u128_lo(*xh);
    let h1 = u128_hi(*xl);
    let h0 = u128_lo(*xl);
    proof {
        lemma_fundamental_div_mod(*xh as int, 0x10000000000000000);
        lemma_fundamental_div_mod(*xl as int, 0x10000000000000000);
    }
    let (q3, r3) = div_half_step(0, h3, yy);
    let (q2, r2) = div_half_step(r3, h2, yy);
    let (q1, r1) = div_half_step(r2, h1, yy);
    let (q0, r0) = div_half_step(r1, h0, yy);
    let qh = u128_from_halves(q3, q2);
    let ql = u128_from_halves(q1, q0);
    proof {
        let b: int = 0x10000000000000000;
        let g3: int = q3 * yy;
        let g2: int = q2 * yy;
        let g1: int = q1 * yy;
        let g0: int = q0 * yy;
        let q_val: int = u256_val(qh, ql);
        assert(q_val * yy == g3 * 0x1000000000000000000000000000000000000000000000000 + g2
            * 0x100000000000000000000000000000000 + g1 * 0x10000000000000000 + g0)
            by (nonlinear_arith)
            requires
                q_val == ((q3 * 0x10000000000000000 + q2) * 0x10000000000000000 + q1)
                    * 0x10000000000000000 + q0,
                g3 == q3 * yy,
                g2 == q2 * yy,
                g1 == q1 * yy,
                g0 == q0 * yy,
        ;
        assert(x_val == q_val * yy + r0);
        lemma_fundamental_div_mod_converse_div(x_val, yy as int, q_val, r0 as int);
        lemma_fundamental_div_mod_converse_mod(x_val, yy as int, q_val, r0 as int);
    }
    *xh = qh;
    *xl = ql;
    r0
}

/// Divide the 256-bit value `xh * 2^128 + xl` in place by a divisor of at
/// least two half-words, in the special case that the leading 128-bit word
/// of the dividend is already reduced below the divisor, and return the
/// remainder.  The divisor is normalized so that its top bit is set, each
/// quotient half-word is estimated from the two leading dividend words and
/// corrected exactly, and the remainder is denormalized at the end.
pub fn u256_idiv_u128_special(xh: &mut u128, xl: &mut u128, y: u128) -> (r: u128)
    requires
        0x10000000000000000 <= y,
        *old(xh) < y,
    ensures
        *final(xh) == 0,
        *final(xl) == u256_val(*old(xh), *old(xl)) / y as int,
        r == u256_val(*old(xh), *old(xl)) % y as int,
{
    let ghost x_val: int = u256_val(*xh, *xl);
    let ghost big: int = 0x100000000000000000000000000000000int;
    let ghost b: int = 0x10000000000000000;
    // Normalize divisor and dividend, so that the divisor's top bit is set.
    let msb = u128_msb(y);
    proof {
        lemma2_to64();
        if msb < 64 {
            if msb + 1 < 64 {
                lemma_pow2_strictly_increases((msb + 1) as nat, 64);
            }
            assert(false);
        }
    }
    let n_bits = 127 - msb;
    let p2 = pow2_exec(n_bits);
    proof {
        lemma_pow2_pos(n_bits as nat);
        lemma_pow2_pos(msb as nat);
        lemma_pow2_adds(msb as nat, n_bits as nat);
        lemma_pow2_adds((msb + 1) as nat, n_bits as nat);
        lemma_pow2_127_128();
        assert(y * p2 < big && pow2(127) <= y * p2) by (nonlinear_arith)
            requires
                pow2(msb as nat) <= y < pow2((msb + 1) as nat),
                p2 == pow2(n_bits as nat),
                pow2((msb + 1) as nat) * pow2(n_bits as nat) == pow2(128),
                pow2(msb as nat) * pow2(n_bits as nat) == pow2(127),
                pow2(128) == big,
                p2 >= 1,
        ;
    }
    let yn = y * p2;
    let yn1 = u128_hi(yn);
    let yn0 = u128_lo(yn);
    proof {
        lemma_fundamental_div_mod(yn as int, b);
        assert(yn1 >= 0x8000000000000000);
    }
    // Shift the dividend left by the same amount, keeping the bits moved
    // from the low into the high word.
    let (sh, xn10) = if n_bits == 0 {
        (0u128, *xl)
    } else {
        let q2 = pow2_exec(128 - n_bits);
        proof {
            lemma_pow2_adds(n_bits as nat, (128 - n_bits) as nat);
            lemma_pow2_127_128();
            lemma_fundamental_div_mod(*xl as int, q2 as int);
            lemma_mod_division_less_than_divisor(*xl as int, q2 as int);
            lemma_div_pos_is_pos(*xl as int, q2 as int);
            assert((*xl % q2) * p2 + p2 <= big && *xl / q2 < p2) by (nonlinear_arith)
                requires
                    p2 * q2 == big,
                    0 <= *xl % q2 < q2,
                    *xl == q2 * (*xl / q2) + *xl % q2,
                    *xl < big,
                    *xl / q2 >= 0,
                    p2 >= 1,
                    q2 >= 1,
            ;
        }
        (*xl / q2, (*xl % q2) * p2)
    };
    proof {
        let q2i: int = pow2((128 - n_bits) as nat) as int;
        assert(*xl * p2 == sh * big + xn10 && sh < p2) by (nonlinear_arith)
            requires
                n_bits == 0 ==> sh == 0 && xn10 == *xl && p2 == 1,
                n_bits != 0 ==> sh == *xl as int / q2i && xn10 == (*xl as int % q2i) * p2 && *xl
                    == q2i * (*xl as int / q2i) + *xl as int % q2i && sh < p2 && p2 * q2i == big,
                *xl < big,
                p2 >= 1,
        ;
        assert(*xh * p2 + sh < yn && *xh * p2 + sh >= 0) by (nonlinear_arith)
            requires
                *xh < y,
                sh < p2,
                yn == y * p2,
                p2 >= 1,
        ;
    }
    let xn32 = *xh * p2 + sh;
    let xn1 = u128_hi(xn10);
    let xn0 = u128_lo(xn10);
    proof {
        lemma_fundamental_div_mod(xn10 as int, b);
        assert(x_val * p2 == (xn32 * b + xn1) * b + xn0) by (nonlinear_arith)
            requires
                x_val == *xh * big + *xl,
                *xl * p2 == sh * big + xn10,
                xn32 == *xh * p2 + sh,
                xn10 == xn1 * b + xn0,
                big == b * b,
        ;
    }
    // Two exact quotient half-words.
    let (q1, t) = div_correct_digit(xn32, xn1, yn, yn1, yn0);
    let (q0, t2) = div_correct_digit(t, xn0, yn, yn1, yn0);
    let q = u128_from_halves(q1, q0);
    let ghost d: int = x_val - y * q;
    proof {
        lemma_fundamental_div_mod(xn32 * b + xn1, yn as int);
        lemma_fundamental_div_mod(t as int * b + xn0, yn as int);
        assert(x_val * p2 == yn * q + t2) by (nonlinear_arith)
            requires
                x_val * p2 == (xn32 * b + xn1) * b + xn0,
                xn32 * b + xn1 == yn * q1 + t,
                t * b + xn0 == yn * q0 + t2,
                q == q1 * b + q0,
        ;
        assert(t2 == d * p2 && d < y && d >= 0 && x_val == q * y + d) by (nonlinear_arith)
            requires
                x_val * p2 == yn * q + t2,
                yn == y * p2,
                d == x_val - y * q,
                0 <= t2 < yn,
                p2 >= 1,
        ;
        lemma_div_by_multiple(d, p2 as int);
        lemma_fundamental_div_mod_converse_div(x_val, y as int, q as int, d);
        lemma_fundamental_div_mod_converse_mod(x_val, y as int, q as int, d);
    }
    // Write back the quotient and denormalize the remainder.
    *xh = 0;
    *xl = q;
    t2 / p2
}

/// Divide the 256-bit value `xh * 2^128 + xl` in place by a non-zero
/// divisor and return the remainder, dispatching on the divisor's
/// magnitude: a one-half-word divisor takes the word-by-word path, a
/// reduced leading dividend word takes the normalized path directly, and
/// otherwise the leading word is first reduced modulo the divisor.
pub fn u256_idiv_u128(xh: &mut u128, xl: &mut u128, y: u128) -> (r: u128)
    requires
        y != 0,
    ensures
        u256_val(*final(xh), *final(xl)) == u256_val(*old(xh), *old(xl)) / y as int,
        r == u256_val(*old(xh), *old(xl)) % y as int,
        r < y,
{
    let ghost x_val: int = u256_val(*xh, *xl);
    let ghost big: int = 0x100000000000000000000000000000000int;
    let yh = u128_hi(y);
    if yh == 0 {
        return u256_idiv_u64(xh, xl, y as u64);
    }
    proof {
        lemma_mod_division_less_than_divisor(x_val, y as int);
    }
    if *xh < y {
        return u256_idiv_u128_special(xh, xl, y);
    }
    let mut t = *xh % y;
    proof {
        lemma_fundamental_div_mod(*xh as int, y as int);
        lemma_mod_division_less_than_divisor(*xh as int, y as int);
    }
    let ghost qh: int = *xh as int / y as int;
    let ghost oh: u128 = *xh;
    let ghost ol: u128 = *xl;
    let r = u256_idiv_u128_special(&mut t, xl, y);
    proof {
        lemma_fundamental_div_mod((oh as int % y as int) * big + ol, y as int);
        assert(x_val == (qh * big + *xl) * y + r) by (nonlinear_arith)
            requires
                x_val == oh * big + ol,
                oh == y * qh + (oh as int % y as int),
                (oh as int % y as int) * big + ol == y * *xl + r,
                r >= 0,
        ;
        lemma_fundamental_div_mod_converse_div(x_val, y as int, qh * big + *xl as int, r as int);
        lemma_fundamental_div_mod_converse_mod(x_val, y as int, qh * big + *xl as int, r as int);
        lemma_div_pos_is_pos(oh as int, y as int);
    }
    *xh = *xh / y;
    r
}

} // verus!
