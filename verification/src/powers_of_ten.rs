//! Powers of ten and overflow-aware scaling of an `i128` by `10^n`.

use vstd::prelude::*;

verus! {

use vstd::arithmetic::power::{
    pow,
    lemma_pow_adds,
    lemma_pow_positive,
    lemma_pow_strictly_increases,
};

/// `10^n` as a mathematical integer.
pub open spec fn pow10(n: nat) -> int {
    pow(10, n)
}

/// `10^n` is positive.
pub proof fn lemma_pow10_positive(n: nat)
    ensures
        pow10(n) >= 1,
{
    lemma_pow_positive(10, n);
}

/// `10^a * 10^b == 10^(a + b)`.
pub proof fn lemma_pow10_adds(a: nat, b: nat)
    ensures
        pow10(a) * pow10(b) == pow10(a + b),
{
    lemma_pow_adds(10, a, b);
}

/// `10^n` grows strictly with `n`.
pub proof fn lemma_pow10_increases(a: nat, b: nat)
    requires
        a < b,
    ensures
        pow10(a) < pow10(b),
{
    lemma_pow_strictly_increases(10, a, b);
}

/// `10^0` is one and `10^38` is written out.
pub proof fn lemma_pow10_bounds()
    ensures
        pow10(0) == 1,
        pow10(38) == 100000000000000000000000000000000000000,
{
    reveal_with_fuel(pow, 40);
}

/// `10^n` fits in an `i128` for every supported exponent (10^38 < 2^127).
pub proof fn lemma_pow10_fits(n: nat)
    requires
        n <= 38,
    ensures
        1 <= pow10(n) <= 100000000000000000000000000000000000000,
        pow10(n) < i128::MAX,
{
    reveal_with_fuel(pow, 40);
    lemma_pow_positive(10, n);
    if n < 38 {
        lemma_pow_strictly_increases(10, n, 38);
    }
}

/// Return `10^n` exactly.  `n` must be at most 38, the largest exponent for
/// which `10^n` fits in a signed 128-bit integer.
#[verifier::rlimit(60)]
pub fn ten_pow(n: u8) -> (r: u128)
    requires
        n <= 38,
    ensures
        r == pow10(n as nat),
{
    proof {
        reveal_with_fuel(pow, 40);
    }
    if n == 0 {
        1
    } else if n == 1 {
        10
    } else if n == 2 {
        100
    } else if n == 3 {
        1000
    } else if n == 4 {
        10000
    } else if n == 5 {
        100000
    } else if n == 6 {
        1000000
    } else if n == 7 {
        10000000
    } else if n == 8 {
        100000000
    } else if n == 9 {
        1000000000
    } else if n == 10 {
        10000000000
    } else if n == 11 {
        100000000000
    } else if n == 12 {
        1000000000000
    } else if n == 13 {
        10000000000000
    } else if n == 14 {
        100000000000000
    } else if n == 15 {
        1000000000000000
    } else if n == 16 {
        10000000000000000
    } else if n == 17 {
        100000000000000000
    } else if n == 18 {
        1000000000000000000
    } else if n == 19 {
        10000000000000000000
    } else if n == 20 {
        100000000000000000000
    } else if n == 21 {
        1000000000000000000000
    } else if n == 22 {
        10000000000000000000000
    } else if n == 23 {
        100000000000000000000000
    } else if n == 24 {
        1000000000000000000000000
    } else if n == 25 {
        10000000000000000000000000
    } else if n == 26 {
        100000000000000000000000000
    } else if n == 27 {
        1000000000000000000000000000
    } else if n == 28 {
        10000000000000000000000000000
    } else if n == 29 {
        100000000000000000000000000000
    } else if n == 30 {
        1000000000000000000000000000000
    } else if n == 31 {
        10000000000000000000000000000000
    } else if n == 32 {
        100000000000000000000000000000000
    } else if n == 33 {
        1000000000000000000000000000000000
    } else if n == 34 {
        10000000000000000000000000000000000
    } else if n == 35 {
        100000000000000000000000000000000000
    } else if n == 36 {
        1000000000000000000000000000000000000
    } else if n == 37 {
        10000000000000000000000000000000000000
    } else {
        100000000000000000000000000000000000000
    }
}

/// Multiply `x` by `10^n` under a caller-established no-overflow
/// precondition.
pub fn mul_pow_ten(x: i128, n: u8) -> (r: i128)
    requires
        n <= 38,
        i128::MIN <= x * pow10(n as nat) <= i128::MAX,
    ensures
        r == x * pow10(n as nat),
{
    proof {
        lemma_pow10_fits(n as nat);
    }
    let p = ten_pow(n) as i128;
    x * p
}

/// Multiply `x` by `10^n`, returning `None` instead of wrapping when the
/// true product exceeds the `i128` range.
pub fn checked_mul_pow_ten(x: i128, n: u8) -> (r: Option<i128>)
    requires
        n <= 38,
    ensures
        i128::MIN <= x * pow10(n as nat) <= i128::MAX ==> r == Some(
            (x * pow10(n as nat)) as i128,
        ),
        !(i128::MIN <= x * pow10(n as nat) <= i128::MAX) ==> r is None,
{
    proof {
        lemma_pow10_fits(n as nat);
    }
    let p = ten_pow(n) as i128;
    x.checked_mul(p)
}

} // verus!
