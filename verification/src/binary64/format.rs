//! The binary64 format: what the bits of a pattern mean.
//!
//! A pattern holds, from the top, one sign bit, eleven bits of biased exponent
//! and fifty-two bits of fraction. A finite value has the magnitude
//! `significand` times two to the power of `exponent`.
use vstd::prelude::*;
use vstd::arithmetic::power2::pow2;
use vstd::arithmetic::power2::lemma_pow2_pos;
use vstd::arithmetic::power2::lemma_pow2_unfold;
use vstd::arithmetic::power2::lemma_pow2_adds;
use vstd::arithmetic::power2::lemma_pow2_strictly_increases;
use vstd::arithmetic::power2::lemma2_to64;
use vstd::arithmetic::power2::lemma2_to64_rest;
use vstd::arithmetic::div_mod::lemma_fundamental_div_mod;

verus! {

/// The sign bit of a pattern.
pub const SIGN_BIT: u64 = 0x8000_0000_0000_0000;

/// Positive infinity; every larger magnitude is a NaN.
pub const INFINITY: u64 = 0x7FF0_0000_0000_0000;

/// The quiet NaN that every invalid operation returns.
pub const NAN: u64 = 0x7FF8_0000_0000_0000;

/// Positive zero.
pub const ZERO: u64 = 0;

/// The number one.
pub const ONE: u64 = 0x3FF0_0000_0000_0000;

/// The distance from one to the next larger value, two to the power of -52.
pub const EPSILON: u64 = 0x3CB0_0000_0000_0000;

/// Two to the power of 52: the implicit leading bit of a normal significand.
pub const HIDDEN_BIT: u64 = 0x0010_0000_0000_0000;

/// The pattern without its sign bit.
pub open spec fn magnitude(a: u64) -> u64 {
    if a >= SIGN_BIT {
        (a - SIGN_BIT) as u64
    } else {
        a
    }
}

pub open spec fn is_negative(a: u64) -> bool {
    a >= SIGN_BIT
}

pub open spec fn is_nan(a: u64) -> bool {
    magnitude(a) > INFINITY
}

pub open spec fn is_infinite(a: u64) -> bool {
    magnitude(a) == INFINITY
}

pub open spec fn is_finite(a: u64) -> bool {
    magnitude(a) < INFINITY
}

pub open spec fn is_zero(a: u64) -> bool {
    magnitude(a) == 0
}

/// The pattern with the sign bit flipped.
pub open spec fn negated(a: u64) -> u64 {
    if a >= SIGN_BIT {
        (a - SIGN_BIT) as u64
    } else {
        (a + SIGN_BIT) as u64
    }
}

/// The pattern of the given magnitude and sign.
pub open spec fn with_sign(negative: bool, mag: nat) -> u64 {
    if negative {
        (mag + SIGN_BIT) as u64
    } else {
        mag as u64
    }
}

pub open spec fn biased_exponent(a: u64) -> nat {
    (magnitude(a) / HIDDEN_BIT) as nat
}

pub open spec fn fraction(a: u64) -> nat {
    (magnitude(a) % HIDDEN_BIT) as nat
}

/// The integer significand of a finite value: the value's magnitude is
/// `significand(a)` times two to the power of `exponent(a)`.
pub open spec fn significand(a: u64) -> nat {
    if biased_exponent(a) == 0 {
        fraction(a)
    } else {
        (fraction(a) + HIDDEN_BIT) as nat
    }
}

/// The exponent that scales `significand(a)`.
pub open spec fn exponent(a: u64) -> int {
    if biased_exponent(a) == 0 {
        -1074
    } else {
        biased_exponent(a) - 1075
    }
}

/// The number of binary digits of `n`; zero has none.
pub open spec fn bit_length(n: nat) -> nat
    decreases n,
{
    if n == 0 {
        0
    } else {
        1 + bit_length(n / 2)
    }
}

/// A positive number lies between the two powers of two that its bit length names.
pub proof fn lemma_bit_length_bounds(n: nat)
    requires
        n > 0,
    ensures
        bit_length(n) >= 1,
        pow2((bit_length(n) - 1) as nat) <= n < pow2(bit_length(n)),
    decreases n,
{
    lemma2_to64();
    if n == 1 {
        assert(bit_length(1) == 1 + bit_length(0));
    } else {
        lemma_bit_length_bounds(n / 2);
        let t = bit_length(n / 2);
        lemma_pow2_unfold(t);
        lemma_pow2_unfold(t + 1);
    }
}

/// The bit length is the only exponent whose powers of two enclose the number.
pub proof fn lemma_bit_length_unique(n: nat, t: nat)
    requires
        t >= 1,
        pow2((t - 1) as nat) <= n < pow2(t),
    ensures
        bit_length(n) == t,
{
    lemma_pow2_pos((t - 1) as nat);
    lemma_bit_length_bounds(n);
    let u = bit_length(n);
    if u < t {
        if u < t - 1 {
            lemma_pow2_strictly_increases(u, (t - 1) as nat);
        }
    } else if u > t {
        if t < u - 1 {
            lemma_pow2_strictly_increases(t, (u - 1) as nat);
        }
    }
}

/// A number below two to the power of `k` has at most `k` digits.
pub proof fn lemma_bit_length_upper(n: nat, k: nat)
    requires
        n < pow2(k),
    ensures
        bit_length(n) <= k,
{
    if n > 0 {
        lemma_bit_length_bounds(n);
        let u = bit_length(n);
        if u > k {
            if k < u - 1 {
                lemma_pow2_strictly_increases(k, (u - 1) as nat);
            }
        }
    }
}

/// A number that reaches two to the power of `k` has more than `k` digits.
pub proof fn lemma_bit_length_lower(n: nat, k: nat)
    requires
        n >= pow2(k),
    ensures
        bit_length(n) > k,
{
    lemma_pow2_pos(k);
    lemma_bit_length_bounds(n);
    let u = bit_length(n);
    if u < k {
        lemma_pow2_strictly_increases(u, k);
    }
}

/// The values of the powers of two that the formats' limits are made of.
pub proof fn lemma_pow2_values()
    ensures
        pow2(52) == 0x10_0000_0000_0000,
        pow2(53) == 0x20_0000_0000_0000,
        pow2(63) == 0x8000_0000_0000_0000,
        pow2(64) == 0x1_0000_0000_0000_0000,
        pow2(120) == 0x100_0000_0000_0000_0000_0000_0000_0000,
        pow2(127) == 0x8000_0000_0000_0000_0000_0000_0000_0000,
{
    lemma2_to64();
    lemma2_to64_rest();
    lemma_pow2_adds(64, 56);
    lemma_pow2_adds(64, 63);
}

/// A number of at most `t` digits, shifted up by `j`, stays below two to the
/// power of any `k` that is at least `t + j`.
pub(crate) proof fn lemma_scaled_below(m: nat, t: nat, j: nat, k: nat)
    requires
        m < pow2(t),
        t + j <= k,
    ensures
        m * pow2(j) < pow2(k),
{
    lemma_pow2_adds(t, j);
    lemma_pow2_pos(j);
    if t + j < k {
        lemma_pow2_strictly_increases(t + j, k);
    }
    assert(m * pow2(j) < pow2(t) * pow2(j)) by (nonlinear_arith)
        requires
            m < pow2(t),
            pow2(j) > 0,
    ;
}

/// A number of at most `t` digits, shifted down by `s`, is below two to the
/// power of any `k` that is at least `t - s`.
pub(crate) proof fn lemma_quotient_below(m: nat, t: nat, s: nat, k: nat)
    requires
        m < pow2(t),
        t <= s + k,
    ensures
        m / pow2(s) < pow2(k),
{
    lemma_pow2_adds(s, k);
    lemma_pow2_pos(s);
    if t < s + k {
        lemma_pow2_strictly_increases(t, s + k);
    }
    let p = pow2(s);
    let c = pow2(k);
    lemma_fundamental_div_mod(m as int, p as int);
    assert(m / p < c) by (nonlinear_arith)
        requires
            m < p * c,
            p > 0,
            m == p * (m / p) + m % p,
            0 <= m % p,
    ;
}

/// Dividing by two to the power of `k` takes `k` digits away.
pub(crate) proof fn lemma_bit_length_shift(m: nat, k: nat)
    requires
        m >= pow2(k),
    ensures
        bit_length(m) > k,
        bit_length(m / pow2(k)) == bit_length(m) - k,
{
    lemma_pow2_pos(k);
    lemma_bit_length_lower(m, k);
    lemma_bit_length_bounds(m);
    let t = bit_length(m);
    let pk = pow2(k);
    let c = pow2((t - 1 - k) as nat);
    lemma_quotient_below(m, t, k, (t - k) as nat);
    lemma_pow2_adds(k, (t - 1 - k) as nat);
    lemma_fundamental_div_mod(m as int, pk as int);
    assert(c <= m / pk) by (nonlinear_arith)
        requires
            pk * c <= m,
            pk > 0,
            m == pk * (m / pk) + m % pk,
            m % pk < pk,
    ;
    lemma_bit_length_unique(m / pk, (t - k) as nat);
}

} // verus!
