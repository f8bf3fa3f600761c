//! Sum, difference, product and quotient of two patterns, each the exact
//! result rounded once, and the functions that compute them.
use vstd::prelude::*;
use vstd::arithmetic::power2::pow2;
use vstd::arithmetic::power2::lemma_pow2_adds;
use vstd::arithmetic::power2::lemma_pow2_strictly_increases;
use vstd::arithmetic::power2::lemma2_to64;
use vstd::arithmetic::power2::lemma2_to64_rest;
use vstd::arithmetic::div_mod::lemma_fundamental_div_mod_converse;
use crate::binary64::format::SIGN_BIT;
use crate::binary64::format::INFINITY;
use crate::binary64::format::NAN;
use crate::binary64::format::ZERO;
use crate::binary64::format::EPSILON;
use crate::binary64::format::HIDDEN_BIT;
use crate::binary64::format::magnitude;
use crate::binary64::format::is_negative;
use crate::binary64::format::is_nan;
use crate::binary64::format::is_infinite;
use crate::binary64::format::is_finite;
use crate::binary64::format::is_zero;
use crate::binary64::format::negated;
use crate::binary64::format::with_sign;
use crate::binary64::format::significand;
use crate::binary64::format::exponent;
use crate::binary64::format::bit_length;
use crate::binary64::format::lemma_bit_length_bounds;
use crate::binary64::format::lemma_bit_length_upper;
use crate::binary64::format::lemma_bit_length_lower;
use crate::binary64::format::lemma_pow2_values;
use crate::binary64::format::lemma_scaled_below;
use crate::binary64::rounding::round_magnitude;
use crate::binary64::rounding::lemma_round_truncate;
use crate::binary64::rounding::power_of_two;
use crate::binary64::rounding::count_bits;
use crate::binary64::rounding::round_pack;

verus! {

/// The magnitude of a pattern.
pub fn fabs(a: u64) -> (r: u64)
    ensures
        r == magnitude(a),
{
    if a >= SIGN_BIT {
        a - SIGN_BIT
    } else {
        a
    }
}

/// The pattern with its sign flipped.
pub fn fneg(a: u64) -> (r: u64)
    ensures
        r == negated(a),
{
    if a >= SIGN_BIT {
        a - SIGN_BIT
    } else {
        a + SIGN_BIT
    }
}

/// The pattern of the given sign and a magnitude that holds no sign bit.
fn signed(negative: bool, mag: u64) -> (r: u64)
    requires
        mag < SIGN_BIT,
    ensures
        r == with_sign(negative, mag as nat),
{
    if negative {
        mag + SIGN_BIT
    } else {
        mag
    }
}

/// Significand and exponent of a finite value.
fn unpack(a: u64) -> (r: (u64, i64))
    requires
        is_finite(a),
    ensures
        r.0 == significand(a),
        r.1 == exponent(a),
        r.0 < 0x20_0000_0000_0000,
        -1074 <= r.1 <= 971,
        r.1 > -1074 ==> r.0 >= HIDDEN_BIT,
        r.0 == 0 <==> is_zero(a),
{
    let mag: u64 = fabs(a);
    let field: u64 = mag / HIDDEN_BIT;
    let frac: u64 = mag % HIDDEN_BIT;
    if field == 0 {
        (frac, -1074)
    } else {
        (frac + HIDDEN_BIT, (field as i64) - 1075)
    }
}

/// The product of two values: the exact product of the two significands,
/// rounded once. Infinity times zero is not a number.
pub open spec fn product(a: u64, b: u64) -> u64 {
    let negative = is_negative(a) != is_negative(b);
    if is_nan(a) || is_nan(b) {
        NAN
    } else if is_infinite(a) || is_infinite(b) {
        if is_zero(a) || is_zero(b) {
            NAN
        } else {
            with_sign(negative, INFINITY as nat)
        }
    } else {
        with_sign(
            negative,
            round_magnitude(significand(a) * significand(b), false, exponent(a) + exponent(b)),
        )
    }
}

/// Multiplies two values.
pub fn fmul(a: u64, b: u64) -> (r: u64)
    ensures
        r == product(a, b),
{
    let negative: bool = (a >= SIGN_BIT) != (b >= SIGN_BIT);
    let mag_a: u64 = fabs(a);
    let mag_b: u64 = fabs(b);
    if mag_a > INFINITY || mag_b > INFINITY {
        return NAN;
    }
    if mag_a == INFINITY || mag_b == INFINITY {
        return if mag_a == 0 || mag_b == 0 {
            NAN
        } else {
            signed(negative, INFINITY)
        };
    }
    let (ma, ea) = unpack(a);
    let (mb, eb) = unpack(b);
    proof {
        lemma_pow2_values();
        assert(ma * mb < 0x20_0000_0000_0000 * 0x20_0000_0000_0000) by (nonlinear_arith)
            requires
                0 <= ma < 0x20_0000_0000_0000,
                0 <= mb < 0x20_0000_0000_0000,
        ;
    }
    round_pack(negative, (ma as u128) * (mb as u128), false, ea + eb)
}

/// How far the significand of a finite value other than zero has to be
/// shifted up to have fifty-three digits.
pub open spec fn normal_shift(a: u64) -> nat {
    (53 - bit_length(significand(a))) as nat
}

/// The significand shifted up to fifty-three digits.
pub open spec fn normal_significand(a: u64) -> nat {
    significand(a) * pow2(normal_shift(a))
}

/// The exponent that scales `normal_significand(a)`.
pub open spec fn normal_exponent(a: u64) -> int {
    exponent(a) - normal_shift(a)
}

/// The quotient of two values. Both significands are brought to fifty-three
/// digits, so that the whole part of the first, scaled by two to the power of
/// 64, over the second has at least sixty-four digits; that whole part is
/// rounded, together with the fact whether a remainder was left.
pub open spec fn quotient(a: u64, b: u64) -> u64 {
    let negative = is_negative(a) != is_negative(b);
    if is_nan(a) || is_nan(b) {
        NAN
    } else if is_infinite(a) {
        if is_infinite(b) {
            NAN
        } else {
            with_sign(negative, INFINITY as nat)
        }
    } else if is_infinite(b) {
        with_sign(negative, 0)
    } else if is_zero(b) {
        if is_zero(a) {
            NAN
        } else {
            with_sign(negative, INFINITY as nat)
        }
    } else if is_zero(a) {
        with_sign(negative, 0)
    } else {
        let n = normal_significand(a) * pow2(64);
        let d = normal_significand(b);
        with_sign(
            negative,
            round_magnitude(n / d, n % d != 0, normal_exponent(a) - normal_exponent(b) - 64),
        )
    }
}

/// Shifts a significand up to fifty-three digits.
fn normalize(m: u64, e: i64) -> (r: (u64, i64))
    requires
        0 < m < 0x20_0000_0000_0000,
        -1074 <= e <= 971,
    ensures
        r.0 == m * pow2((53 - bit_length(m as nat)) as nat),
        r.1 == e - (53 - bit_length(m as nat)),
        bit_length(m as nat) <= 53,
        HIDDEN_BIT <= r.0 < 0x20_0000_0000_0000,
{
    let t: u32 = count_bits(m as u128);
    proof {
        lemma_pow2_values();
        lemma_bit_length_upper(m as nat, 53);
        lemma_bit_length_bounds(m as nat);
        lemma_scaled_below(m as nat, t as nat, (53 - t) as nat, 53);
        lemma_pow2_adds((t - 1) as nat, (53 - t) as nat);
        let low = pow2((t - 1) as nat);
        let p = pow2((53 - t) as nat);
        assert(low * p <= m * p) by (nonlinear_arith)
            requires
                low <= m,
                p >= 0,
        ;
    }
    let p: u128 = power_of_two(53 - t);
    (((m as u128) * p) as u64, e - ((53 - t) as i64))
}

/// Divides the first value by the second.
pub fn fdiv(a: u64, b: u64) -> (r: u64)
    ensures
        r == quotient(a, b),
{
    let negative: bool = (a >= SIGN_BIT) != (b >= SIGN_BIT);
    let mag_a: u64 = fabs(a);
    let mag_b: u64 = fabs(b);
    if mag_a > INFINITY || mag_b > INFINITY {
        return NAN;
    }
    if mag_a == INFINITY {
        return if mag_b == INFINITY {
            NAN
        } else {
            signed(negative, INFINITY)
        };
    }
    if mag_b == INFINITY {
        return signed(negative, 0);
    }
    if mag_b == 0 {
        return if mag_a == 0 {
            NAN
        } else {
            signed(negative, INFINITY)
        };
    }
    if mag_a == 0 {
        return signed(negative, 0);
    }
    let (ma, ea) = unpack(a);
    let (mb, eb) = unpack(b);
    let (na, nea) = normalize(ma, ea);
    let (nb, neb) = normalize(mb, eb);
    let n: u128 = (na as u128) * 0x1_0000_0000_0000_0000;
    let d: u128 = nb as u128;
    let q: u128 = n / d;
    let rem: u128 = n % d;
    proof {
        lemma_pow2_values();
        assert(n / d <= n) by (nonlinear_arith)
            requires
                d >= 1,
                n >= 0,
        ;
    }
    round_pack(negative, q, rem != 0, nea - neb - 64)
}

/// A significand with its sign.
pub open spec fn signed_int(negative: bool, m: nat) -> int {
    if negative {
        -(m as int)
    } else {
        m as int
    }
}

/// The sum of two finite values given by sign, significand and exponent: the
/// exact sum, taken at the smaller of the two exponents, rounded once. A sum
/// of zero is negative only where both terms are.
pub open spec fn sum_of_parts(na: bool, ma: nat, ea: int, nb: bool, mb: nat, eb: int) -> u64 {
    let e = if ea <= eb {
        ea
    } else {
        eb
    };
    let s = signed_int(na, ma) * pow2((ea - e) as nat) + signed_int(nb, mb) * pow2(
        (eb - e) as nat,
    );
    if s == 0 {
        with_sign(na && nb, 0)
    } else if s < 0 {
        with_sign(true, round_magnitude((-s) as nat, false, e))
    } else {
        with_sign(false, round_magnitude(s as nat, false, e))
    }
}

/// The sum of two values. Infinity plus the opposite infinity is not a number.
pub open spec fn sum(a: u64, b: u64) -> u64 {
    if is_nan(a) || is_nan(b) {
        NAN
    } else if is_infinite(a) {
        if is_infinite(b) && is_negative(a) != is_negative(b) {
            NAN
        } else {
            a
        }
    } else if is_infinite(b) {
        b
    } else {
        sum_of_parts(
            is_negative(a),
            significand(a),
            exponent(a),
            is_negative(b),
            significand(b),
            exponent(b),
        )
    }
}

/// The first value minus the second: the sum of the first and the negated second.
pub open spec fn difference(a: u64, b: u64) -> u64 {
    sum(a, negated(b))
}

/// Adds two finite values of which the first has the larger exponent.
fn add_ordered(na: bool, ma: u64, ea: i64, nb: bool, mb: u64, eb: i64) -> (r: u64)
    requires
        -1074 <= eb <= ea <= 971,
        ma < 0x20_0000_0000_0000,
        mb < 0x20_0000_0000_0000,
        ea > -1074 ==> ma >= HIDDEN_BIT,
    ensures
        r == sum_of_parts(na, ma as nat, ea as int, nb, mb as nat, eb as int),
{
    let d: i64 = ea - eb;
    proof {
        lemma_pow2_values();
        lemma2_to64();
        lemma2_to64_rest();
    }
    let ghost p = pow2(d as nat);
    let ghost s = signed_int(na, ma as nat) * p + signed_int(nb, mb as nat) * pow2(0);
    proof {
        assert(signed_int(nb, mb as nat) * pow2(0) == signed_int(nb, mb as nat))
            by (nonlinear_arith)
            requires
                pow2(0) == 1,
        ;
    }
    if d <= 64 {
        proof {
            lemma_scaled_below(ma as nat, 53, d as nat, 117);
            lemma_pow2_adds(64, 53);
            lemma_pow2_strictly_increases(117, 120);
        }
        let big: u128 = (ma as u128) * power_of_two(d as u32);
        let small: u128 = mb as u128;
        proof {
            assert(signed_int(na, ma as nat) * p == if na {
                -(big as int)
            } else {
                big as int
            }) by (nonlinear_arith)
                requires
                    big == ma * p,
                    signed_int(na, ma as nat) == if na {
                        -(ma as int)
                    } else {
                        ma as int
                    },
            ;
        }
        assert(s == signed_int(na, big as nat) + signed_int(nb, small as nat));
        if na == nb {
            round_pack(na, big + small, false, eb)
        } else if big > small {
            round_pack(na, big - small, false, eb)
        } else if big < small {
            round_pack(nb, small - big, false, eb)
        } else {
            ZERO
        }
    } else {
        let ghost k = pow2((d - 2) as nat);
        let ghost m: nat = if s < 0 {
            (-s) as nat
        } else {
            s as nat
        };
        let ghost low: int = if na == nb || mb == 0 {
            mb as int
        } else {
            k - mb
        };
        let top: u128 = if na == nb || mb == 0 {
            4 * (ma as u128)
        } else {
            4 * (ma as u128) - 1
        };
        proof {
            lemma_pow2_adds(2, (d - 2) as nat);
            lemma_pow2_adds(51, d as nat);
            lemma_pow2_strictly_increases(53, (d - 2) as nat);
            assert(p == 4 * k);
            assert(m == top * k + low && m >= pow2(51) * p) by (nonlinear_arith)
                requires
                    p == 4 * k,
                    k > mb,
                    ma >= 0x10_0000_0000_0000,
                    mb < 0x20_0000_0000_0000,
                    pow2(51) == 0x8_0000_0000_0000,
                    s == signed_int(na, ma as nat) * p + signed_int(nb, mb as nat),
                    signed_int(na, ma as nat) == if na {
                        -(ma as int)
                    } else {
                        ma as int
                    },
                    signed_int(nb, mb as nat) == if nb {
                        -(mb as int)
                    } else {
                        mb as int
                    },
                    m == if s < 0 {
                        -s
                    } else {
                        s
                    },
                    top == if na == nb || mb == 0 {
                        4 * ma
                    } else {
                        4 * ma - 1
                    },
                    low == if na == nb || mb == 0 {
                        mb as int
                    } else {
                        k - mb
                    },
            ;
            assert((s < 0) == na && s != 0) by (nonlinear_arith)
                requires
                    p > mb,
                    ma >= 1,
                    mb >= 0,
                    s == signed_int(na, ma as nat) * p + signed_int(nb, mb as nat),
                    signed_int(na, ma as nat) == if na {
                        -(ma as int)
                    } else {
                        ma as int
                    },
                    signed_int(nb, mb as nat) == if nb {
                        -(mb as int)
                    } else {
                        mb as int
                    },
            ;
            lemma_fundamental_div_mod_converse(m as int, k as int, top as int, low);
            lemma_bit_length_lower(m, (51 + d) as nat);
            lemma_round_truncate(m, false, eb as int, (d - 2) as nat);
        }
        assert(m / k == top && m % k == low);
        round_pack(na, top, mb != 0, ea - 2)
    }
}

/// Adds two values.
pub fn fadd(a: u64, b: u64) -> (r: u64)
    ensures
        r == sum(a, b),
{
    let mag_a: u64 = fabs(a);
    let mag_b: u64 = fabs(b);
    if mag_a > INFINITY || mag_b > INFINITY {
        return NAN;
    }
    if mag_a == INFINITY {
        return if mag_b == INFINITY && (a >= SIGN_BIT) != (b >= SIGN_BIT) {
            NAN
        } else {
            a
        };
    }
    if mag_b == INFINITY {
        return b;
    }
    let (ma, ea) = unpack(a);
    let (mb, eb) = unpack(b);
    if ea >= eb {
        add_ordered(a >= SIGN_BIT, ma, ea, b >= SIGN_BIT, mb, eb)
    } else {
        add_ordered(b >= SIGN_BIT, mb, eb, a >= SIGN_BIT, ma, ea)
    }
}

/// Subtracts the second value from the first.
pub fn fsub(a: u64, b: u64) -> (r: u64)
    ensures
        r == difference(a, b),
{
    fadd(a, fneg(b))
}

/// Whether the magnitude of a value is less than `EPSILON`. No NaN is.
pub open spec fn below_epsilon(a: u64) -> bool {
    magnitude(a) < EPSILON
}

/// Tests whether the magnitude of a value is less than `EPSILON`.
pub fn is_below_epsilon(a: u64) -> (r: bool)
    ensures
        r == below_epsilon(a),
{
    fabs(a) < EPSILON
}


} // verus!
