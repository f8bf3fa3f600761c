//! Rounding to the nearest binary64 value, ties to even.
//!
//! The spec functions say which pattern is nearest to an exact value given as
//! an integer times a power of two; `round_pack` computes it.
use vstd::prelude::*;
use vstd::arithmetic::power2::pow2;
use vstd::arithmetic::power2::lemma_pow2_pos;
use vstd::arithmetic::power2::lemma_pow2_unfold;
use vstd::arithmetic::power2::lemma_pow2_adds;
use vstd::arithmetic::power2::lemma_pow2_strictly_increases;
use vstd::arithmetic::power2::lemma2_to64;
use vstd::arithmetic::div_mod::lemma_small_mod;
use vstd::arithmetic::div_mod::lemma_basic_div;
use vstd::arithmetic::div_mod::lemma_div_denominator;
use vstd::arithmetic::div_mod::lemma_mod_breakdown;
use vstd::arithmetic::div_mod::lemma_fundamental_div_mod;
use vstd::arithmetic::div_mod::lemma_fundamental_div_mod_converse;
use vstd::arithmetic::div_mod::lemma_mod_pos_bound;
use crate::binary64::format::SIGN_BIT;
use crate::binary64::format::INFINITY;
use crate::binary64::format::HIDDEN_BIT;
use crate::binary64::format::magnitude;
use crate::binary64::format::is_finite;
use crate::binary64::format::with_sign;
use crate::binary64::format::biased_exponent;
use crate::binary64::format::significand;
use crate::binary64::format::exponent;
use crate::binary64::format::bit_length;
use crate::binary64::format::lemma_bit_length_bounds;
use crate::binary64::format::lemma_bit_length_unique;
use crate::binary64::format::lemma_bit_length_upper;
use crate::binary64::format::lemma_pow2_values;
use crate::binary64::format::lemma_scaled_below;
use crate::binary64::format::lemma_quotient_below;
use crate::binary64::format::lemma_bit_length_shift;

verus! {

/// The exponent of the last place that a value of `m` times two to the power
/// of `e` keeps when it is rounded: fifty-three digits are kept, but no place
/// below that of the smallest subnormal.
pub open spec fn ulp_exponent(m: nat, e: int) -> int {
    let g = e + bit_length(m) - 53;
    if g < -1074 {
        -1074
    } else {
        g
    }
}

/// The number of units of two to the power of `s` that is nearest to a value
/// `v`, a tie going to the even number. `v` is at least `m` and less than
/// `m + 1`, and equal to `m` unless `inexact`. For an `s` of zero or less the
/// result is `m` in those smaller units, which is exact; `inexact` is meant
/// for a positive `s` only, where the part of `v` that `m` leaves out lies
/// below the half unit.
pub open spec fn round_shift(m: nat, inexact: bool, s: int) -> nat {
    if s <= 0 {
        m * pow2((-s) as nat)
    } else {
        let q = m / pow2(s as nat);
        let r = m % pow2(s as nat);
        let h = pow2((s - 1) as nat);
        if r > h || (r == h && (inexact || q % 2 == 1)) {
            q + 1
        } else {
            q
        }
    }
}

/// The magnitude of the binary64 value nearest to `v` times two to the power
/// of `e`, where `v` is at least `m` and less than `m + 1`, and equal to `m`
/// unless `inexact`. A tie goes to the even significand; what would pass the
/// largest finite value becomes infinity. An `m` of zero gives zero.
///
/// `inexact` is meant for an `m` of fifty-five digits or more, so that the
/// last place kept lies above the part of `v` that `m` leaves out.
///
/// The rounded significand is added on top of the exponent field, so that a
/// significand that rounds up to the next power of two carries into it.
pub open spec fn round_magnitude(m: nat, inexact: bool, e: int) -> nat {
    if m == 0 {
        0
    } else {
        let g = ulp_exponent(m, e);
        let bits = (g + 1074) * HIDDEN_BIT + round_shift(m, inexact, g - e);
        if bits >= INFINITY {
            INFINITY as nat
        } else {
            bits as nat
        }
    }
}

/// Rounding to nearest, ties to even. For the ratio of `num` to `den`, given
/// to `round_shift` as its whole part and the fact whether a remainder is
/// left, the rounded number of units of two to the power of `s` is no farther
/// from the ratio than half a unit, and where it is exactly half a unit away
/// it is even. With `den` equal to one this speaks of `num` itself.
pub proof fn lemma_round_shift_nearest(num: nat, den: nat, s: int)
    requires
        den > 0,
        s > 0,
    ensures
        ({
            let n = round_shift(num / den, num % den != 0, s);
            let unit = pow2(s as nat);
            &&& 2 * (n * unit * den - num) <= unit * den
            &&& 2 * (num - n * unit * den) <= unit * den
            &&& (2 * (n * unit * den - num) == unit * den || 2 * (num - n * unit * den) == unit
                * den) ==> n % 2 == 0
        }),
{
    let unit = pow2(s as nat);
    let half = pow2((s - 1) as nat);
    let whole = num / den;
    let rest = num % den;
    let q = whole / unit;
    let r = whole % unit;
    let n = round_shift(whole, rest != 0, s);
    lemma_pow2_pos(s as nat);
    lemma_pow2_pos((s - 1) as nat);
    lemma_pow2_unfold(s as nat);
    lemma_fundamental_div_mod(num as int, den as int);
    lemma_fundamental_div_mod(whole as int, unit as int);
    lemma_mod_pos_bound(num as int, den as int);
    lemma_mod_pos_bound(whole as int, unit as int);
    let below: int = (r * den + rest) as int;
    let ud: int = (unit * den) as int;
    let hd: int = (half * den) as int;
    let base: int = q * ud;
    let rounded: int = (n * unit * den) as int;
    assert(num == base + below) by (nonlinear_arith)
        requires
            num == den * whole + rest,
            whole == unit * q + r,
            below == r * den + rest,
            ud == unit * den,
            base == q * ud,
    ;
    assert(ud == 2 * hd) by (nonlinear_arith)
        requires
            unit == 2 * half,
            ud == unit * den,
            hd == half * den,
    ;
    assert((r > half ==> r * den >= hd + den) && (r < half ==> r * den + den <= hd) && (r == half
        ==> r * den == hd)) by (nonlinear_arith)
        requires
            den > 0,
            hd == half * den,
    ;
    assert(r * den + den <= ud) by (nonlinear_arith)
        requires
            r < unit,
            den > 0,
            ud == unit * den,
    ;
    if n == q {
        assert(rounded == base) by (nonlinear_arith)
            requires
                rounded == n * unit * den,
                base == q * ud,
                ud == unit * den,
                n == q,
        ;
    } else {
        assert(rounded == base + ud) by (nonlinear_arith)
            requires
                rounded == n * unit * den,
                base == q * ud,
                ud == unit * den,
                n == q + 1,
        ;
    }
}

/// A finite value is the nearest value to itself: rounding its significand
/// at its exponent gives back its magnitude.
pub proof fn lemma_round_exact(a: u64)
    requires
        is_finite(a),
    ensures
        round_magnitude(significand(a), false, exponent(a)) == magnitude(a),
{
    lemma_pow2_values();
    lemma2_to64();
    let m = significand(a);
    if biased_exponent(a) == 0 {
        lemma_bit_length_upper(m, 52);
    } else {
        lemma_bit_length_unique(m, 53);
    }
    assert(m * pow2(0) == m) by (nonlinear_arith)
        requires
            pow2(0) == 1,
    ;
}

/// Rounding looks at the digits below the last place only to tell whether they
/// are below, at or above one half: the lowest `k` of them may be replaced by
/// the mere fact that one of them is set, as long as at least one more digit
/// stays below the last place.
pub proof fn lemma_round_truncate(m: nat, inexact: bool, e: int, k: nat)
    requires
        ulp_exponent(m, e) - e >= k + 1,
    ensures
        round_magnitude(m, inexact, e) == round_magnitude(
            m / pow2(k),
            inexact || m % pow2(k) != 0,
            e + k,
        ),
{
    let pk = pow2(k);
    lemma_pow2_pos(k);
    let m1 = m / pk;
    let x = m % pk;
    let g = ulp_exponent(m, e);
    let s = g - e;
    let s1 = s - k;
    let p1 = pow2(s1 as nat);
    let h1 = pow2((s1 - 1) as nat);
    lemma_pow2_adds(k, s1 as nat);
    lemma_pow2_adds(k, (s1 - 1) as nat);
    lemma_pow2_pos(s1 as nat);
    lemma_pow2_pos((s1 - 1) as nat);
    lemma_pow2_pos(s as nat);
    lemma_fundamental_div_mod(m as int, pk as int);
    assert(pow2(s as nat) == pk * p1);
    assert(pow2((s - 1) as nat) == pk * h1);
    if m1 == 0 {
        assert(m == x) by (nonlinear_arith)
            requires
                m == pk * m1 + x,
                m1 == 0,
        ;
        if m > 0 {
            lemma_bit_length_upper(m, k);
            assert(g == -1074);
            assert(pk * h1 >= pk) by (nonlinear_arith)
                requires
                    h1 >= 1,
                    pk > 0,
            ;
            lemma_pow2_strictly_increases((s - 1) as nat, s as nat);
            lemma_small_mod(m, pow2(s as nat));
            lemma_basic_div(m as int, pow2(s as nat) as int);
            assert(round_shift(m, inexact, s) == 0);
        }
    } else {
        assert(m >= pk) by (nonlinear_arith)
            requires
                m == pk * m1 + x,
                m1 >= 1,
                x >= 0,
                pk > 0,
        ;
        lemma_bit_length_shift(m, k);
        assert(ulp_exponent(m1, e + k) == g);
        lemma_div_denominator(m as int, pk as int, p1 as int);
        lemma_mod_breakdown(m as int, pk as int, p1 as int);
        let r1 = m1 % p1;
        let r = m % pow2(s as nat);
        let h = pow2((s - 1) as nat);
        assert(r == pk * r1 + x);
        assert((r > h) == (r1 > h1 || (r1 == h1 && x > 0)) && (r == h) == (r1 == h1 && x == 0))
            by (nonlinear_arith)
            requires
                r == pk * r1 + x,
                h == pk * h1,
                0 <= x < pk,
        ;
        assert(m / pow2(s as nat) == m1 / p1);
        assert(round_shift(m, inexact, s) == round_shift(m1, inexact || x != 0, s1));
    }
}

/// Shifting the digits up and lowering the exponent by as much leaves the
/// value, and so its rounding, as it was.
pub proof fn lemma_round_scaled(m: nat, e: int, k: nat)
    ensures
        round_magnitude(m * pow2(k), false, e - k) == round_magnitude(m, false, e),
{
    let pk = pow2(k);
    lemma_pow2_pos(k);
    let big = m * pk;
    if m == 0 {
        assert(big == 0) by (nonlinear_arith)
            requires
                big == m * pk,
                m == 0,
        ;
    } else {
        lemma_bit_length_bounds(m);
        let t = bit_length(m);
        lemma_pow2_adds((t - 1) as nat, k);
        lemma_pow2_adds(t, k);
        assert(pow2((t - 1) as nat) * pk <= big < pow2(t) * pk) by (nonlinear_arith)
            requires
                pow2((t - 1) as nat) <= m < pow2(t),
                pk > 0,
                big == m * pk,
        ;
        lemma_bit_length_unique(big, t + k);
        let g = ulp_exponent(m, e);
        let s = g - e;
        assert(ulp_exponent(big, e - k) == g);
        assert(big % pk == 0 && big / pk == m) by {
            lemma_fundamental_div_mod_converse(big as int, pk as int, m as int, 0);
        }
        if s > 0 {
            lemma_round_truncate(big, false, e - k, k);
        } else if s + k <= 0 {
            let rest = pow2((-s - k) as nat);
            lemma_pow2_adds(k, (-s - k) as nat);
            assert(big * rest == m * pow2((-s) as nat)) by (nonlinear_arith)
                requires
                    big == m * pk,
                    pow2((-s) as nat) == pk * rest,
            ;
        } else {
            let up = pow2((-s) as nat);
            let down = pow2((s + k) as nat);
            lemma_pow2_adds((-s) as nat, (s + k) as nat);
            lemma_pow2_pos((s + k) as nat);
            lemma_pow2_pos((s + k - 1) as nat);
            assert(big == (m * up) * down) by (nonlinear_arith)
                requires
                    big == m * pk,
                    pk == up * down,
            ;
            lemma_fundamental_div_mod_converse(big as int, down as int, (m * up) as int, 0);
            assert(round_shift(big, false, s + k) == m * up);
        }
    }
}

/// Two to the power of `k`.
pub(crate) fn power_of_two(k: u32) -> (r: u128)
    requires
        k <= 127,
    ensures
        r == pow2(k as nat),
{
    let mut r: u128 = 1;
    let mut i: u32 = 0;
    proof {
        lemma2_to64();
    }
    while i < k
        invariant
            i <= k <= 127,
            r == pow2(i as nat),
        decreases k - i,
    {
        proof {
            lemma_pow2_unfold((i + 1) as nat);
            lemma_pow2_values();
            if i + 1 < 127 {
                lemma_pow2_strictly_increases((i + 1) as nat, 127);
            }
        }
        r = r * 2;
        i = i + 1;
    }
    r
}

/// The number of binary digits of `m`.
pub(crate) fn count_bits(m: u128) -> (t: u32)
    ensures
        t == bit_length(m as nat),
        t <= 128,
{
    let mut t: u32 = 0;
    let mut v: u128 = m;
    proof {
        lemma2_to64();
        lemma_pow2_adds(64, 64);
        lemma_bit_length_upper(m as nat, 128);
    }
    while v > 0
        invariant
            bit_length(m as nat) == t + bit_length(v as nat),
            t + bit_length(v as nat) <= 128,
        decreases v,
    {
        v = v / 2;
        t = t + 1;
    }
    t
}

/// The pattern of sign `negative` that is nearest to the value described by
/// `m`, `inexact` and `e` as in `round_magnitude`.
pub(crate) fn round_pack(negative: bool, m: u128, inexact: bool, e: i64) -> (r: u64)
    requires
        m < pow2(120),
        -4000 <= e <= 4000,
    ensures
        r == with_sign(negative, round_magnitude(m as nat, inexact, e as int)),
{
    if m == 0 {
        return if negative {
            SIGN_BIT
        } else {
            0
        };
    }
    let t: i64 = count_bits(m) as i64;
    let g0: i64 = e + t - 53;
    let g: i64 = if g0 < -1074 {
        -1074
    } else {
        g0
    };
    let s: i64 = g - e;
    proof {
        lemma_pow2_values();
        lemma_bit_length_bounds(m as nat);
    }
    if g + 1074 >= 2047 {
        assert((g + 1074) * HIDDEN_BIT + round_shift(m as nat, inexact, s as int) >= INFINITY);
        return if negative {
            INFINITY + SIGN_BIT
        } else {
            INFINITY
        };
    }
    let n: u128 = if s <= 0 {
        proof {
            lemma_scaled_below(m as nat, t as nat, (-s) as nat, 53);
        }
        m * power_of_two((-s) as u32)
    } else if s > 120 {
        proof {
            lemma_pow2_pos(s as nat);
            if 120 < s - 1 {
                lemma_pow2_strictly_increases(120, (s - 1) as nat);
            }
            lemma_pow2_strictly_increases((s - 1) as nat, s as nat);
            lemma_small_mod(m as nat, pow2(s as nat));
            lemma_basic_div(m as int, pow2(s as nat) as int);
        }
        0
    } else {
        proof {
            lemma_quotient_below(m as nat, t as nat, s as nat, 53);
            lemma_pow2_pos(s as nat);
        }
        let p: u128 = power_of_two(s as u32);
        let h: u128 = power_of_two((s - 1) as u32);
        let q: u128 = m / p;
        let r: u128 = m % p;
        if r > h || (r == h && (inexact || q % 2 == 1)) {
            q + 1
        } else {
            q
        }
    };
    assert(n == round_shift(m as nat, inexact, s as int));
    assert(n <= pow2(53));
    let bits: u64 = ((g + 1074) as u64) * HIDDEN_BIT + (n as u64);
    let mag: u64 = if bits >= INFINITY {
        INFINITY
    } else {
        bits
    };
    if negative {
        mag + SIGN_BIT
    } else {
        mag
    }
}

} // verus!
