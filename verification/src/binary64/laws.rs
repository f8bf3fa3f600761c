//! Laws of the arithmetic: what holds of sums, differences and products
//! whatever the operands.
use vstd::prelude::*;
use vstd::arithmetic::power2::pow2;
use vstd::arithmetic::power2::lemma_pow2_pos;
use vstd::arithmetic::power2::lemma2_to64;
use crate::binary64::format::SIGN_BIT;
use crate::binary64::format::INFINITY;
use crate::binary64::format::ZERO;
use crate::binary64::format::ONE;
use crate::binary64::format::magnitude;
use crate::binary64::format::is_negative;
use crate::binary64::format::is_nan;
use crate::binary64::format::is_finite;
use crate::binary64::format::negated;
use crate::binary64::format::with_sign;
use crate::binary64::format::significand;
use crate::binary64::format::exponent;
use crate::binary64::format::lemma_pow2_values;
use crate::binary64::rounding::round_magnitude;
use crate::binary64::rounding::lemma_round_exact;
use crate::binary64::rounding::lemma_round_scaled;
use crate::binary64::arith::product;
use crate::binary64::arith::signed_int;
use crate::binary64::arith::sum_of_parts;
use crate::binary64::arith::sum;
use crate::binary64::arith::difference;
use crate::binary64::arith::below_epsilon;

verus! {

/// The order of the terms does not change a sum.
pub proof fn lemma_sum_commutes(a: u64, b: u64)
    ensures
        sum(a, b) == sum(b, a),
{
}

/// The order of the factors does not change a product.
pub proof fn lemma_product_commutes(a: u64, b: u64)
    ensures
        product(a, b) == product(b, a),
{
    assert(significand(a) * significand(b) == significand(b) * significand(a))
        by (nonlinear_arith);
}

/// One is neutral for multiplication.
pub proof fn lemma_product_one(a: u64)
    requires
        !is_nan(a),
    ensures
        product(a, ONE) == a,
        product(ONE, a) == a,
{
    lemma_product_commutes(a, ONE);
    lemma_pow2_values();
    if is_finite(a) {
        assert(significand(ONE) == pow2(52) && exponent(ONE) == -52);
        lemma_round_scaled(significand(a), exponent(a), 52);
        lemma_round_exact(a);
    }
}

/// Positive zero is neutral for addition, but for negative zero, which it
/// turns into positive zero.
pub proof fn lemma_sum_zero(a: u64)
    requires
        !is_nan(a),
        a != SIGN_BIT,
    ensures
        sum(a, ZERO) == a,
        sum(ZERO, a) == a,
{
    lemma_sum_commutes(a, ZERO);
    lemma2_to64();
    if is_finite(a) {
        let m = significand(a);
        let k = (exponent(a) + 1074) as nat;
        let pk = pow2(k);
        assert(significand(ZERO) == 0 && exponent(ZERO) == -1074);
        assert(signed_int(false, 0) * pow2(0) == 0);
        assert(signed_int(is_negative(a), m) * pk == if is_negative(a) {
            -(m * pk)
        } else {
            (m * pk) as int
        }) by (nonlinear_arith)
            requires
                signed_int(is_negative(a), m) == if is_negative(a) {
                    -(m as int)
                } else {
                    m as int
                },
        ;
        assert(m == 0 ==> m * pk == 0) by (nonlinear_arith);
        lemma_pow2_pos(k);
        assert(m > 0 ==> m * pk > 0) by (nonlinear_arith)
            requires
                pk > 0,
        ;
        lemma_round_scaled(m, exponent(a), k);
        lemma_round_exact(a);
    }
}

/// Negating both terms of a sum changes at most the sign of the sum.
proof fn lemma_sum_of_parts_negated(na: bool, ma: nat, ea: int, nb: bool, mb: nat, eb: int)
    ensures
        magnitude(sum_of_parts(!na, ma, ea, !nb, mb, eb)) == magnitude(
            sum_of_parts(na, ma, ea, nb, mb, eb),
        ),
{
    let e = if ea <= eb {
        ea
    } else {
        eb
    };
    let pa = pow2((ea - e) as nat);
    let pb = pow2((eb - e) as nat);
    let s = signed_int(na, ma) * pa + signed_int(nb, mb) * pb;
    let t = signed_int(!na, ma) * pa + signed_int(!nb, mb) * pb;
    assert(signed_int(!na, ma) * pa == -(signed_int(na, ma) * pa)) by (nonlinear_arith)
        requires
            signed_int(!na, ma) == -signed_int(na, ma),
    ;
    assert(signed_int(!nb, mb) * pb == -(signed_int(nb, mb) * pb)) by (nonlinear_arith)
        requires
            signed_int(!nb, mb) == -signed_int(nb, mb),
    ;
    assert(t == -s);
    if s != 0 {
        let m: nat = if s < 0 {
            (-s) as nat
        } else {
            s as nat
        };
        let mag = round_magnitude(m, false, e);
        assert(mag <= INFINITY);
        assert(magnitude(with_sign(true, mag)) == mag);
        assert(magnitude(with_sign(false, mag)) == mag);
    }
}

/// Negation flips the sign and keeps the magnitude.
proof fn lemma_negated(a: u64)
    ensures
        magnitude(negated(a)) == magnitude(a),
        is_negative(negated(a)) == !is_negative(a),
{
}

/// Swapping the two terms of a difference changes at most its sign: where one
/// difference is below `EPSILON`, so is the other.
pub proof fn lemma_difference_magnitude_symmetric(a: u64, b: u64)
    ensures
        below_epsilon(difference(a, b)) == below_epsilon(difference(b, a)),
{
    lemma_negated(a);
    lemma_negated(b);
    if is_finite(a) && is_finite(b) {
        let na = is_negative(a);
        let nb = is_negative(b);
        let ma = significand(a);
        let mb = significand(b);
        let ea = exponent(a);
        let eb = exponent(b);
        assert(significand(negated(a)) == ma && exponent(negated(a)) == ea);
        assert(significand(negated(b)) == mb && exponent(negated(b)) == eb);
        assert(difference(a, b) == sum_of_parts(na, ma, ea, !nb, mb, eb));
        assert(difference(b, a) == sum_of_parts(nb, mb, eb, !na, ma, ea));
        assert(sum_of_parts(nb, mb, eb, !na, ma, ea) == sum_of_parts(!na, ma, ea, nb, mb, eb));
        lemma_sum_of_parts_negated(na, ma, ea, !nb, mb, eb);
    }
}

} // verus!
