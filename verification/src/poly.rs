//! Dense polynomials: a sequence of coefficients, that of the lowest power
//! first, each an IEEE-754 binary64 pattern.
use vstd::prelude::*;
use crate::binary64::format::ZERO;
use crate::binary64::arith::sum;
use crate::binary64::arith::difference;
use crate::binary64::arith::product;
use crate::binary64::arith::quotient;
use crate::binary64::arith::fadd;
use crate::binary64::arith::fsub;
use crate::binary64::arith::fmul;
use crate::binary64::arith::fdiv;

verus! {

/// The coefficient of the power `k`: positive zero beyond either end.
pub open spec fn coefficient(c: Seq<u64>, k: int) -> u64 {
    if 0 <= k < c.len() {
        c[k]
    } else {
        ZERO
    }
}

/// The coefficient of the power `k` in the product of `c` and the linear
/// factor with the given root: what the power below brings, minus the root
/// times what the power itself brings.
pub open spec fn linear_step(c: Seq<u64>, root: u64, k: int) -> u64 {
    difference(coefficient(c, k - 1), product(root, coefficient(c, k)))
}

/// The polynomial `c` times the linear factor whose root is `root`.
pub open spec fn times_linear(c: Seq<u64>, root: u64) -> Seq<u64> {
    Seq::new(c.len() + 1, |k: int| linear_step(c, root, k))
}

/// The polynomial `c` times the linear factor whose root is `root`, each
/// coefficient divided by `divisor` as soon as it is formed.
pub open spec fn times_linear_over(c: Seq<u64>, root: u64, divisor: u64) -> Seq<u64> {
    Seq::new(c.len() + 1, |k: int| quotient(linear_step(c, root, k), divisor))
}

/// Every coefficient of `c` times `factor`.
pub open spec fn scaled(c: Seq<u64>, factor: u64) -> Seq<u64> {
    Seq::new(c.len(), |k: int| product(c[k], factor))
}

/// The sum of two polynomials, as long as the longer of the two.
pub open spec fn added(a: Seq<u64>, b: Seq<u64>) -> Seq<u64> {
    Seq::new(
        if a.len() >= b.len() {
            a.len()
        } else {
            b.len()
        },
        |k: int| sum(coefficient(a, k), coefficient(b, k)),
    )
}

/// Computes one coefficient of a product with a linear factor.
fn linear_step_at(c: &Vec<u64>, root: u64, k: usize) -> (r: u64)
    ensures
        r == linear_step(c@, root, k as int),
{
    let below: u64 = if 0 < k && k - 1 < c.len() {
        c[k - 1]
    } else {
        ZERO
    };
    let here: u64 = if k < c.len() {
        c[k]
    } else {
        ZERO
    };
    fsub(below, fmul(root, here))
}

/// Multiplies a polynomial by the linear factor whose root is `root`.
pub fn multiply_by_linear(c: &Vec<u64>, root: u64) -> (r: Vec<u64>)
    requires
        c.len() < usize::MAX,
    ensures
        r@ == times_linear(c@, root),
{
    let m: usize = c.len();
    let mut r: Vec<u64> = Vec::new();
    let mut k: usize = 0;
    while k <= m
        invariant
            m == c.len(),
            m < usize::MAX,
            k <= m + 1,
            r.len() == k,
            forall|t: int| 0 <= t < k ==> r[t] == linear_step(c@, root, t),
        decreases m + 1 - k,
    {
        r.push(linear_step_at(c, root, k));
        k = k + 1;
    }
    assert(r@ =~= times_linear(c@, root));
    r
}

/// Multiplies a polynomial by the linear factor whose root is `root` and
/// divides each new coefficient by `divisor`, in one pass.
pub fn multiply_by_linear_over(c: &Vec<u64>, root: u64, divisor: u64) -> (r: Vec<u64>)
    requires
        c.len() < usize::MAX,
    ensures
        r@ == times_linear_over(c@, root, divisor),
{
    let m: usize = c.len();
    let mut r: Vec<u64> = Vec::new();
    let mut k: usize = 0;
    while k <= m
        invariant
            m == c.len(),
            m < usize::MAX,
            k <= m + 1,
            r.len() == k,
            forall|t: int| 0 <= t < k ==> r[t] == quotient(linear_step(c@, root, t), divisor),
        decreases m + 1 - k,
    {
        r.push(fdiv(linear_step_at(c, root, k), divisor));
        k = k + 1;
    }
    assert(r@ =~= times_linear_over(c@, root, divisor));
    r
}

/// Multiplies every coefficient by `factor`.
pub fn scale(c: &Vec<u64>, factor: u64) -> (r: Vec<u64>)
    ensures
        r@ == scaled(c@, factor),
{
    let m: usize = c.len();
    let mut r: Vec<u64> = Vec::new();
    let mut k: usize = 0;
    while k < m
        invariant
            m == c.len(),
            k <= m,
            r.len() == k,
            forall|t: int| 0 <= t < k ==> r[t] == product(c@[t], factor),
        decreases m - k,
    {
        r.push(fmul(c[k], factor));
        k = k + 1;
    }
    assert(r@ =~= scaled(c@, factor));
    r
}

/// Adds two polynomials coefficient by coefficient; the shorter one counts
/// as continued with positive zeros.
pub fn add_coefficients(a: &Vec<u64>, b: &Vec<u64>) -> (r: Vec<u64>)
    ensures
        r@ == added(a@, b@),
{
    let m: usize = if a.len() >= b.len() {
        a.len()
    } else {
        b.len()
    };
    let mut r: Vec<u64> = Vec::new();
    let mut k: usize = 0;
    while k < m
        invariant
            m == if a.len() >= b.len() {
                a.len()
            } else {
                b.len()
            },
            k <= m,
            r.len() == k,
            forall|t: int| 0 <= t < k ==> r[t] == sum(coefficient(a@, t), coefficient(b@, t)),
        decreases m - k,
    {
        let left: u64 = if k < a.len() {
            a[k]
        } else {
            ZERO
        };
        let right: u64 = if k < b.len() {
            b[k]
        } else {
            ZERO
        };
        r.push(fadd(left, right));
        k = k + 1;
    }
    assert(r@ =~= added(a@, b@));
    r
}

} // verus!
