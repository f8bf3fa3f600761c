//! Interpolating polynomials by Lagrange's and by Newton's formula.
use vstd::prelude::*;
use crate::utils::error::InterpolationError;
use crate::binary64::format::ZERO;
use crate::binary64::format::ONE;
use crate::binary64::format::SIGN_BIT;
use crate::binary64::format::is_nan;
use crate::binary64::laws::lemma_product_one;
use crate::binary64::laws::lemma_sum_zero;
use crate::binary64::arith::difference;
use crate::binary64::arith::quotient;
use crate::binary64::arith::below_epsilon;
use crate::binary64::arith::fsub;
use crate::binary64::arith::fdiv;
use crate::binary64::arith::is_below_epsilon;
use crate::binary64::laws::lemma_difference_magnitude_symmetric;
use crate::poly::times_linear;
use crate::poly::times_linear_over;
use crate::poly::scaled;
use crate::poly::added;
use crate::poly::multiply_by_linear;
use crate::poly::multiply_by_linear_over;
use crate::poly::scale;
use crate::poly::add_coefficients;

verus! {

/// The formula by which the polynomial is built.
#[derive(Clone, Copy, Debug, PartialEq, Eq, Structural)]
pub enum PolyInterpolationMethod {
    /// A sum of basis polynomials, one for each node.
    Lagrange,
    /// A sum of products of linear factors, weighted by divided differences.
    Newton,
}

/// A polynomial by its coefficients, that of the lowest power first. There is
/// one coefficient more than the degree says; leading zeros are kept.
pub struct Polynomial {
    degree: usize,
    coefficients: Vec<u64>,
}

impl View for Polynomial {
    type V = Seq<u64>;

    /// The coefficients, that of the lowest power first.
    closed spec fn view(&self) -> Seq<u64> {
        self.coefficients@
    }
}

impl Polynomial {
    #[verifier::type_invariant]
    spec fn well_formed(self) -> bool {
        self.coefficients.len() == self.degree + 1
    }

    /// The degree that the polynomial was built for.
    pub closed spec fn spec_degree(&self) -> nat {
        self.degree as nat
    }

    /// The degree: one less than the number of coefficients.
    pub fn degree(&self) -> (d: usize)
        ensures
            d == self.spec_degree(),
            d + 1 == self@.len(),
    {
        proof {
            use_type_invariant(self);
        }
        self.degree
    }

    /// The coefficients, that of the lowest power first.
    pub fn coefficients(&self) -> (c: &Vec<u64>)
        ensures
            c@ == self@,
            c.len() == self.spec_degree() + 1,
    {
        proof {
            use_type_invariant(self);
        }
        &self.coefficients
    }
}

/// Whether two nodes are too close to divide by their difference: its
/// magnitude is less than the distance from one to the next larger value.
pub open spec fn coincide(a: u64, b: u64) -> bool {
    below_epsilon(difference(a, b))
}

/// Whether two of the nodes coincide.
pub open spec fn has_coinciding_nodes(x: Seq<u64>) -> bool {
    exists|i: int, j: int| 0 <= i < x.len() && 0 <= j < x.len() && i != j && coincide(x[i], x[j])
}

/// The basis polynomial of node `i` after the factors of the first `j` nodes:
/// each node but `i` itself brings its linear factor, divided by the distance
/// from node `i` to it.
pub open spec fn lagrange_basis(x: Seq<u64>, i: int, j: nat) -> Seq<u64>
    decreases j,
{
    if j == 0 {
        seq![ONE]
    } else if j - 1 == i {
        lagrange_basis(x, i, (j - 1) as nat)
    } else {
        times_linear_over(
            lagrange_basis(x, i, (j - 1) as nat),
            x[j - 1],
            difference(x[i], x[j - 1]),
        )
    }
}

/// The sum of the first `i` basis polynomials, each scaled by its ordinate,
/// on top of as many zeros as there are nodes.
pub open spec fn lagrange_sum(x: Seq<u64>, y: Seq<u64>, i: nat) -> Seq<u64>
    decreases i,
{
    if i == 0 {
        Seq::new(x.len(), |k: int| ZERO)
    } else {
        added(
            lagrange_sum(x, y, (i - 1) as nat),
            scaled(lagrange_basis(x, i - 1, x.len()), y[i - 1]),
        )
    }
}

/// The table of divided differences after the orders up to `k`: the entry `i`
/// holds the divided difference of the nodes `i - k` to `i`, or, for `i` less
/// than `k`, of the nodes 0 to `i`.
pub open spec fn divided_differences(x: Seq<u64>, y: Seq<u64>, k: nat) -> Seq<u64>
    decreases k,
{
    if k == 0 {
        y
    } else {
        let before = divided_differences(x, y, (k - 1) as nat);
        Seq::new(
            y.len(),
            |i: int|
                if i >= k {
                    quotient(difference(before[i], before[i - 1]), difference(x[i], x[i - k]))
                } else {
                    before[i]
                },
        )
    }
}

/// The product of the linear factors of the first `i` nodes.
pub open spec fn newton_basis(x: Seq<u64>, i: nat) -> Seq<u64>
    decreases i,
{
    if i == 0 {
        seq![ONE]
    } else {
        times_linear(newton_basis(x, (i - 1) as nat), x[i - 1])
    }
}

/// Newton's form up to the term `i`: the first divided difference, and for
/// each later one the product of the factors of the nodes before it, scaled
/// by it.
pub open spec fn newton_sum(x: Seq<u64>, d: Seq<u64>, i: nat) -> Seq<u64>
    decreases i,
{
    if i == 0 {
        seq![d[0]]
    } else {
        added(newton_sum(x, d, (i - 1) as nat), scaled(newton_basis(x, i), d[i as int]))
    }
}

/// What `interpolate` returns: the coefficients, or the reason for none.
/// Without any node the result is the zero polynomial.
pub open spec fn interpolation(x: Seq<u64>, y: Seq<u64>, method: PolyInterpolationMethod) -> Result<
    Seq<u64>,
    InterpolationError,
> {
    if x.len() != y.len() {
        Err(InterpolationError::UnequalArrayLengths)
    } else if x.len() == 0 {
        Ok(seq![ZERO])
    } else if has_coinciding_nodes(x) {
        Err(InterpolationError::DuplicateValues)
    } else {
        match method {
            PolyInterpolationMethod::Lagrange => Ok(lagrange_sum(x, y, x.len())),
            PolyInterpolationMethod::Newton => Ok(
                newton_sum(
                    x,
                    divided_differences(x, y, (x.len() - 1) as nat),
                    (x.len() - 1) as nat,
                ),
            ),
        }
    }
}

/// As many positive zeros as asked for.
fn zeros(n: usize) -> (r: Vec<u64>)
    ensures
        r@ == Seq::new(n as nat, |k: int| ZERO),
{
    let mut r: Vec<u64> = Vec::new();
    let mut k: usize = 0;
    while k < n
        invariant
            k <= n,
            r.len() == k,
            forall|t: int| 0 <= t < k ==> r[t] == ZERO,
        decreases n - k,
    {
        r.push(ZERO);
        k = k + 1;
    }
    assert(r@ =~= Seq::new(n as nat, |k: int| ZERO));
    r
}

/// The number of coefficients of the basis polynomial of node `i` after the
/// first `j` nodes: one, and one more for each factor.
pub open spec fn lagrange_basis_len(i: int, j: nat) -> nat {
    if i < j {
        j
    } else {
        j + 1
    }
}

/// A basis polynomial has one coefficient, and one more for each factor.
pub proof fn lemma_lagrange_basis_len(x: Seq<u64>, i: int, j: nat)
    requires
        0 <= i,
    ensures
        lagrange_basis(x, i, j).len() == lagrange_basis_len(i, j),
    decreases j,
{
    if j > 0 {
        lemma_lagrange_basis_len(x, i, (j - 1) as nat);
    }
}

/// The sum of basis polynomials has as many coefficients as there are nodes.
pub proof fn lemma_lagrange_sum_len(x: Seq<u64>, y: Seq<u64>, i: nat)
    requires
        i <= x.len(),
    ensures
        lagrange_sum(x, y, i).len() == x.len(),
    decreases i,
{
    if i > 0 {
        lemma_lagrange_sum_len(x, y, (i - 1) as nat);
        lemma_lagrange_basis_len(x, i - 1, x.len());
    }
}

/// Newton's form up to the term `i` has `i + 1` coefficients, and so has the
/// product of the first `i` linear factors.
pub proof fn lemma_newton_sum_len(x: Seq<u64>, d: Seq<u64>, i: nat)
    ensures
        newton_basis(x, i).len() == i + 1,
        newton_sum(x, d, i).len() == i + 1,
    decreases i,
{
    if i > 0 {
        lemma_newton_sum_len(x, d, (i - 1) as nat);
    }
}

/// For one node or more, no two of which coincide, and as many values, either
/// formula gives a polynomial with one coefficient for each node.
pub proof fn lemma_interpolation_shape(x: Seq<u64>, y: Seq<u64>, method: PolyInterpolationMethod)
    requires
        x.len() == y.len(),
        x.len() >= 1,
        !has_coinciding_nodes(x),
    ensures
        match interpolation(x, y, method) {
            Ok(c) => c.len() == x.len(),
            Err(_) => false,
        },
{
    lemma_lagrange_sum_len(x, y, x.len());
    lemma_newton_sum_len(x, divided_differences(x, y, (x.len() - 1) as nat), (x.len() - 1) as nat);
}

/// A single point gives the constant polynomial of its value. Lagrange's
/// formula multiplies the value by one and adds it to zero, which changes a
/// negative zero, and the payload of a value that is not a number.
pub proof fn lemma_single_point(x0: u64, y0: u64, method: PolyInterpolationMethod)
    requires
        method == PolyInterpolationMethod::Lagrange ==> !is_nan(y0) && y0 != SIGN_BIT,
    ensures
        interpolation(seq![x0], seq![y0], method) == Ok::<Seq<u64>, InterpolationError>(seq![y0]),
{
    let x = seq![x0];
    let y = seq![y0];
    assert(!has_coinciding_nodes(x));
    match method {
        PolyInterpolationMethod::Lagrange => {
            lemma_product_one(y0);
            lemma_sum_zero(y0);
            assert(lagrange_basis(x, 0, 0) =~= seq![ONE]);
            assert(lagrange_basis(x, 0, 1) == lagrange_basis(x, 0, 0));
            assert(scaled(seq![ONE], y0) =~= seq![y0]);
            assert(lagrange_sum(x, y, 0) =~= seq![ZERO]);
            assert(added(seq![ZERO], seq![y0]) =~= seq![y0]);
            assert(lagrange_sum(x, y, 1) == added(
                lagrange_sum(x, y, 0),
                scaled(lagrange_basis(x, 0, 1), y[0]),
            ));
        },
        PolyInterpolationMethod::Newton => {
            assert(divided_differences(x, y, 0) == y);
            assert(newton_sum(x, y, 0) =~= seq![y0]);
        },
    }
}

/// Both formulas refuse the same nodes, whatever the values.
pub proof fn lemma_methods_fail_alike(x: Seq<u64>, y: Seq<u64>)
    ensures
        interpolation(x, y, PolyInterpolationMethod::Lagrange).is_err() == interpolation(
            x,
            y,
            PolyInterpolationMethod::Newton,
        ).is_err(),
{
}

/// Lagrange's formula: the sum of the basis polynomials of the nodes, each
/// scaled by the value at its node.
fn lagrange_interpolation(x: &Vec<u64>, y: &Vec<u64>) -> (r: Result<
    Polynomial,
    InterpolationError,
>)
    requires
        x.len() == y.len(),
        x.len() >= 1,
    ensures
        match r {
            Ok(p) => !has_coinciding_nodes(x@) && p@ == lagrange_sum(x@, y@, x@.len())
                && p.spec_degree() == x.len() - 1 && p@.len() == x.len(),
            Err(e) => has_coinciding_nodes(x@) && e == InterpolationError::DuplicateValues,
        },
{
    let n: usize = x.len();
    let mut total: Vec<u64> = zeros(n);
    let mut i: usize = 0;
    while i < n
        invariant
            n == x.len(),
            n == y.len(),
            i <= n,
            total.len() == n,
            total@ == lagrange_sum(x@, y@, i as nat),
            forall|a: int, b: int| 0 <= a < i && 0 <= b < n && a != b ==> !coincide(x@[a], x@[b]),
        decreases n - i,
    {
        let mut term: Vec<u64> = Vec::new();
        term.push(ONE);
        assert(term@ =~= seq![ONE]);
        let mut j: usize = 0;
        while j < n
            invariant
                n == x.len(),
                i < n,
                j <= n,
                term.len() == lagrange_basis_len(i as int, j as nat),
                term@ == lagrange_basis(x@, i as int, j as nat),
                forall|b: int| 0 <= b < j && b != i ==> !coincide(x@[i as int], x@[b]),
            decreases n - j,
        {
            if j != i {
                let divisor: u64 = fsub(x[i], x[j]);
                if is_below_epsilon(divisor) {
                    assert(coincide(x@[i as int], x@[j as int]));
                    return Err(InterpolationError::DuplicateValues);
                }
                term = multiply_by_linear_over(&term, x[j], divisor);
            }
            j = j + 1;
        }
        let weighted: Vec<u64> = scale(&term, y[i]);
        total = add_coefficients(&total, &weighted);
        i = i + 1;
    }
    Ok(Polynomial { degree: n - 1, coefficients: total })
}

/// Newton's formula: the table of divided differences, filled in place order
/// by order from the last entry down, then the sum of the products of linear
/// factors that the differences weigh.
fn newton_interpolation(x: &Vec<u64>, y: &Vec<u64>) -> (r: Result<Polynomial, InterpolationError>)
    requires
        x.len() == y.len(),
        x.len() >= 1,
    ensures
        match r {
            Ok(p) => !has_coinciding_nodes(x@) && p@ == newton_sum(
                x@,
                divided_differences(x@, y@, (x@.len() - 1) as nat),
                (x@.len() - 1) as nat,
            ) && p.spec_degree() == x.len() - 1 && p@.len() == x.len(),
            Err(e) => has_coinciding_nodes(x@) && e == InterpolationError::DuplicateValues,
        },
{
    let n: usize = x.len();
    let mut d: Vec<u64> = Vec::new();
    let mut c: usize = 0;
    while c < n
        invariant
            n == y.len(),
            c <= n,
            d.len() == c,
            forall|t: int| 0 <= t < c ==> d[t] == y@[t],
        decreases n - c,
    {
        d.push(y[c]);
        c = c + 1;
    }
    assert(d@ =~= y@);
    let mut k: usize = 1;
    while k < n
        invariant
            n == x.len(),
            n == y.len(),
            1 <= k <= n,
            d.len() == n,
            d@ == divided_differences(x@, y@, (k - 1) as nat),
            forall|a: int, b: int| 0 <= b < a < n && a - b < k ==> !coincide(x@[a], x@[b]),
        decreases n - k,
    {
        let ghost before = d@;
        let mut i: usize = n;
        while i > k
            invariant
                n == x.len(),
                1 <= k < n,
                k <= i <= n,
                d.len() == n,
                before.len() == n,
                forall|t: int| 0 <= t < i ==> d[t] == before[t],
                forall|t: int|
                    i <= t < n ==> d[t] == quotient(
                        difference(before[t], before[t - 1]),
                        difference(x@[t], x@[t - k]),
                    ),
                forall|a: int| i <= a < n ==> !coincide(#[trigger] x@[a], x@[a - k]),
            decreases i,
        {
            i = i - 1;
            let divisor: u64 = fsub(x[i], x[i - k]);
            if is_below_epsilon(divisor) {
                assert(coincide(x@[i as int], x@[i - k]));
                return Err(InterpolationError::DuplicateValues);
            }
            let next: u64 = fdiv(fsub(d[i], d[i - 1]), divisor);
            d.set(i, next);
        }
        assert(d@ =~= divided_differences(x@, y@, k as nat));
        k = k + 1;
    }
    proof {
        assert forall|a: int, b: int| 0 <= a < n && 0 <= b < n && a != b implies !coincide(
            x@[a],
            x@[b],
        ) by {
            if a < b {
                lemma_difference_magnitude_symmetric(x@[a], x@[b]);
                assert(!coincide(x@[b], x@[a]));
            }
        }
    }
    let mut result: Vec<u64> = Vec::new();
    result.push(d[0]);
    assert(result@ =~= seq![d@[0]]);
    let mut basis: Vec<u64> = Vec::new();
    basis.push(ONE);
    assert(basis@ =~= seq![ONE]);
    let mut i: usize = 1;
    while i < n
        invariant
            n == x.len(),
            d.len() == n,
            1 <= i <= n,
            basis.len() == i,
            result.len() == i,
            basis@ == newton_basis(x@, (i - 1) as nat),
            result@ == newton_sum(x@, d@, (i - 1) as nat),
        decreases n - i,
    {
        basis = multiply_by_linear(&basis, x[i - 1]);
        let weighted: Vec<u64> = scale(&basis, d[i]);
        result = add_coefficients(&result, &weighted);
        i = i + 1;
    }
    Ok(Polynomial { degree: n - 1, coefficients: result })
}

/// The coefficients of the interpolating polynomial of the points
/// `(x[i], y[i])`, of degree one less than their number, built by the chosen
/// formula. Nodes, values and coefficients are IEEE-754 binary64 patterns and
/// every step of the formula is rounded, so the result is the one that
/// `interpolation` names, not the polynomial of exact arithmetic.
///
/// Sequences of different length are refused before anything else. Two nodes
/// whose difference is less than `EPSILON` in magnitude are refused by either
/// formula. Without any node the result is the zero polynomial.
pub fn interpolate(x: Vec<u64>, y: Vec<u64>, method: PolyInterpolationMethod) -> (r: Result<
    Polynomial,
    InterpolationError,
>)
    ensures
        match r {
            Ok(p) => interpolation(x@, y@, method) == Ok::<Seq<u64>, InterpolationError>(p@)
                && p@.len() == p.spec_degree() + 1,
            Err(e) => interpolation(x@, y@, method) == Err::<Seq<u64>, InterpolationError>(e),
        },
        x.len() == y.len() && x.len() >= 1 && !has_coinciding_nodes(x@) ==> match r {
            Ok(p) => p.spec_degree() == x.len() - 1 && p@.len() == x.len(),
            Err(_) => false,
        },
{
    if x.len() != y.len() {
        return Err(InterpolationError::UnequalArrayLengths);
    }
    if x.len() == 0 {
        let mut coefficients: Vec<u64> = Vec::new();
        coefficients.push(ZERO);
        assert(coefficients@ =~= seq![ZERO]);
        return Ok(Polynomial { degree: 0, coefficients });
    }
    match method {
        PolyInterpolationMethod::Lagrange => lagrange_interpolation(&x, &y),
        PolyInterpolationMethod::Newton => newton_interpolation(&x, &y),
    }
}

} // verus!
