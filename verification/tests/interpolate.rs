use polyinterp::binary64::format::{ONE, ZERO};
use polyinterp::poly::{add_coefficients, multiply_by_linear, multiply_by_linear_over, scale};
use polyinterp::polynomial::{interpolate, PolyInterpolationMethod, Polynomial};
use polyinterp::utils::error::InterpolationError;

fn bits(v: &[f64]) -> Vec<u64> {
    v.iter().map(|r| r.to_bits()).collect()
}

fn reals(v: &[u64]) -> Vec<f64> {
    v.iter().map(|b| f64::from_bits(*b)).collect()
}

fn run(x: &[f64], y: &[f64], method: PolyInterpolationMethod) -> Result<Polynomial, InterpolationError> {
    interpolate(bits(x), bits(y), method)
}

fn coefficients_of(x: &[f64], y: &[f64], method: PolyInterpolationMethod) -> Vec<f64> {
    match run(x, y, method) {
        Ok(p) => reals(p.coefficients()),
        Err(e) => panic!("no polynomial: {}", e.message()),
    }
}

fn close(a: f64, b: f64) -> bool {
    (a - b).abs() <= 1e-9 * (1.0 + a.abs().max(b.abs()))
}

fn all_close(a: &[f64], b: &[f64]) -> bool {
    a.len() == b.len() && a.iter().zip(b.iter()).all(|(p, q)| close(*p, *q))
}

fn evaluate(c: &[f64], at: f64) -> f64 {
    let mut value = 0.0;
    let mut power = 1.0;
    for k in c.iter() {
        value += k * power;
        power *= at;
    }
    value
}

fn get(c: &[f64], k: isize) -> f64 {
    if k >= 0 && (k as usize) < c.len() {
        c[k as usize]
    } else {
        0.0
    }
}

fn machine_add(a: &[f64], b: &[f64]) -> Vec<f64> {
    let n = a.len().max(b.len());
    (0..n as isize).map(|k| get(a, k) + get(b, k)).collect()
}

fn machine_times_linear(c: &[f64], root: f64) -> Vec<f64> {
    (0..=c.len() as isize).map(|k| get(c, k - 1) - root * get(c, k)).collect()
}

/// Lagrange's formula on the machine's own arithmetic.
fn machine_lagrange(x: &[f64], y: &[f64]) -> Vec<f64> {
    let n = x.len();
    let mut total = vec![0.0; n];
    for i in 0..n {
        let mut term = vec![1.0];
        for j in 0..n {
            if j != i {
                let divisor = x[i] - x[j];
                term = (0..=term.len() as isize)
                    .map(|k| (get(&term, k - 1) - x[j] * get(&term, k)) / divisor)
                    .collect();
            }
        }
        let weighted: Vec<f64> = term.iter().map(|c| c * y[i]).collect();
        total = machine_add(&total, &weighted);
    }
    total
}

/// Newton's formula on the machine's own arithmetic.
fn machine_newton(x: &[f64], y: &[f64]) -> Vec<f64> {
    let n = x.len();
    let mut d = y.to_vec();
    for k in 1..n {
        for i in (k..n).rev() {
            d[i] = (d[i] - d[i - 1]) / (x[i] - x[i - k]);
        }
    }
    let mut result = vec![d[0]];
    let mut basis = vec![1.0];
    for i in 1..n {
        basis = machine_times_linear(&basis, x[i - 1]);
        let weighted: Vec<f64> = basis.iter().map(|c| c * d[i]).collect();
        result = machine_add(&result, &weighted);
    }
    result
}

fn same_bits(a: &[f64], b: &[f64]) -> bool {
    a.len() == b.len()
        && a.iter().zip(b.iter()).all(|(p, q)| (p.is_nan() && q.is_nan()) || p.to_bits() == q.to_bits())
}

fn sample_sets() -> Vec<(Vec<f64>, Vec<f64>)> {
    vec![
        (vec![0.0, 1.0, 2.0], vec![1.0, 2.0, 5.0]),
        (vec![3.0], vec![7.0]),
        (vec![0.0, 2.0], vec![0.0, 4.0]),
        (vec![-1.5, 0.25, 1.0, 2.75, 4.0], vec![0.3, -2.0, 7.125, 0.1, -9.0]),
        (vec![0.1, 0.2, 0.3, 0.4, 0.5, 0.6, 0.7], vec![1.1, 0.9, 1.3, 0.7, 1.5, 0.5, 1.7]),
        (vec![1e-3, 1e3, -1e2, 5.0], vec![1e10, -1e-10, 3.0, 0.0]),
        (vec![0.0, 1.0, 2.0], vec![0.0, 1.0, 2.0]),
        (vec![10.0, -10.0, 0.5, 20.0, -3.0, 7.0], vec![-0.0, 0.0, -0.0, 0.0, -0.0, 0.0]),
        (vec![1e200, -1e200, 1.0], vec![1e200, 1e-200, 1e300]),
        (vec![1.0, 1.0 + f64::EPSILON, 1.0 - f64::EPSILON], vec![1.0, 2.0, 3.0]),
    ]
}

#[test]
fn both_methods_give_degree_and_length() {
    for method in [PolyInterpolationMethod::Lagrange, PolyInterpolationMethod::Newton] {
        for (x, y) in sample_sets() {
            let p = match run(&x, &y, method) {
                Ok(p) => p,
                Err(e) => panic!("no polynomial: {}", e.message()),
            };
            assert_eq!(p.degree(), x.len() - 1);
            assert_eq!(p.coefficients().len(), x.len());
        }
    }
}

#[test]
fn five_nodes_give_degree_four() {
    let x = [1.0, 2.0, 3.0, 4.0, 5.0];
    let y = [1.0, 4.0, 9.0, 16.0, 25.0];
    for method in [PolyInterpolationMethod::Lagrange, PolyInterpolationMethod::Newton] {
        let p = run(&x, &y, method).ok().unwrap();
        assert_eq!(p.degree(), 4);
        assert_eq!(p.coefficients().len(), 5);
    }
}

#[test]
fn lagrange_and_newton_agree() {
    for (x, y) in sample_sets().into_iter().take(8) {
        let l = coefficients_of(&x, &y, PolyInterpolationMethod::Lagrange);
        let n = coefficients_of(&x, &y, PolyInterpolationMethod::Newton);
        let scale = l.iter().fold(1.0f64, |m, c| m.max(c.abs()));
        assert_eq!(l.len(), n.len());
        for k in 0..l.len() {
            assert!((l[k] - n[k]).abs() <= 1e-9 * scale, "{:?} {:?}", l, n);
        }
    }
}

#[test]
fn the_polynomial_passes_through_the_points() {
    for method in [PolyInterpolationMethod::Lagrange, PolyInterpolationMethod::Newton] {
        for (x, y) in sample_sets().into_iter().take(5) {
            let c = coefficients_of(&x, &y, method);
            for j in 0..x.len() {
                let v = evaluate(&c, x[j]);
                assert!((v - y[j]).abs() <= 1e-9 * (1.0 + y[j].abs()), "{} {}", v, y[j]);
            }
        }
    }
}

#[test]
fn equal_nodes_are_duplicate_values() {
    for method in [PolyInterpolationMethod::Lagrange, PolyInterpolationMethod::Newton] {
        for y in [[0.0, 0.0], [1.0, 2.0], [-5.5, 1e300]] {
            let r = run(&[1.0, 1.0], &y, method);
            assert!(matches!(r, Err(InterpolationError::DuplicateValues)));
        }
    }
}

#[test]
fn different_lengths_are_unequal_array_lengths() {
    for method in [PolyInterpolationMethod::Lagrange, PolyInterpolationMethod::Newton] {
        let r = run(&[1.0, 2.0], &[1.0], method);
        assert!(matches!(r, Err(InterpolationError::UnequalArrayLengths)));
        let r = run(&[], &[1.0], method);
        assert!(matches!(r, Err(InterpolationError::UnequalArrayLengths)));
    }
}

#[test]
fn lengths_are_checked_before_nodes() {
    for method in [PolyInterpolationMethod::Lagrange, PolyInterpolationMethod::Newton] {
        let r = run(&[1.0, 1.0], &[1.0], method);
        assert!(matches!(r, Err(InterpolationError::UnequalArrayLengths)));
    }
}

#[test]
fn three_points_of_a_parabola() {
    for method in [PolyInterpolationMethod::Lagrange, PolyInterpolationMethod::Newton] {
        let p = run(&[0.0, 1.0, 2.0], &[1.0, 2.0, 5.0], method).ok().unwrap();
        assert_eq!(p.degree(), 2);
        let c = reals(p.coefficients());
        assert!(all_close(&c, &[1.0, 0.0, 1.0]), "{:?}", c);
    }
}

#[test]
fn newton_on_the_parabola_is_exact() {
    let c = coefficients_of(&[0.0, 1.0, 2.0], &[1.0, 2.0, 5.0], PolyInterpolationMethod::Newton);
    assert_eq!(c, vec![1.0, 0.0, 1.0]);
}

#[test]
fn a_single_point_is_a_constant() {
    for method in [PolyInterpolationMethod::Lagrange, PolyInterpolationMethod::Newton] {
        let p = run(&[3.0], &[7.0], method).ok().unwrap();
        assert_eq!(p.degree(), 0);
        assert_eq!(p.coefficients(), &vec![7.0f64.to_bits()]);
    }
}

#[test]
fn two_points_of_a_line() {
    for method in [PolyInterpolationMethod::Lagrange, PolyInterpolationMethod::Newton] {
        let c = coefficients_of(&[0.0, 2.0], &[0.0, 4.0], method);
        assert!(all_close(&c, &[0.0, 2.0]), "{:?}", c);
    }
}

#[test]
fn no_point_is_the_zero_polynomial() {
    for method in [PolyInterpolationMethod::Lagrange, PolyInterpolationMethod::Newton] {
        let p = run(&[], &[], method).ok().unwrap();
        assert_eq!(p.degree(), 0);
        assert_eq!(p.coefficients(), &vec![ZERO]);
    }
}

#[test]
fn leading_zeros_are_kept() {
    for method in [PolyInterpolationMethod::Lagrange, PolyInterpolationMethod::Newton] {
        let p = run(&[0.0, 1.0, 2.0], &[0.0, 1.0, 2.0], method).ok().unwrap();
        assert_eq!(p.degree(), 2);
        let c = reals(p.coefficients());
        assert_eq!(c.len(), 3);
        assert!(all_close(&c, &[0.0, 1.0, 0.0]), "{:?}", c);
    }
}

#[test]
fn nodes_closer_than_epsilon_are_duplicate_values() {
    for method in [PolyInterpolationMethod::Lagrange, PolyInterpolationMethod::Newton] {
        let r = run(&[0.0, 1e-17], &[1.0, 2.0], method);
        assert!(matches!(r, Err(InterpolationError::DuplicateValues)));
        let r = run(&[5.0, 0.0, 1e-17, 9.0], &[1.0, 2.0, 3.0, 4.0], method);
        assert!(matches!(r, Err(InterpolationError::DuplicateValues)));
        let r = run(&[0.0, 3.0, 1.0, 3.0], &[1.0, 2.0, 3.0, 4.0], method);
        assert!(matches!(r, Err(InterpolationError::DuplicateValues)));
    }
}

#[test]
fn nodes_epsilon_apart_are_told_apart() {
    for method in [PolyInterpolationMethod::Lagrange, PolyInterpolationMethod::Newton] {
        let r = run(&[1.0, 1.0 + f64::EPSILON], &[1.0, 2.0], method);
        assert!(r.is_ok());
        let r = run(&[0.0, f64::EPSILON], &[1.0, 2.0], method);
        assert!(r.is_ok());
        let r = run(&[0.0, -f64::EPSILON / 2.0], &[1.0, 2.0], method);
        assert!(matches!(r, Err(InterpolationError::DuplicateValues)));
    }
}

#[test]
fn a_node_that_is_not_a_number_coincides_with_none() {
    for method in [PolyInterpolationMethod::Lagrange, PolyInterpolationMethod::Newton] {
        let p = run(&[f64::NAN, 1.0], &[1.0, 2.0], method).ok().unwrap();
        assert_eq!(p.degree(), 1);
        assert!(reals(p.coefficients()).iter().all(|c| c.is_nan()));
    }
}

#[test]
fn lagrange_matches_the_machine_bit_for_bit() {
    for (x, y) in sample_sets() {
        let c = coefficients_of(&x, &y, PolyInterpolationMethod::Lagrange);
        let m = machine_lagrange(&x, &y);
        assert!(same_bits(&c, &m), "{:?} {:?}", c, m);
    }
}

#[test]
fn newton_matches_the_machine_bit_for_bit() {
    for (x, y) in sample_sets() {
        let c = coefficients_of(&x, &y, PolyInterpolationMethod::Newton);
        let m = machine_newton(&x, &y);
        assert!(same_bits(&c, &m), "{:?} {:?}", c, m);
    }
}

#[test]
fn multiplying_by_a_linear_factor() {
    // (1 + 2x)(x - 3) = -3 - 5x + 2x^2
    let c = multiply_by_linear(&bits(&[1.0, 2.0]), 3.0f64.to_bits());
    assert_eq!(reals(&c), vec![-3.0, -5.0, 2.0]);
    let one = multiply_by_linear(&vec![ONE], 4.0f64.to_bits());
    assert_eq!(reals(&one), vec![-4.0, 1.0]);
    let none = multiply_by_linear(&Vec::new(), 4.0f64.to_bits());
    assert_eq!(reals(&none), vec![0.0]);
}

#[test]
fn multiplying_by_a_linear_factor_and_dividing() {
    // (1 + 2x)(x - 3) / 2 = -1.5 - 2.5x + x^2
    let c = multiply_by_linear_over(&bits(&[1.0, 2.0]), 3.0f64.to_bits(), 2.0f64.to_bits());
    assert_eq!(reals(&c), vec![-1.5, -2.5, 1.0]);
}

#[test]
fn scaling_every_coefficient() {
    let c = scale(&bits(&[1.0, -2.0, 0.5]), 4.0f64.to_bits());
    assert_eq!(reals(&c), vec![4.0, -8.0, 2.0]);
    assert_eq!(scale(&Vec::new(), ONE), Vec::<u64>::new());
}

#[test]
fn adding_polynomials_of_different_length() {
    let c = add_coefficients(&bits(&[1.0, 2.0, 3.0]), &bits(&[10.0]));
    assert_eq!(reals(&c), vec![11.0, 2.0, 3.0]);
    let c = add_coefficients(&bits(&[10.0]), &bits(&[1.0, 2.0, 3.0]));
    assert_eq!(reals(&c), vec![11.0, 2.0, 3.0]);
    let c = add_coefficients(&bits(&[-0.0]), &bits(&[-0.0, -0.0]));
    assert_eq!(c, vec![(-0.0f64).to_bits(), ZERO]);
}

#[test]
fn each_error_has_its_message() {
    assert_eq!(InterpolationError::UnequalArrayLengths.message(), "x and y differ in length");
    assert_eq!(InterpolationError::DuplicateValues.message(), "two values of x coincide");
    assert_ne!(InterpolationError::DuplicateValues, InterpolationError::UnequalArrayLengths);
}
