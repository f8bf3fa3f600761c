use polyinterp::binary64::arith::{fabs, fadd, fdiv, fmul, fneg, fsub, is_below_epsilon};
use polyinterp::binary64::format::{EPSILON, INFINITY, NAN, ONE, SIGN_BIT, ZERO};

/// Whether a pattern is what the machine computed: the same bits, or a NaN for a NaN.
fn agrees(bits: u64, machine: f64) -> bool {
    if machine.is_nan() {
        (bits & !SIGN_BIT) > INFINITY
    } else {
        bits == machine.to_bits()
    }
}

fn check_pair(a: u64, b: u64) {
    let fa = f64::from_bits(a);
    let fb = f64::from_bits(b);
    assert!(agrees(fadd(a, b), fa + fb), "{:e} + {:e}: {:#x} {:#x}", fa, fb, a, b);
    assert!(agrees(fsub(a, b), fa - fb), "{:e} - {:e}: {:#x} {:#x}", fa, fb, a, b);
    assert!(agrees(fmul(a, b), fa * fb), "{:e} * {:e}: {:#x} {:#x}", fa, fb, a, b);
    assert!(agrees(fdiv(a, b), fa / fb), "{:e} / {:e}: {:#x} {:#x}", fa, fb, a, b);
}

fn notable_values() -> Vec<u64> {
    let mut v: Vec<u64> = Vec::new();
    let reals: [f64; 40] = [
        0.0,
        1.0,
        2.0,
        3.0,
        0.5,
        0.1,
        0.2,
        0.3,
        1.0 / 3.0,
        2.0 / 3.0,
        7.0,
        10.0,
        1.5,
        1e16,
        1e-16,
        1e300,
        1e-300,
        1e308,
        1e-308,
        1e-320,
        5e-324,
        f64::MAX,
        f64::MIN_POSITIVE,
        f64::EPSILON,
        1.0 + f64::EPSILON,
        1.0 - f64::EPSILON / 2.0,
        9007199254740992.0,
        9007199254740994.0,
        9007199254740991.0,
        4503599627370496.0,
        4503599627370497.0,
        123456789.123456789,
        3.141592653589793,
        2.718281828459045,
        1.7976931348623155e308,
        8.98846567431158e307,
        2.2250738585072009e-308,
        4.4501477170144023e-308,
        1.1125369292536007e-308,
        f64::INFINITY,
    ];
    for r in reals.iter() {
        v.push(r.to_bits());
        v.push((-r).to_bits());
    }
    v.push(f64::NAN.to_bits());
    v.push(0x7FF0_0000_0000_0001);
    v.push(0xFFFF_FFFF_FFFF_FFFF);
    v.push(0x000F_FFFF_FFFF_FFFF);
    v.push(0x0010_0000_0000_0001);
    v.push(0x0000_0000_0000_0002);
    v.push(0x0000_0000_0000_0003);
    v.push(0x7FEF_FFFF_FFFF_FFFE);
    v.push(0x3FEF_FFFF_FFFF_FFFF);
    v.push(0x3FF0_0000_0000_0001);
    v
}

fn next_random(state: &mut u64) -> u64 {
    let mut s = *state;
    s ^= s << 13;
    s ^= s >> 7;
    s ^= s << 17;
    *state = s;
    s
}

#[test]
fn all_pairs_of_notable_values_match_the_machine() {
    let v = notable_values();
    for &a in v.iter() {
        for &b in v.iter() {
            check_pair(a, b);
        }
    }
}

#[test]
fn random_patterns_match_the_machine() {
    let mut state: u64 = 0x9E37_79B9_7F4A_7C15;
    for _ in 0..20000 {
        let a = next_random(&mut state);
        let b = next_random(&mut state);
        check_pair(a, b);
    }
}

#[test]
fn random_values_of_close_exponents_match_the_machine() {
    let mut state: u64 = 0x2545_F491_4F6C_DD1D;
    for _ in 0..20000 {
        let a = next_random(&mut state);
        let r = next_random(&mut state);
        let shift = next_random(&mut state) % 140;
        let field_a = (a >> 52) & 0x7FF;
        let field_b = (field_a + 70).saturating_sub(shift).min(0x7FE);
        let b = (r & 0x800F_FFFF_FFFF_FFFF) | (field_b << 52);
        check_pair(a, b);
        check_pair(b, a);
    }
}

#[test]
fn random_subnormals_match_the_machine() {
    let mut state: u64 = 0x0123_4567_89AB_CDEF;
    for _ in 0..20000 {
        let a = next_random(&mut state) & 0x801F_FFFF_FFFF_FFFF;
        let b = next_random(&mut state) & 0x803F_FFFF_FFFF_FFFF;
        let c = next_random(&mut state);
        check_pair(a, b);
        check_pair(a, c);
        check_pair(c, a);
    }
}

#[test]
fn few_digit_significands_match_the_machine() {
    let mut state: u64 = 0x0F0F_1234_5678_9ABC;
    for _ in 0..20000 {
        let a = next_random(&mut state) & 0xFFFF_F000_0000_0000;
        let b = next_random(&mut state) & 0xFFFF_FF00_0000_0000;
        check_pair(a, b);
    }
}

#[test]
fn one_plus_one_is_two() {
    assert_eq!(fadd(ONE, ONE), 0x4000_0000_0000_0000);
    assert_eq!(fadd(ONE, ONE), 2.0f64.to_bits());
}

#[test]
fn one_over_three_is_rounded_down() {
    assert_eq!(fdiv(ONE, 3.0f64.to_bits()), 0x3FD5_5555_5555_5555);
}

#[test]
fn two_thirds_is_rounded_up() {
    assert_eq!(fdiv(2.0f64.to_bits(), 3.0f64.to_bits()), 0x3FE5_5555_5555_5555);
}

#[test]
fn three_times_seven_is_twenty_one() {
    assert_eq!(fmul(3.0f64.to_bits(), 7.0f64.to_bits()), 21.0f64.to_bits());
}

#[test]
fn five_minus_seven_is_minus_two() {
    assert_eq!(fsub(5.0f64.to_bits(), 7.0f64.to_bits()), (-2.0f64).to_bits());
}

#[test]
fn a_tie_goes_to_the_even_significand() {
    let big = 9007199254740992.0f64.to_bits();
    assert_eq!(fadd(big, ONE), big);
    assert_eq!(fadd(big, 3.0f64.to_bits()), 9007199254740996.0f64.to_bits());
    assert_eq!(fadd(ONE, (f64::EPSILON / 2.0).to_bits()), ONE);
    assert_eq!(
        fadd(ONE + 1, (f64::EPSILON / 2.0).to_bits()),
        ONE + 2
    );
}

#[test]
fn the_sum_of_opposites_is_positive_zero() {
    assert_eq!(fsub(ONE, ONE), ZERO);
    assert_eq!(fadd(ONE | SIGN_BIT, ONE), ZERO);
    assert_eq!(fadd(SIGN_BIT, SIGN_BIT), SIGN_BIT);
    assert_eq!(fadd(SIGN_BIT, ZERO), ZERO);
}

#[test]
fn overflow_gives_infinity() {
    let max = f64::MAX.to_bits();
    assert_eq!(fadd(max, max), INFINITY);
    assert_eq!(fmul(max, 2.0f64.to_bits()), INFINITY);
    assert_eq!(fmul(max | SIGN_BIT, 2.0f64.to_bits()), INFINITY | SIGN_BIT);
    assert_eq!(fdiv(ONE, ZERO), INFINITY);
    assert_eq!(fdiv(ONE, SIGN_BIT), INFINITY | SIGN_BIT);
}

#[test]
fn invalid_operations_give_the_quiet_nan() {
    assert_eq!(fdiv(ZERO, ZERO), NAN);
    assert_eq!(fsub(INFINITY, INFINITY), NAN);
    assert_eq!(fmul(INFINITY, ZERO), NAN);
    assert_eq!(fdiv(INFINITY, INFINITY), NAN);
    assert_eq!(fadd(NAN, ONE), NAN);
}

#[test]
fn underflow_is_gradual() {
    let tiny = f64::MIN_POSITIVE.to_bits();
    assert_eq!(fdiv(tiny, 2.0f64.to_bits()), 0x0008_0000_0000_0000);
    assert_eq!(fdiv(1, 2.0f64.to_bits()), ZERO);
    assert_eq!(fdiv(3, 2.0f64.to_bits()), 2);
    assert_eq!(fmul(1, 0.75f64.to_bits()), 1);
}

#[test]
fn negation_and_magnitude() {
    assert_eq!(fneg(ONE), (-1.0f64).to_bits());
    assert_eq!(fneg(fneg(ONE)), ONE);
    assert_eq!(fneg(ZERO), SIGN_BIT);
    assert_eq!(fabs((-2.5f64).to_bits()), 2.5f64.to_bits());
    assert_eq!(fabs(2.5f64.to_bits()), 2.5f64.to_bits());
}

#[test]
fn epsilon_is_the_gap_above_one() {
    assert_eq!(EPSILON, f64::EPSILON.to_bits());
    assert_eq!(fsub(ONE + 1, ONE), EPSILON);
}

#[test]
fn below_epsilon_is_strict_and_ignores_sign() {
    assert!(!is_below_epsilon(EPSILON));
    assert!(!is_below_epsilon(EPSILON | SIGN_BIT));
    assert!(is_below_epsilon(EPSILON - 1));
    assert!(is_below_epsilon((EPSILON - 1) | SIGN_BIT));
    assert!(is_below_epsilon(ZERO));
    assert!(is_below_epsilon(SIGN_BIT));
    assert!(!is_below_epsilon(ONE));
    assert!(!is_below_epsilon(NAN));
    assert!(!is_below_epsilon(INFINITY));
    for &a in notable_values().iter() {
        assert_eq!(is_below_epsilon(a), f64::from_bits(a).abs() < f64::EPSILON);
    }
}

#[test]
fn sums_and_products_do_not_depend_on_the_order() {
    let v = notable_values();
    for &a in v.iter() {
        for &b in v.iter() {
            assert_eq!(fadd(a, b), fadd(b, a));
            assert_eq!(fmul(a, b), fmul(b, a));
        }
    }
}

#[test]
fn one_and_zero_are_neutral() {
    for &a in notable_values().iter() {
        if (a & !SIGN_BIT) > INFINITY {
            continue;
        }
        assert_eq!(fmul(a, ONE), a);
        assert_eq!(fmul(ONE, a), a);
        if a != SIGN_BIT {
            assert_eq!(fadd(a, ZERO), a);
            assert_eq!(fadd(ZERO, a), a);
        }
    }
    assert_eq!(fadd(SIGN_BIT, ZERO), ZERO);
}

#[test]
fn swapping_a_difference_keeps_its_magnitude() {
    let v = notable_values();
    for &a in v.iter() {
        for &b in v.iter() {
            assert_eq!(fabs(fsub(a, b)), fabs(fsub(b, a)));
            assert_eq!(is_below_epsilon(fsub(a, b)), is_below_epsilon(fsub(b, a)));
        }
    }
}
