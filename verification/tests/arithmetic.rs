use sparse_solver::arithmetic::Operation;
use sparse_solver::binary64::{
    abs, is_below, is_finite, is_negligible, is_zero, negate, INFINITY, ONE, SIGN,
    SMALLEST_NORMAL, ZERO,
};
use sparse_solver::error::Error;
use sparse_solver::vector::Vector;

fn ieee_unit(op: Operation) -> u64 {
    let f = f64::from_bits;
    match op {
        Operation::MulAdd { acc, a, b } => (f(acc) + f(a) * f(b)).to_bits(),
        Operation::Sub { a, b } => (f(a) - f(b)).to_bits(),
        Operation::Mul { a, b } => (f(a) * f(b)).to_bits(),
        Operation::Div { a, b } => (f(a) / f(b)).to_bits(),
        Operation::Sqrt { a } => f(a).sqrt().to_bits(),
    }
}

fn vector_of(components: &[f64]) -> Vector {
    Vector(components.iter().map(|c| c.to_bits()).collect())
}

fn numbers(v: &Vector) -> Vec<f64> {
    v.0.iter().map(|b| f64::from_bits(*b)).collect()
}

fn samples() -> Vec<f64> {
    vec![
        0.0,
        -0.0,
        1.0,
        -1.0,
        5e-324,
        -5e-324,
        2.2250738585072009e-308,
        f64::MIN_POSITIVE,
        -f64::MIN_POSITIVE,
        1e-300,
        0.5,
        3.25,
        -7.75,
        1e300,
        f64::MAX,
        f64::MIN,
        f64::INFINITY,
        f64::NEG_INFINITY,
        f64::NAN,
        -f64::NAN,
    ]
}

#[test]
fn constants_are_the_patterns_they_name() {
    assert_eq!(ZERO, 0.0f64.to_bits());
    assert_eq!(ONE, 1.0f64.to_bits());
    assert_eq!(SIGN, (-0.0f64).to_bits());
    assert_eq!(INFINITY, f64::INFINITY.to_bits());
    assert_eq!(SMALLEST_NORMAL, f64::MIN_POSITIVE.to_bits());
}

#[test]
fn finiteness_agrees_with_the_numbers() {
    for x in samples() {
        assert_eq!(is_finite(x.to_bits()), x.is_finite(), "{x}");
    }
    assert!(!is_finite(0x7ff0_0000_0000_0001));
    assert!(!is_finite(0xffff_ffff_ffff_ffff));
    assert!(is_finite(0x7fef_ffff_ffff_ffff));
}

#[test]
fn zero_test_agrees_with_the_numbers() {
    for x in samples() {
        assert_eq!(is_zero(x.to_bits()), x == 0.0, "{x}");
    }
}

#[test]
fn negligible_means_zero_or_subnormal() {
    for x in samples() {
        assert_eq!(is_negligible(x.to_bits()), x.abs() < f64::MIN_POSITIVE, "{x}");
    }
}

#[test]
fn abs_and_negate_agree_with_the_numbers() {
    for x in samples() {
        if x.is_nan() {
            assert!(f64::from_bits(abs(x.to_bits())).is_nan());
            assert!(f64::from_bits(negate(x.to_bits())).is_nan());
        } else {
            assert_eq!(abs(x.to_bits()), x.abs().to_bits(), "{x}");
            assert_eq!(negate(x.to_bits()), (-x).to_bits(), "{x}");
        }
        assert_eq!(negate(negate(x.to_bits())), x.to_bits());
    }
}

#[test]
fn below_compares_magnitude_with_bound() {
    for a in samples() {
        for b in samples() {
            let expected = !b.is_sign_negative() && a.abs() < b;
            assert_eq!(is_below(a.to_bits(), b.to_bits()), expected, "{a} {b}");
        }
    }
    assert!(is_below(1e-7f64.to_bits(), 1e-6f64.to_bits()));
    assert!(!is_below(1e-6f64.to_bits(), 1e-6f64.to_bits()));
    assert!(!is_below(0.0f64.to_bits(), 0.0f64.to_bits()));
}

#[test]
fn dot_sums_from_left_to_right() {
    let x = vector_of(&[1e16, 1.0, -1e16, 3.0]);
    let y = vector_of(&[1.0, 1.0, 1.0, 1.0]);
    let left_to_right = ((1e16f64 + 1.0) + -1e16) + 3.0;
    assert_eq!(x.dot(&y, &ieee_unit), Ok(left_to_right.to_bits()));
    assert_eq!(left_to_right, 3.0);
    let x = vector_of(&[1.5, 2.0, -4.0]);
    let y = vector_of(&[2.0, 0.25, 0.5]);
    assert_eq!(x.dot(&y, &ieee_unit), Ok(1.5f64.to_bits()));
    assert_eq!(vector_of(&[]).dot(&vector_of(&[]), &ieee_unit), Ok(0.0f64.to_bits()));
}

#[test]
fn scaled_add_and_sub_work_by_component() {
    let x = vector_of(&[1.0, 2.0, 3.0]);
    let y = vector_of(&[10.0, -20.0, 0.5]);
    let sum = x.scaled_add(0.5f64.to_bits(), &y, &ieee_unit).unwrap();
    assert_eq!(numbers(&sum), vec![6.0, -8.0, 3.25]);
    let difference = x.sub(&y, &ieee_unit).unwrap();
    assert_eq!(numbers(&difference), vec![-9.0, 22.0, 2.5]);
    assert_eq!(numbers(&x), vec![1.0, 2.0, 3.0]);
    assert_eq!(numbers(&y), vec![10.0, -20.0, 0.5]);
}

#[test]
fn norm_is_the_root_of_the_dot_product() {
    assert_eq!(vector_of(&[3.0, 4.0]).norm(&ieee_unit), 5.0f64.to_bits());
    assert_eq!(vector_of(&[]).norm(&ieee_unit), 0.0f64.to_bits());
    assert_eq!(vector_of(&[0.0, -2.0, 0.0]).norm(&ieee_unit), 2.0f64.to_bits());
}

#[test]
fn mismatched_lengths_are_refused() {
    let x = vector_of(&[1.0, 2.0, 3.0]);
    let y = vector_of(&[1.0, 2.0]);
    assert_eq!(x.dot(&y, &ieee_unit), Err(Error::DimensionMismatch));
    assert_eq!(y.dot(&x, &ieee_unit), Err(Error::DimensionMismatch));
    assert_eq!(x.scaled_add(ONE, &y, &ieee_unit), Err(Error::DimensionMismatch));
    assert_eq!(x.sub(&y, &ieee_unit), Err(Error::DimensionMismatch));
}

#[test]
fn zeros_and_copy() {
    let z = Vector::zeros(4);
    assert_eq!(z.len(), 4);
    assert_eq!(numbers(&z), vec![0.0; 4]);
    assert_eq!(Vector::zeros(0).len(), 0);
    let x = vector_of(&[1.0, -2.0]);
    let mut c = x.copy();
    assert_eq!(c, x);
    c.0[0] = 9.0f64.to_bits();
    assert_eq!(numbers(&x), vec![1.0, -2.0]);
}
