use woa_jssp::scalar::{Scalar, HALF_BITS, INFINITY_BITS, ONE_BITS, SIGN_BIT};

fn scalar(x: f64) -> Scalar {
    Scalar::from_bits(x.to_bits())
}

fn samples() -> Vec<f64> {
    let mut values = vec![
        0.0,
        -0.0,
        1.0,
        -1.0,
        0.5,
        -0.5,
        2.0,
        5.12,
        -5.12,
        1e-320,
        -1e-320,
        f64::MIN_POSITIVE,
        -f64::MIN_POSITIVE,
        f64::EPSILON,
        f64::MAX,
        f64::MIN,
        f64::INFINITY,
        f64::NEG_INFINITY,
        f64::NAN,
        -f64::NAN,
        f64::from_bits(0x7FF0_0000_0000_0001),
        f64::from_bits(0xFFF0_0000_0000_0001),
        f64::from_bits(0x7FFF_FFFF_FFFF_FFFF),
        f64::from_bits(0xFFFF_FFFF_FFFF_FFFF),
        f64::from_bits(1),
        f64::from_bits(0x8000_0000_0000_0001),
        45.0,
        1e300,
        -1e300,
    ];
    let mut x = 0.1f64;
    for _ in 0..40 {
        values.push(x);
        values.push(-x);
        x = x * 3.7 + 0.01;
    }
    values
}

#[test]
fn constants_are_the_patterns_of_their_numbers() {
    assert_eq!(HALF_BITS, 0.5f64.to_bits());
    assert_eq!(ONE_BITS, 1.0f64.to_bits());
    assert_eq!(INFINITY_BITS, f64::INFINITY.to_bits());
    assert_eq!(SIGN_BIT, (-0.0f64).to_bits());
    assert_eq!(Scalar::zero().to_bits(), 0.0f64.to_bits());
    assert_eq!(Scalar::from_bits(7).to_bits(), 7);
    assert_eq!(Scalar::from_bits(7).bits, 7);
}

#[test]
fn nan_and_finite_are_told_as_the_machine_tells_them() {
    for x in samples() {
        assert_eq!(scalar(x).is_nan(), x.is_nan(), "{:?}", x);
        assert_eq!(scalar(x).is_finite(), x.is_finite(), "{:?}", x);
    }
}

#[test]
fn comparisons_are_those_of_the_machine() {
    for x in samples() {
        for y in samples() {
            let (a, b) = (scalar(x), scalar(y));
            assert_eq!(a.lt(b), x < y, "{:?} < {:?}", x, y);
            assert_eq!(a.le(b), x <= y, "{:?} <= {:?}", x, y);
            assert_eq!(a.gt(b), x > y, "{:?} > {:?}", x, y);
            assert_eq!(a.ge(b), x >= y, "{:?} >= {:?}", x, y);
        }
    }
}

#[test]
fn the_total_order_is_that_of_the_machine() {
    for x in samples() {
        for y in samples() {
            let expected = x.total_cmp(&y) != std::cmp::Ordering::Greater;
            assert_eq!(scalar(x).total_le(scalar(y)), expected, "{:?} {:?}", x, y);
        }
    }
}

#[test]
fn the_zeros_differ_in_pattern_and_in_total_order_only() {
    let (minus, plus) = (scalar(-0.0), scalar(0.0));
    assert_ne!(minus, plus);
    assert!(minus.le(plus) && plus.le(minus));
    assert!(!minus.lt(plus) && !plus.lt(minus));
    assert!(minus.total_le(plus));
    assert!(!plus.total_le(minus));
}

#[test]
fn a_nan_compares_with_nothing() {
    let nan = scalar(f64::NAN);
    let one = scalar(1.0);
    assert!(nan.is_nan());
    assert!(!nan.lt(one) && !nan.gt(one) && !nan.le(one) && !nan.ge(one));
    assert!(!nan.le(nan));
    assert!(nan.total_le(nan));
    assert_eq!(nan, nan);
}
