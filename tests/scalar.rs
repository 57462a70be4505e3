use myraytracing::scalar::{clamp, Scalar};

fn s(x: f64) -> Scalar {
    Scalar::from_bits(x.to_bits()).unwrap()
}

#[test]
fn test_clamp() {
    // Test values within the range
    assert_eq!(clamp(s(0.5), s(0.0), s(1.0)), s(0.5));
    assert_eq!(clamp(s(0.0), s(0.0), s(1.0)), s(0.0));
    assert_eq!(clamp(s(1.0), s(0.0), s(1.0)), s(1.0));

    // Test values below the minimum
    assert_eq!(clamp(s(-0.5), s(0.0), s(1.0)), s(0.0));
    assert_eq!(clamp(s(-10.0), s(-5.0), s(5.0)), s(-5.0));

    // Test values above the maximum
    assert_eq!(clamp(s(1.5), s(0.0), s(1.0)), s(1.0));
    assert_eq!(clamp(s(10.0), s(-5.0), s(5.0)), s(5.0));

    // Test with negative ranges
    assert_eq!(clamp(s(-1.0), s(-2.0), s(-0.5)), s(-1.0));
    assert_eq!(clamp(s(-3.0), s(-2.0), s(-0.5)), s(-2.0));
    assert_eq!(clamp(s(0.0), s(-2.0), s(-0.5)), s(-0.5));

    // With min > max the upper bound wins
    assert_eq!(clamp(s(0.5), s(1.0), s(0.0)), s(0.0));
    assert_eq!(clamp(s(1.5), s(1.0), s(0.0)), s(0.0));
    assert_eq!(clamp(s(-0.5), s(1.0), s(0.0)), s(0.0));
}

#[test]
fn nan_has_no_scalar() {
    assert!(Scalar::from_bits(f64::NAN.to_bits()).is_none());
    assert!(Scalar::from_bits((-f64::NAN).to_bits()).is_none());
    assert!(Scalar::from_bits(f64::INFINITY.to_bits()).is_some());
}

#[test]
fn ranks_order_like_doubles() {
    let values = [
        f64::NEG_INFINITY,
        -1e300,
        -2.5,
        -1.0,
        -1e-300,
        0.0,
        5e-324,
        0.001,
        1.0,
        1.5,
        1e300,
        f64::INFINITY,
    ];
    for a in values {
        for b in values {
            assert_eq!(s(a).rank < s(b).rank, a < b, "{} {}", a, b);
            assert_eq!(s(a).rank == s(b).rank, a == b, "{} {}", a, b);
        }
    }
}

#[test]
fn both_zeros_are_one_value() {
    assert_eq!(s(-0.0), s(0.0));
    assert_eq!(s(-0.0).rank, 0);
    assert_eq!(s(-0.0).to_bits(), 0.0f64.to_bits());
}

#[test]
fn bits_round_trip() {
    for x in [-3.25, -1e-10, 0.5, 1.0, 7.0e10, f64::INFINITY, f64::NEG_INFINITY] {
        assert_eq!(f64::from_bits(s(x).to_bits()), x);
    }
}

#[test]
fn named_values() {
    assert_eq!(Scalar::zero(), s(0.0));
    assert_eq!(Scalar::one(), s(1.0));
    assert_eq!(Scalar::infinity(), s(f64::INFINITY));
    assert_eq!(Scalar::neg_infinity(), s(f64::NEG_INFINITY));
}

#[test]
fn min_and_max_select() {
    assert_eq!(s(2.0).min(s(-3.0)), s(-3.0));
    assert_eq!(s(2.0).max(s(-3.0)), s(2.0));
    assert_eq!(s(0.25).min(s(0.25)), s(0.25));
}
