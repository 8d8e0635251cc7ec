use raytracer::numerics::{EPSILON, FRACTION_RANGE, FULL_SCALE, INFINITY, SIGN_BIT};
use raytracer::{
    approx_zero, clamp_number, is_nonzero, less_than, level, order_key, ordered_roots,
    rounds_down_to_even,
};

/// `clamp_number` on the numbers themselves.
fn clamp(number: f64, min: f64, max: f64) -> f64 {
    f64::from_bits(clamp_number(number.to_bits(), min.to_bits(), max.to_bits()))
}

#[test]
fn clamp_number_above_max() {
    assert_eq!(clamp(256., 0., 255.), 255.);
}

#[test]
fn clamp_number_at_max() {
    assert_eq!(clamp(255., 0., 255.), 255.);
}

#[test]
fn clamp_number_below_min() {
    assert_eq!(clamp(-1., 0., 255.), 0.);
}

#[test]
fn clamp_number_at_min() {
    assert_eq!(clamp(0., 0., 255.), 0.);
}

#[test]
fn clamp_number_between() {
    assert_eq!(clamp(128., 0., 255.), 128.);
}

#[test]
fn clamp_number_with_crossed_bounds() {
    assert_eq!(clamp(5., 10., 0.), 10.);
    assert_eq!(clamp(20., 10., 0.), 0.);
    assert_eq!(clamp(-3., 10., 0.), 10.);
}

#[test]
fn clamp_number_of_infinities() {
    assert_eq!(clamp(f64::NEG_INFINITY, 0., 255.), 0.);
    assert_eq!(clamp(f64::INFINITY, 0., 255.), 255.);
    assert_eq!(clamp(7., f64::NEG_INFINITY, f64::INFINITY), 7.);
}

#[test]
fn clamp_number_of_no_number() {
    assert!(clamp(f64::NAN, 0., 255.).is_nan());
    assert_eq!(clamp(7., f64::NAN, 255.), 7.);
    assert_eq!(clamp(700., 0., f64::NAN), 700.);
}

#[test]
fn clamp_number_keeps_the_sign_of_zero() {
    assert_eq!(
        clamp_number((-0f64).to_bits(), 0f64.to_bits(), 255f64.to_bits()),
        (-0f64).to_bits()
    );
}

#[test]
fn clamp_number_agrees_with_comparison() {
    let patterns = patterns();
    for triple in patterns.windows(3) {
        let (number, min, max) = (
            f64::from_bits(triple[0]),
            f64::from_bits(triple[1]),
            f64::from_bits(triple[2]),
        );
        let expected = if number < min {
            min
        } else if number > max {
            max
        } else {
            number
        };
        assert_eq!(
            clamp_number(triple[0], triple[1], triple[2]),
            expected.to_bits()
        );
    }
}

#[test]
fn less_than_agrees_with_comparison() {
    let patterns = patterns();
    for pair in patterns.windows(2) {
        let (a, b) = (f64::from_bits(pair[0]), f64::from_bits(pair[1]));
        assert_eq!(less_than(pair[0], pair[1]), a < b, "{} and {}", a, b);
    }
}

fn key(value: f64) -> i64 {
    order_key(value.to_bits())
}

#[test]
fn order_key_preserves_order() {
    let ascending = [
        f64::NEG_INFINITY,
        f64::MIN,
        -1e300,
        -7.,
        -1.5,
        -1.,
        -f64::MIN_POSITIVE,
        -5e-324,
        0.,
        5e-324,
        f64::MIN_POSITIVE,
        0.00001,
        0.5,
        1.,
        1.5,
        3.,
        1e300,
        f64::MAX,
        f64::INFINITY,
    ];
    for pair in ascending.windows(2) {
        assert!(key(pair[0]) < key(pair[1]), "{} and {}", pair[0], pair[1]);
    }
}

#[test]
fn order_key_of_zero_is_zero() {
    assert_eq!(key(0.), 0);
    assert_eq!(key(-0.), 0);
    assert_eq!(order_key(0), 0);
    assert_eq!(order_key(0x8000_0000_0000_0000), 0);
}

#[test]
fn order_key_has_the_sign_of_the_number() {
    assert!(key(5e-324) > 0);
    assert!(key(-5e-324) < 0);
    assert!(key(f64::INFINITY) > 0);
    assert!(key(f64::NEG_INFINITY) < 0);
}

#[test]
fn order_key_is_the_signed_magnitude() {
    assert_eq!(order_key(1), 1);
    assert_eq!(order_key(0x8000_0000_0000_0001), -1);
    assert_eq!(key(1.), 0x3ff0_0000_0000_0000);
    assert_eq!(key(-1.), -0x3ff0_0000_0000_0000);
    assert_eq!(key(f64::INFINITY), 0x7ff0_0000_0000_0000);
    assert_eq!(key(f64::NEG_INFINITY), -0x7ff0_0000_0000_0000);
}

#[test]
fn order_key_of_no_number_is_below_all_numbers() {
    assert_eq!(key(f64::NAN), i64::MIN);
    assert_eq!(key(-f64::NAN), i64::MIN);
    assert_eq!(order_key(0x7ff0_0000_0000_0001), i64::MIN);
    assert_eq!(order_key(0xffff_ffff_ffff_ffff), i64::MIN);
    assert!(key(f64::NAN) < key(f64::NEG_INFINITY));
}

/// A fixed walk through the bit patterns: every kind of number turns up.
fn patterns() -> Vec<u64> {
    let mut patterns = vec![
        0,
        1,
        0x8000_0000_0000_0000,
        0x8000_0000_0000_0001,
        0x000f_ffff_ffff_ffff,
        0x0010_0000_0000_0000,
        0x7fef_ffff_ffff_ffff,
        0x7ff0_0000_0000_0000,
        0xfff0_0000_0000_0000,
        0x7ff8_0000_0000_0000,
    ];
    for value in [
        0.00001, 0.0000099999, 0.5, 0.49999999999999994, 1., 1.5, 2., 2.5, 254.5, 255., 255.5,
        256., 4503599627370495.5, 4503599627370496., 9007199254740991., 9007199254740992., 1e19,
    ] {
        let value: f64 = value;
        patterns.push(value.to_bits());
        patterns.push((-value).to_bits());
    }
    let mut state: u64 = 0x9e37_79b9_7f4a_7c15;
    for _ in 0..20000 {
        state ^= state << 13;
        state ^= state >> 7;
        state ^= state << 17;
        patterns.push(state);
        // Numbers of everyday size are rare among all patterns.
        patterns.push((f64::from_bits(state) % 1000.).to_bits());
    }
    patterns
}

#[test]
fn order_key_agrees_with_comparison() {
    let patterns = patterns();
    for pair in patterns.windows(2) {
        let (a, b) = (f64::from_bits(pair[0]), f64::from_bits(pair[1]));
        if a.is_nan() || b.is_nan() {
            continue;
        }
        assert_eq!(order_key(pair[0]) < order_key(pair[1]), a < b, "{} and {}", a, b);
        assert_eq!(order_key(pair[0]) == order_key(pair[1]), a == b, "{} and {}", a, b);
    }
}

#[test]
fn order_key_agrees_with_comparison_to_zero() {
    for bits in patterns() {
        let value = f64::from_bits(bits);
        assert_eq!(order_key(bits) >= 0, value >= 0., "{}", value);
        assert_eq!(order_key(bits) > 0, value > 0., "{}", value);
    }
}

#[test]
fn is_nonzero_agrees_with_comparison() {
    for bits in patterns() {
        let value = f64::from_bits(bits);
        assert_eq!(is_nonzero(bits), value != 0., "{}", value);
    }
}

#[test]
fn approx_zero_agrees_with_the_tolerance() {
    for bits in patterns() {
        let value = f64::from_bits(bits);
        assert_eq!(approx_zero(bits), value.abs() < 0.00001, "{}", value);
    }
}

#[test]
fn approx_zero_at_the_tolerance() {
    assert!(!approx_zero(0.00001f64.to_bits()));
    assert!(!approx_zero((-0.00001f64).to_bits()));
    assert!(approx_zero(0.000009999999f64.to_bits()));
    assert!(approx_zero(0.00001f64.to_bits() - 1));
    assert!(approx_zero(0f64.to_bits()));
    assert!(approx_zero((-0f64).to_bits()));
    assert!(!approx_zero(f64::NAN.to_bits()));
}

#[test]
fn approx_equals_difference_less_than_epsilon() {
    assert_eq!(approx_zero((0.000000001f64 - 0.0000000001).to_bits()), true);
}

#[test]
fn approx_equals_difference_larger_than_epsilon() {
    assert_eq!(approx_zero((0.00001f64 - 0.00002).to_bits()), false);
}

#[test]
fn approx_equals_is_reflexive_and_symmetric() {
    let numbers: [f64; 8] = [0., -0., 1., -2.5, 1e-7, 123456.789, -1e300, 5e-324];
    for a in numbers {
        assert!(approx_zero((a - a).to_bits()));
        for b in numbers {
            assert_eq!(
                approx_zero((a - b).to_bits()),
                approx_zero((b - a).to_bits()),
                "{} and {}",
                a,
                b
            );
        }
    }
}

#[test]
fn rounds_down_to_even_agrees_with_rounding_down() {
    for bits in patterns() {
        let value = f64::from_bits(bits);
        let expected = value.is_finite() && value.floor() % 2. == 0.;
        assert_eq!(rounds_down_to_even(bits), expected, "{}", value);
    }
}

#[test]
fn rounds_down_to_even_by_example() {
    for (value, expected) in [
        (0., true),
        (-0., true),
        (0.5, true),
        (0.999, true),
        (1., false),
        (1.999, false),
        (2., true),
        (-0.5, false),
        (-1., false),
        (-1.5, true),
        (-2., true),
        (-2.5, false),
    ] {
        let value: f64 = value;
        assert_eq!(rounds_down_to_even(value.to_bits()), expected, "{}", value);
    }
}

#[test]
fn level_agrees_with_limiting_and_rounding() {
    for bits in patterns() {
        let value = f64::from_bits(bits);
        let limited = if value < 0. {
            0.
        } else if value > 255. {
            255.
        } else {
            value
        };
        assert_eq!(level(bits), limited.round() as u8, "{}", value);
    }
}

#[test]
fn level_by_example() {
    for (value, expected) in [
        (0., 0),
        (0.49999999999999994, 0),
        (0.5, 1),
        (1., 1),
        (1.5, 2),
        (2.5, 3),
        (127.5, 128),
        (254.49999999999997, 254),
        (254.5, 255),
        (255., 255),
        (256., 255),
        (1e300, 255),
        (-0.1, 0),
        (-0.5, 0),
        (-1e300, 0),
    ] {
        let value: f64 = value;
        assert_eq!(level(value.to_bits()), expected, "{}", value);
    }
}

#[test]
fn named_patterns_are_the_numbers_they_stand_for() {
    assert_eq!(EPSILON, 0.00001f64.to_bits());
    assert_eq!(FULL_SCALE, 255f64.to_bits());
    assert_eq!(INFINITY, f64::INFINITY.to_bits());
    assert_eq!(SIGN_BIT, (-0f64).to_bits());
    assert_eq!(SIGN_BIT | INFINITY, f64::NEG_INFINITY.to_bits());
    assert_eq!(FRACTION_RANGE, 1 << 52);
    assert_eq!(FRACTION_RANGE, f64::MIN_POSITIVE.to_bits());
}

/// The roots of `a·x² + b·x + c`.
fn quadratic(a: f64, b: f64, c: f64) -> Option<(f64, f64)> {
    let discriminant = b.powi(2) - 4. * a * c;
    let x1 = (-b - discriminant.sqrt()) / (2. * a);
    let x2 = (-b + discriminant.sqrt()) / (2. * a);
    ordered_roots(discriminant.to_bits(), x1.to_bits(), x2.to_bits())
        .map(|(lower, upper)| (f64::from_bits(lower), f64::from_bits(upper)))
}

fn assert_ae(left: f64, right: f64) {
    assert!(
        approx_zero((left - right).to_bits()),
        "left: {}, right: {}",
        left,
        right
    );
}

#[test]
fn quadratic_two_roots() {
    let roots = quadratic(2., -5., 0.);
    let (x1, x2) = roots.expect("Expected roots");
    assert_ae(x1, 0.);
    assert_ae(x2, 2.5);
}

#[test]
fn quadratic_single_root() {
    let roots = quadratic(2., 4., 2.);
    let (x1, x2) = roots.expect("Expected roots");
    assert_ae(x1, -1.);
    assert_ae(x2, -1.);
}

#[test]
fn quadratic_zero_roots() {
    let roots = quadratic(2., 4., 9.);
    assert!(roots.is_none());
}

#[test]
fn quadratic_large_floating_point_numbers() {
    let roots = quadratic(-299.45, 392348.998, 889.000987);
    let (x1, x2) = roots.expect("Expected roots");
    assert_ae(x1, -0.00227);
    assert_ae(x2, 1310.23435);
}

#[test]
fn ordered_roots_by_example() {
    let bits = |value: f64| value.to_bits();
    assert_eq!(ordered_roots(bits(-1.), bits(1.), bits(2.)), None);
    assert_eq!(ordered_roots(bits(-1e-300), bits(1.), bits(2.)), None);
    assert_eq!(ordered_roots(bits(0.), bits(3.), bits(3.)), Some((bits(3.), bits(3.))));
    assert_eq!(ordered_roots(bits(-0.), bits(3.), bits(3.)), Some((bits(3.), bits(3.))));
    assert_eq!(ordered_roots(bits(4.), bits(1.), bits(2.)), Some((bits(1.), bits(2.))));
    assert_eq!(ordered_roots(bits(4.), bits(2.), bits(1.)), Some((bits(1.), bits(2.))));
    assert_eq!(ordered_roots(bits(4.), bits(-2.), bits(-7.)), Some((bits(-7.), bits(-2.))));
}
