use speculative_decoding_bench::cost::MeasuredSpeedup;
use speculative_decoding_bench::fixed::{divide, multiply, scale_by_draw, Magnitude, ONE};
use speculative_decoding_bench::rng::DRAWS;
use speculative_decoding_bench::text::{
    aligned_string, fixed_string, magnitude_string, nat_string, optional_string, speedup_string,
};

#[test]
fn naturals() {
    assert_eq!(nat_string(0), "0");
    assert_eq!(nat_string(9), "9");
    assert_eq!(nat_string(10), "10");
    assert_eq!(nat_string(1_234_567_890), "1234567890");
    assert_eq!(
        nat_string(u128::MAX),
        "340282366920938463463374607431768211455"
    );
}

/// The double nearest to a number of units.
fn nearest(v: u128) -> f64 {
    let one = u128::from(ONE);
    format!("{}.{:018}", v / one, v % one).parse().unwrap()
}

#[test]
fn numbers_print_as_their_nearest_double() {
    let mut v: u128 = 1;
    let mut values = vec![0, 1, 5, u128::MAX, u128::MAX / 3, 1_898_750_000_000_000_000];
    for i in 0..40 {
        v = v * 8 + 5 * (i % 3);
        values.push(v);
        values.push(v + 1);
        values.push((1 << i) * 500_000_000_000_000);
        values.push((1 << i) * 500_000_000_000_001);
    }
    for v in values {
        let x = nearest(v);
        assert_eq!(magnitude_string(v, 2), format!("{x:.2}"), "{v}");
        assert_eq!(magnitude_string(v, 3), format!("{x:.3}"), "{v}");
        assert_eq!(magnitude_string(v, 4), format!("{x:.4}"), "{v}");
        assert_eq!(magnitude_string(v, 6), format!("{x:.6}"), "{v}");
        assert_eq!(magnitude_string(v, 18), format!("{x:.18}"), "{v}");
    }
}

#[test]
fn fixed_point_text() {
    assert_eq!(fixed_string(0, 2), "0.00");
    assert_eq!(fixed_string(1_083_333_333_333_333_333, 3), "1.083");
    // A tie that is a double goes to the even digit; the double nearest to one
    // that is not lies on one side.
    assert_eq!(fixed_string(1_968_750_000_000_000_000, 4), "1.9688");
    assert_eq!(fixed_string(1_898_750_000_000_000_000, 4), "1.8987");
    assert_eq!(fixed_string(999_999_999_999_999_999, 6), "1.000000");
    assert_eq!(fixed_string(-250_000_000_000_000_000, 1), "-0.2");
    assert_eq!(fixed_string(-1, 3), "-0.000");
    assert_eq!(
        fixed_string(i128::MIN, 18),
        format!("-{:.18}", nearest(1 << 127))
    );
    assert_eq!(optional_string(None, 4), "NaN");
    assert_eq!(optional_string(Some(u128::from(ONE)), 4), "1.0000");
}

#[test]
fn speedup_text() {
    let finite = |negative, whole, units| MeasuredSpeedup::Finite {
        negative,
        magnitude: Magnitude::new(whole, units),
    };
    assert_eq!(speedup_string(&MeasuredSpeedup::Undefined, 3), "NaN");
    assert_eq!(speedup_string(&MeasuredSpeedup::Infinite, 3), "inf");
    assert_eq!(speedup_string(&finite(false, 2, ONE / 4), 3), "2.250");
    assert_eq!(speedup_string(&finite(true, 2, ONE / 4), 3), "-2.250");
    for whole in [1 << 53, (1 << 53) + 1, (1 << 54) + 2, u128::MAX >> 1, u128::MAX] {
        for units in [0, 1] {
            let x: f64 = format!("{whole}.{units:018}").parse().unwrap();
            assert_eq!(
                speedup_string(&finite(false, whole, units), 3),
                format!("{x:.3}")
            );
        }
    }
}

#[test]
fn alignment() {
    assert_eq!(aligned_string("k", 3), "  k");
    assert_eq!(aligned_string("abcd", 3), "abcd");
    assert_eq!(aligned_string("", 2), "  ");
}

#[test]
fn arithmetic_rounds_down() {
    assert_eq!(divide(2, 3), 666_666_666_666_666_666);
    assert_eq!(divide(0, 7), 0);
    assert_eq!(divide(1 << 100, 1 << 101), 500_000_000_000_000_000);
    assert_eq!(multiply(1, 10), 0);
    assert_eq!(multiply(ONE, u128::MAX), u128::MAX);
    assert_eq!(multiply(ONE / 2, 7), 3);
    assert_eq!(scale_by_draw(u128::MAX, 0), 0);
    assert_eq!(scale_by_draw(u128::MAX, DRAWS / 2), u128::MAX / 2);
    assert_eq!(scale_by_draw(10, DRAWS - 1), 9);
}
