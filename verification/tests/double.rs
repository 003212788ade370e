use scuisei_rs::double::{sum_at_most_epsilon, Double};
use scuisei_rs::order::{sort, Ranked};

fn double(value: f64) -> Double {
    Double::from_bits(value.to_bits())
}

fn samples() -> Vec<f64> {
    vec![
        0.0,
        -0.0,
        1.0,
        -1.0,
        0.1,
        0.2,
        1.0e-310,
        -1.0e-310,
        f64::MIN_POSITIVE,
        f64::EPSILON,
        f64::MAX,
        f64::MIN,
        f64::INFINITY,
        f64::NEG_INFINITY,
        f64::NAN,
        -f64::NAN,
        90.0,
        796.0,
    ]
}

#[test]
fn comparisons_are_those_of_numbers() {
    for a in samples() {
        for b in samples() {
            let (x, y) = (double(a), double(b));
            assert_eq!(x.lt(y), a < b, "{a} < {b}");
            assert_eq!(x.le(y), a <= b, "{a} <= {b}");
            assert_eq!(x.gt(y), a > b, "{a} > {b}");
            assert_eq!(x.ge(y), a >= b, "{a} >= {b}");
            assert_eq!(x.total_lt(y), a.total_cmp(&b).is_lt(), "{a} before {b}");
            assert_eq!(x.is_no_later(y), a.total_cmp(&b).is_le(), "{a} no later than {b}");
        }
        assert_eq!(double(a).is_nan(), a.is_nan());
        assert_eq!(double(a).is_finite(), a.is_finite());
    }
}

#[test]
fn sorting_follows_the_total_order() {
    let mut expected = samples();
    expected.sort_by(f64::total_cmp);
    let given: Vec<Double> = samples().into_iter().map(double).collect();
    let sorted: Vec<u64> = sort(&given).into_iter().map(|value| value.to_bits()).collect();
    let expected: Vec<u64> = expected.into_iter().map(f64::to_bits).collect();
    assert_eq!(sorted, expected);
}

#[test]
fn integers_become_the_same_number() {
    for n in [0_u64, 1, 2, 3, 796, 65_280, u64::from(u32::MAX), (1 << 53) - 1] {
        assert_eq!(Double::from_u64(n).to_bits(), (n as f64).to_bits());
    }
}

#[test]
fn constants_are_the_numbers_they_are_named_after() {
    assert_eq!(Double::zero().to_bits(), 0.0_f64.to_bits());
    assert_eq!(Double::one().to_bits(), 1.0_f64.to_bits());
    assert_eq!(Double::infinity().to_bits(), f64::INFINITY.to_bits());
}

#[test]
fn tiny_sums_are_told_from_others() {
    let next = |value: f64| f64::from_bits(value.to_bits() + 1);
    let before = |value: f64| f64::from_bits(value.to_bits() - 1);
    let half = f64::EPSILON / 2.0;
    let mut values = vec![
        0.0,
        -0.0,
        5.0e-324,
        1.0e-310,
        f64::MIN_POSITIVE,
        half,
        next(half),
        next(next(half)),
        before(half),
        half / 2.0,
        f64::EPSILON,
        before(f64::EPSILON),
        next(f64::EPSILON),
        f64::EPSILON * f64::EPSILON,
        0.3,
        0.7,
        1.0e300,
    ];
    for power in 100..110 {
        values.push(2.0_f64.powi(-power));
        values.push(next(2.0_f64.powi(-power)));
    }
    for a in values.iter().copied() {
        for b in values.iter().copied() {
            assert_eq!(
                sum_at_most_epsilon(double(a), double(b)),
                a + b <= f64::EPSILON,
                "{a:e} + {b:e}"
            );
        }
    }
}

#[test]
fn equality_is_numeric() {
    let double = |value: f64| Double::from_bits(value.to_bits());
    for a in [0.0, -0.0, 1.5, -1.5, f64::INFINITY, f64::NAN] {
        for b in [0.0, -0.0, 1.5, -1.5, f64::INFINITY, f64::NAN] {
            assert_eq!(double(a) == double(b), a == b, "{a} {b}");
        }
    }
}
