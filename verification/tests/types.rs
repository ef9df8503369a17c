use foil::metric::{shared, Metric, PeakMemory, Time, Unit};
use foil::posterior::{Draw, Shrinkage};
use foil::scalar::{not_a_number, Scalar};
use foil::summary::{Interval, Quantiles, QuantilesError, Range};

fn scalar(number: f64) -> Scalar {
    Scalar {
        bits: number.to_bits(),
    }
}

fn number(scalar: Scalar) -> f64 {
    f64::from_bits(scalar.bits)
}

#[test]
fn time_steps_down_through_si_prefixes() {
    for (seconds, scale, symbol) in [
        (12.0, 1.0, "s"),
        (1.0, 1.0, "s"),
        (0.999, 1e3, "ms"),
        (1e-3, 1e3, "ms"),
        (0.5e-3, 1e6, "µs"),
        (1e-6, 1e6, "µs"),
        (0.5e-6, 1e9, "ns"),
        (0.0, 1e9, "ns"),
    ] {
        let unit = Time::display_unit(Time::from_base(scalar(seconds)));

        assert_eq!(
            unit,
            Unit {
                scale: scalar(scale),
                symbol
            },
            "{seconds}."
        );
    }
}

#[test]
fn memory_steps_up_through_decimal_prefixes() {
    for (bytes, scale, symbol) in [
        (3e9, 1e-9, "GB"),
        (1e9, 1e-9, "GB"),
        (5e8, 1e-6, "MB"),
        (1e6, 1e-6, "MB"),
        (2e3, 1e-3, "KB"),
        (1e3, 1e-3, "KB"),
        (999.0, 1.0, "B"),
        (0.0, 1.0, "B"),
    ] {
        let unit = PeakMemory::display_unit(PeakMemory::from_base(scalar(bytes)));

        assert_eq!(
            unit,
            Unit {
                scale: scalar(scale),
                symbol
            },
            "{bytes}."
        );
    }
}

#[test]
fn a_fall_scales_like_a_rise() {
    let fall = Time::display_unit(Time::from_base(scalar(-2e-3)));

    assert_eq!(fall, Time::display_unit(Time::from_base(scalar(2e-3))));
}

#[test]
fn shrinkage_rejects_a_value_that_is_not_a_count() {
    for rejected in [f64::NAN, f64::INFINITY, -1.0] {
        assert!(Shrinkage::new(scalar(rejected)).is_err(), "{rejected}");
    }

    assert_eq!(Shrinkage::new(scalar(0.0)).ok(), Some(Shrinkage::none()));
    let error = Shrinkage::new(scalar(-1.0)).err().unwrap();
    assert_eq!(
        error.message("-1"),
        "Shrinkage must be finite and nonnegative, got -1."
    );
    assert_eq!(number(Shrinkage::new(scalar(2.5)).unwrap().get()), 2.5);
    assert!(Shrinkage::new(scalar(-0.0)).unwrap().is_none());
    assert!(!Shrinkage::new(scalar(1e-300)).unwrap().is_none());
}

#[test]
fn an_interval_lies_strictly_between_zero_and_one() {
    for rejected in [
        0.0,
        1.0,
        -0.5,
        1.5,
        f64::NAN,
        f64::INFINITY,
        f64::NEG_INFINITY,
        -0.0,
    ] {
        assert!(Interval::new(scalar(rejected)).is_err(), "{rejected}");
    }
    for accepted in [f64::MIN_POSITIVE, 5e-324, 0.5, 1.0 - f64::EPSILON / 2.0] {
        assert_eq!(
            number(Interval::new(scalar(accepted)).unwrap().get()),
            accepted
        );
    }
    let error = Interval::new(scalar(1.5)).err().unwrap();
    assert_eq!(
        error.message("1.5"),
        "Interval width must be between 0 and 1, got 1.5."
    );
    assert_eq!(not_a_number("x"), "`x` is not a number.");
}

#[test]
fn the_larger_measurement_chooses_the_shared_unit() {
    let unit = shared(
        Time::from_base(scalar(2e-3)),
        Time::from_base(scalar(-3.0)),
    );
    assert_eq!(unit.symbol, "s");
    let unit = shared(
        Time::from_base(scalar(2e-3)),
        Time::from_base(scalar(1e-6)),
    );
    assert_eq!(unit.symbol, "ms");
}

const NUMBERS: [f64; 13] = [
    f64::NEG_INFINITY,
    -1.5e300,
    -1.0,
    -1e-300,
    -5e-324,
    -0.0,
    0.0,
    5e-324,
    1e-300,
    1.0,
    2.0,
    1.5e300,
    f64::INFINITY,
];

#[test]
fn scalars_compare_as_the_numbers_do() {
    for one in NUMBERS {
        assert_eq!(scalar(one).is_nan(), one.is_nan());
        assert_eq!(scalar(one).is_finite(), one.is_finite());
        assert_eq!(scalar(one).is_zero(), one == 0.0);
        for other in NUMBERS {
            assert_eq!(
                scalar(one).is_below(scalar(other)),
                one < other,
                "{one} {other}"
            );
            assert_eq!(scalar(one) == scalar(other), one == other, "{one} {other}");
            assert_eq!(
                scalar(one).rank() < scalar(other).rank(),
                one.total_cmp(&other).is_lt(),
                "{one} {other}"
            );
        }
        assert!(!scalar(one).is_below(scalar(f64::NAN)));
        assert!(!scalar(f64::NAN).is_below(scalar(one)));
        assert_eq!(Scalar::from_rank(scalar(one).rank()).bits, one.to_bits());
    }
    assert!(scalar(f64::NAN).is_nan());
    assert!(!scalar(f64::NAN).is_finite());
}

#[test]
fn quantiles_order_their_values() {
    let shuffled = [2.0, -1.0, 0.0, f64::INFINITY, -0.0, 1.0, -1e-300];
    let series = Quantiles::new(shuffled.iter().map(|&value| scalar(value)).collect())
        .ok()
        .unwrap();
    let mut expected = shuffled.to_vec();
    expected.sort_by(f64::total_cmp);
    assert_eq!(series.len(), expected.len());
    for (position, value) in expected.iter().enumerate() {
        assert_eq!(series.value(position).bits, value.to_bits());
    }
    for threshold in NUMBERS {
        assert_eq!(
            series.count_below(scalar(threshold)),
            expected.partition_point(|&value| value < threshold),
            "{threshold}"
        );
    }
}

#[test]
fn quantiles_need_numbers() {
    assert_eq!(
        Quantiles::new(Vec::new()).err(),
        Some(QuantilesError::Empty)
    );
    assert_eq!(
        Quantiles::new(vec![scalar(1.0), scalar(f64::NAN)]).err(),
        Some(QuantilesError::NotANumber)
    );
    assert_eq!(QuantilesError::Empty.message(), "Posterior is empty.");
    assert_eq!(
        QuantilesError::NotANumber.message(),
        "Posterior contains NaN."
    );
}

#[test]
fn a_range_maps_both_ends() {
    let range = Range { lower: 1, upper: 2 };
    assert_eq!(
        range.map(|end| end * 10),
        Range {
            lower: 10,
            upper: 20
        }
    );
}

#[test]
fn values_are_equal_where_their_numbers_are() {
    let time = |seconds| Time::from_base(scalar(seconds));
    assert!(scalar(f64::NAN) != scalar(f64::NAN));
    assert_eq!(Shrinkage::new(scalar(-0.0)).ok(), Some(Shrinkage::none()));
    assert!(Shrinkage::new(scalar(1.0)).ok() != Some(Shrinkage::none()));
    assert_eq!(Interval::new(scalar(0.5)), Interval::new(scalar(0.5)));
    assert_eq!(time(0.0), time(-0.0));
    assert!(time(f64::NAN) != time(f64::NAN));
    assert_eq!(
        PeakMemory::from_base(scalar(-0.0)),
        PeakMemory::from_base(scalar(0.0))
    );
    let range = |upper| Range {
        lower: scalar(0.0),
        upper: scalar(upper),
    };
    assert_eq!(range(0.0), range(-0.0));
    assert!(range(1.0) != range(2.0));
    assert!(range(f64::NAN) != range(f64::NAN));
    let draw = |candidate| Draw {
        baseline: time(-0.0),
        candidate: time(candidate),
    };
    assert_eq!(draw(0.0), draw(-0.0));
    assert!(draw(f64::NAN) != draw(f64::NAN));
}
