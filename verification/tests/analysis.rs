use foil::analysis::posterior_generator;
use foil::measurements::{read_measurements, seconds_fields, MeasurementsCsv, Reading};
use foil::metric::{shared, Metric, Time};
use foil::posterior::{Bootstrap, BootstrapStep, Draw, Posterior, Shrinkage, SummaryError};
use foil::repetition::{Pair, Repetition, Repetitions, RunOrder};
use foil::scalar::Scalar;
use foil::report::{ShownBounds, ShownSummary};
use foil::summary::{Interval, Level, QuantilesError, Series, Summary};
use rand_distr::{Distribution, Exp1, Gamma};
use std::time::Duration;

const MEASUREMENTS: &str = "repetition,order,baseline_seconds,candidate_seconds\n\
    1,candidate_first,1,1.04\n\
    2,baseline_first,1.08,1.06\n\
    3,baseline_first,1.13,1.19\n\
    4,candidate_first,1.18,1.17\n\
    5,candidate_first,1.27,1.31\n\
    6,baseline_first,1.31,1.30\n\
    7,candidate_first,1.39,1.46\n\
    8,baseline_first,1.44,1.41\n\
    9,baseline_first,1.53,1.58\n\
    10,candidate_first,1.59,1.61\n";

fn scalar(number: f64) -> Scalar {
    Scalar {
        bits: number.to_bits(),
    }
}

fn number(scalar: Scalar) -> f64 {
    f64::from_bits(scalar.bits)
}

fn repetitions() -> Repetitions<Duration> {
    read(MEASUREMENTS)
}

fn read(text: &str) -> Repetitions<Duration> {
    let lines: Vec<_> = text
        .lines()
        .map(|line| Some(line.to_owned()))
        .collect();
    let reading = |field: String| {
        let seconds: f64 = field.parse().unwrap();
        Reading::Number {
            seconds: scalar(seconds),
            elapsed: Duration::try_from_secs_f64(seconds).ok(),
        }
    };
    let readings = text
        .lines()
        .skip(1)
        .map(|line| {
            let (baseline, candidate) = seconds_fields(line).unwrap();
            (reading(baseline), reading(candidate))
        })
        .collect();
    read_measurements(&lines, &readings).ok().unwrap()
}

/// The intercept of a weighted regression on the run position and the order.
fn intercept(rows: &[(f64, f64, f64, f64)], prior: f64) -> f64 {
    let (mut weights, mut runs, mut orders, mut runs_runs, mut runs_orders) =
        (0.0, 0.0, 0.0, 0.0, 0.0);
    let (mut values, mut runs_values, mut orders_values) = (0.0, 0.0, 0.0);
    for &(weight, run, order, value) in rows {
        weights += weight;
        runs += weight * run;
        orders += weight * order;
        runs_runs += weight * run * run;
        runs_orders += weight * run * order;
        values += weight * value;
        runs_values += weight * run * value;
        orders_values += weight * order * value;
    }
    let total = weights + prior;
    let run_run = runs_runs - runs * runs / total;
    let run_order = runs_orders - runs * orders / total;
    let order_order = weights - orders * orders / total;
    let run_value = runs_values - runs * values / total;
    let order_value = orders_values - orders * values / total;
    let determinant = run_run * order_order - run_order * run_order;
    let run_slope = (run_value * order_order - order_value * run_order) / determinant;
    let order_slope = (order_value * run_run - run_value * run_order) / determinant;
    (values - run_slope * runs - order_slope * orders) / total
}

fn bootstrap(repetitions: &Repetitions<Duration>, shrinkage: f64, draws: usize) -> Posterior<Time> {
    let mut generator = posterior_generator(0);
    let shrinkage = Shrinkage::new(scalar(shrinkage)).unwrap();
    let prior = if shrinkage.is_none() {
        None
    } else {
        Some(Gamma::new(number(shrinkage.get()), 1.0).unwrap())
    };
    let center = (repetitions.len() - 1) as f64 / 2.0;
    let mut collected = Bootstrap::<Time>::new(draws);
    loop {
        match collected.next() {
            BootstrapStep::Check => collected.pass(),
            BootstrapStep::Finish => return collected.finish(),
            BootstrapStep::Sample => {
                let mut midpoints = Vec::new();
                let mut differences = Vec::new();
                for position in 0..repetitions.len() {
                    let repetition = repetitions.get(position);
                    let weight: f64 = Exp1.sample(&mut generator);
                    let baseline = repetition.outputs.baseline.as_secs_f64();
                    let candidate = repetition.outputs.candidate.as_secs_f64();
                    let run = (position as f64 - center) / center;
                    let order = f64::from(repetition.order.effect_code());
                    midpoints.push((weight, run, order, 0.5 * (baseline + candidate)));
                    differences.push((weight, run, order, candidate - baseline));
                }
                let midpoint = intercept(&midpoints, 0.0);
                let weight = prior
                    .as_ref()
                    .map_or(0.0, |prior| prior.sample(&mut generator));
                let difference = intercept(&differences, weight);
                collected.sample(Draw {
                    baseline: Time::from_base(scalar(midpoint - 0.5 * difference)),
                    candidate: Time::from_base(scalar(midpoint + 0.5 * difference)),
                });
            }
        }
    }
}

#[test]
fn fixed_measurements_produce_deterministic_unshrunk_and_shrunk_posteriors() {
    const UNSHRUNK: [(f64, f64); 8] = [
        (1.2897790127661646, 1.3140883568234745),
        (1.292883484982506, 1.3266471431710283),
        (1.2879932756550871, 1.2945836174112333),
        (1.2823193280893046, 1.280692753461745),
        (1.2916998674200741, 1.3035345997982273),
        (1.2928833190008737, 1.3205179916667944),
        (1.2911119206996142, 1.311784563265395),
        (1.2897803634958591, 1.311705417840889),
    ];
    const SHRUNK: [(f64, f64); 8] = [
        (1.2923191661142508, 1.3115482034753883),
        (1.3004709405338217, 1.323672830397041),
        (1.291195784730286, 1.3034427996514897),
        (1.299741227321653, 1.3092432191986378),
        (1.2981568918715902, 1.3104455855880441),
        (1.2945052725350779, 1.3083912114299314),
        (1.296645936301807, 1.309693976413047),
        (1.293723742091815, 1.303450869465768),
    ];
    let repetitions = repetitions();
    let values = |posterior: &Posterior<Time>| {
        posterior
            .draws()
            .iter()
            .map(|draw| (number(draw.baseline.base()), number(draw.candidate.base())))
            .collect::<Vec<_>>()
    };
    let unshrunk = bootstrap(&repetitions, 0.0, 8);
    assert_eq!(values(&unshrunk), values(&bootstrap(&repetitions, 0.0, 8)));
    assert_eq!(values(&unshrunk), UNSHRUNK);
    let shrunk = bootstrap(&repetitions, 5.0, 8);
    assert_eq!(values(&shrunk), SHRUNK);
    for posterior in [&unshrunk, &shrunk] {
        let summary = summarize(posterior, &[0.5, 0.8, 0.9]).ok().unwrap();
        assert_eq!(summary.change.intervals.len(), 3);
    }
}

fn subtract(candidate: Scalar, baseline: Scalar) -> Scalar {
    scalar(number(candidate) - number(baseline))
}

fn percent(candidate: Scalar, baseline: Scalar) -> Scalar {
    scalar(100.0 * (number(candidate) / number(baseline) - 1.0))
}

fn locate(len: usize, level: Level) -> (usize, usize, Scalar) {
    let tail = |interval: Interval| (1.0 - number(interval.get())) / 2.0;
    let probability = match level {
        Level::Median => 0.5,
        Level::Lower(interval) => tail(interval),
        Level::Upper(interval) => 1.0 - tail(interval),
    };
    let h = (len - 1) as f64 * probability;
    let lo = h.floor() as usize;
    (lo, h.ceil() as usize, scalar(h - lo as f64))
}

fn blend(lower: Scalar, upper: Scalar, part: Scalar) -> Scalar {
    scalar(number(lower) + number(part) * (number(upper) - number(lower)))
}

fn share(part: usize, whole: usize) -> Scalar {
    scalar(part as f64 / whole as f64)
}

fn summarize(posterior: &Posterior<Time>, widths: &[f64]) -> Result<Summary<Time>, SummaryError> {
    let intervals = widths
        .iter()
        .map(|&width| Interval::new(scalar(width)).unwrap())
        .collect();
    posterior.summarize(&intervals, subtract, percent, locate, blend, share)
}

#[test]
fn more_shrinkage_reduces_the_typical_adjusted_difference() {
    let repetitions = repetitions();
    let median_difference = |shrinkage| {
        let mut differences: Vec<f64> = bootstrap(&repetitions, shrinkage, 4_000)
            .draws()
            .iter()
            .map(|draw| number(draw.absolute(subtract).base()).abs())
            .collect();
        differences.sort_by(f64::total_cmp);
        differences[differences.len() / 2]
    };
    let none = median_difference(0.0);
    let some = median_difference(5.0);
    let lots = median_difference(50.0);
    assert!(lots < some && some < none, "{lots} < {some} < {none}");
}

#[test]
fn an_empty_interval_set_is_rejected() {
    let posterior = bootstrap(&repetitions(), 0.0, 8);
    let error = summarize(&posterior, &[]).err().unwrap();
    assert_eq!(error, SummaryError::NoIntervals);
    assert!(error.message().contains("interval"));
}

#[test]
fn a_summary_orders_its_series() {
    let posterior = bootstrap(&repetitions(), 0.0, 8);
    let series = Series::from_draws(posterior.draws(), subtract, percent)
        .ok()
        .unwrap();
    assert_eq!(series.baseline.len(), 8);
    assert_eq!(series.absolute.count_below(scalar(0.0)), 1);
    let relative = series.relative.unwrap();
    for position in 1..8 {
        assert!(number(relative.value(position - 1)) <= number(relative.value(position)));
    }
}

#[test]
fn a_change_that_is_not_a_number_is_refused() {
    let posterior = bootstrap(&repetitions(), 0.0, 8);
    let intervals = vec![Interval::new(scalar(0.8)).unwrap()];
    let nan = |_: Scalar, _: Scalar| scalar(f64::NAN);
    for error in [
        posterior.summarize(&intervals, nan, percent, locate, blend, share),
        posterior.summarize(&intervals, subtract, nan, locate, blend, share),
    ]
    .map(|result| result.err())
    {
        assert_eq!(
            error,
            Some(SummaryError::Unordered(QuantilesError::NotANumber))
        );
        assert_eq!(error.unwrap().message(), "Posterior contains NaN.");
    }
}

#[test]
fn a_summary_ignores_the_order_of_its_draws() {
    let posterior = bootstrap(&repetitions(), 0.0, 50);
    let intervals: Vec<_> = [0.5, 0.98]
        .iter()
        .map(|&width| Interval::new(scalar(width)).unwrap())
        .collect();
    let summary = |draws: &[Draw<Time>]| {
        Summary::from_draws(draws, &intervals, subtract, percent, locate, blend, share)
            .ok()
            .unwrap()
    };
    let mut draws = posterior.draws().to_vec();
    let straight = summary(&draws);
    draws.reverse();
    draws.swap(3, 17);
    assert_eq!(summary(&draws), straight);
    assert_eq!(straight.draws, 50);
    assert_eq!(straight.change.intervals.len(), 2);
    assert_eq!(straight.change.intervals[1].interval, intervals[1]);
    draws.pop();
    assert_ne!(summary(&draws), straight);
}

#[test]
fn wider_intervals_hold_narrower_ones() {
    for draws in [1, 2, 8, 97] {
        let posterior = bootstrap(&repetitions(), 0.0, draws);
        let series = Series::from_draws(posterior.draws(), subtract, percent)
            .ok()
            .unwrap();
        let at = |level| number(series.absolute.at(level, locate, blend));
        let least = number(series.absolute.value(0));
        let greatest = number(series.absolute.value(draws - 1));
        let (mut lower, mut upper) = (at(Level::Median), at(Level::Median));
        for width in [0.01, 0.5, 0.8, 0.98, 0.999] {
            let interval = Interval::new(scalar(width)).unwrap();
            let (wider_lower, wider_upper) = (at(Level::Lower(interval)), at(Level::Upper(interval)));
            assert!(least <= wider_lower && wider_lower <= lower, "{draws} {width}");
            assert!(upper <= wider_upper && wider_upper <= greatest, "{draws} {width}");
            (lower, upper) = (wider_lower, wider_upper);
        }
    }
}

#[test]
fn quantiles_lie_between_their_values() {
    let draw = |candidate| Draw {
        baseline: Time::from_base(scalar(0.0)),
        candidate: Time::from_base(scalar(candidate)),
    };
    let draws = [draw(4.0), draw(1.0), draw(2.0), draw(8.0)];
    let series = Series::from_draws(&draws, subtract, percent).ok().unwrap();
    let half = Interval::new(scalar(0.5)).unwrap();
    let at = |level| number(series.absolute.at(level, locate, blend));
    assert_eq!(at(Level::Median), 3.0);
    assert_eq!(at(Level::Lower(half)), 1.75);
    assert_eq!(at(Level::Upper(half)), 5.0);
}

#[test]
fn one_zero_baseline_leaves_relative_changes_out() {
    let draw = |baseline, candidate| Draw {
        baseline: Time::from_base(scalar(baseline)),
        candidate: Time::from_base(scalar(candidate)),
    };
    let draws = [draw(2.0, 3.0), draw(0.0, 1.0), draw(4.0, 3.0)];
    let intervals = vec![Interval::new(scalar(0.5)).unwrap()];
    let summary = Summary::from_draws(&draws, &intervals, subtract, percent, locate, blend, share)
        .ok()
        .unwrap();
    assert_eq!(summary.change.relative_median, None);
    assert_eq!(summary.change.intervals[0].relative, None);
    assert_eq!(summary.change.absolute_median, Time::from_base(scalar(1.0)));
    assert_eq!(summary.baseline, Time::from_base(scalar(2.0)));
    assert_eq!(number(summary.change.intervals[0].absolute.lower.base()), 0.0);
    assert_eq!(number(summary.probability_candidate_lower), 1.0 / 3.0);

    let summary = Summary::from_draws(
        &[draws[0], draws[2]],
        &intervals,
        subtract,
        percent,
        locate,
        blend,
        share,
    )
    .ok()
    .unwrap();
    assert_eq!(summary.change.relative_median.map(number), Some(12.5));
    assert!(summary.change.intervals[0].relative.is_some());
}

fn signed<M: Metric>(one: M, other: M) -> String {
    let unit = shared(one, other);
    format!("{:+.1}{}", number(one.base()) * number(unit.scale), unit.symbol)
}

fn plain<M: Metric>(one: M, other: M) -> String {
    let unit = shared(one, other);
    format!("{:.1}{}", number(one.base()) * number(unit.scale), unit.symbol)
}

fn shown(summary: &Summary<Time>) -> ShownSummary {
    let change = &summary.change;
    let probability = number(summary.probability_candidate_lower);
    ShownSummary {
        baseline: plain(summary.baseline, summary.candidate),
        candidate: plain(summary.candidate, summary.baseline),
        absolute: signed(change.absolute_median, change.absolute_median),
        relative: change
            .relative_median
            .map(|median| format!("{:+.2}", number(median))),
        bounds: change
            .intervals
            .iter()
            .map(|bounds| ShownBounds {
                percent: format!("{:.0}", 100.0 * number(bounds.interval.get())),
                lower: signed(bounds.absolute.lower, bounds.absolute.upper),
                upper: signed(bounds.absolute.upper, bounds.absolute.lower),
                relative: bounds.relative.map(|range| {
                    (
                        format!("{:+.2}", number(range.lower)),
                        format!("{:+.2}", number(range.upper)),
                    )
                }),
            })
            .collect(),
        percent_lower: format!("{:.1}", 100.0 * probability),
        below: (probability * summary.draws as f64).round() as usize,
        draws: summary.draws,
    }
}

#[test]
fn interpolated_posterior_quantiles_are_rendered() {
    let posterior = bootstrap(&repetitions(), 0.0, 8);
    let summary = summarize(&posterior, &[0.8]).ok().unwrap();
    let expected = "Baseline:  1.3s\n\
        Candidate: 1.3s\n\
        \n\
        Change: +21.3ms (+1.65%)\n\
        \x20 80% CrI: [+4.1ms, +29.5ms] (+0.32%, +2.28%)\n\
        \n\
        P(candidate faster): 12.5% (1 of 8 draws)\n";
    assert_eq!(foil::report::summary::<Time>(&shown(&summary)), expected);
}

#[test]
fn a_zero_baseline_has_no_relative_change() {
    let draw = Draw {
        baseline: Time::from_base(scalar(0.0)),
        candidate: Time::from_base(scalar(2.0)),
    };
    assert_eq!(draw.relative(|one, _| one), None);
    let draw = Draw {
        baseline: Time::from_base(scalar(2.0)),
        candidate: Time::from_base(scalar(3.0)),
    };
    let relative =
        draw.relative(|one, other| scalar(100.0 * (number(one) / number(other) - 1.0)));
    assert_eq!(relative.map(number), Some(50.0));
    let absolute = draw.absolute(|one, other| scalar(number(one) - number(other)));
    assert_eq!(number(absolute.base()), 1.0);
}

#[test]
fn bootstrapping_can_be_cancelled_between_draws() {
    let mut checks = 0;
    let mut collected = Bootstrap::<Time>::new(1_000);
    let draw = Draw {
        baseline: Time::from_base(scalar(1.0)),
        candidate: Time::from_base(scalar(1.0)),
    };
    let cancelled = loop {
        match collected.next() {
            BootstrapStep::Check => {
                checks += 1;
                if checks >= 4 {
                    break true;
                }
                collected.pass();
            }
            BootstrapStep::Sample => collected.sample(draw),
            BootstrapStep::Finish => break false,
        }
    };
    assert!(cancelled);
    assert_eq!(checks, 4);
}

#[test]
fn orders_keep_their_effect_codes() {
    let repetitions = repetitions();
    let first = repetitions.get(0);
    assert_eq!(first.order, RunOrder::CandidateFirst);
    assert_eq!(first.order.effect_code(), -1);
}

#[test]
fn csv_analysis_matches_in_memory_analysis_at_the_same_seed() {
    let in_memory = Repetitions::try_from(
        (0..10)
            .map(|index| Repetition {
                outputs: Pair {
                    baseline: Duration::from_secs_f64(1.0 + index as f64),
                    candidate: Duration::from_secs_f64(1.1 + index as f64),
                },
                order: if index % 2 == 0 {
                    RunOrder::BaselineFirst
                } else {
                    RunOrder::CandidateFirst
                },
            })
            .collect(),
    )
    .ok()
    .unwrap();
    let (mut csv, mut text) = MeasurementsCsv::create();
    for position in 0..in_memory.len() {
        let repetition = in_memory.get(position);
        text.push_str(&csv.row(
            repetition.order,
            &repetition.outputs.baseline.as_secs_f64().to_string(),
            &repetition.outputs.candidate.as_secs_f64().to_string(),
        ));
        csv.advance();
    }
    let from_memory = bootstrap(&in_memory, 0.0, 1_000);
    let from_csv = bootstrap(&read(&text), 0.0, 1_000);

    assert_eq!(from_csv.draws(), from_memory.draws());
    let widths = [0.5, 0.8, 0.98];
    assert_eq!(
        summarize(&from_csv, &widths).ok().unwrap(),
        summarize(&from_memory, &widths).ok().unwrap()
    );
}
