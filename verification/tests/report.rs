use foil::metric::{shared, Metric, PeakMemory, Time};
use foil::report::{printed, probability, report, summary, thousands, ShownBounds, ShownSummary};
use foil::scalar::Scalar;

fn scalar(number: f64) -> Scalar {
    Scalar {
        bits: number.to_bits(),
    }
}

fn number(scalar: Scalar) -> f64 {
    f64::from_bits(scalar.bits)
}

fn signed<M: Metric>(value: f64, other: f64) -> String {
    let unit = shared(M::from_base(scalar(value)), M::from_base(scalar(other)));
    format!("{:+.1}{}", value * number(unit.scale), unit.symbol)
}

fn plain<M: Metric>(value: f64, other: f64) -> String {
    let unit = shared(M::from_base(scalar(value)), M::from_base(scalar(other)));
    format!("{:.1}{}", value * number(unit.scale), unit.symbol)
}

#[test]
fn zero_memory_baseline_omits_relative_changes() {
    let shown = ShownSummary {
        baseline: plain::<PeakMemory>(0.0, 0.0),
        candidate: plain::<PeakMemory>(0.0, 0.0),
        absolute: signed::<PeakMemory>(0.0, 0.0),
        relative: None,
        bounds: vec![ShownBounds {
            percent: "50".to_owned(),
            lower: signed::<PeakMemory>(0.0, 0.0),
            upper: signed::<PeakMemory>(0.0, 0.0),
            relative: None,
        }],
        percent_lower: "0.0".to_owned(),
        below: 0,
        draws: 500,
    };
    let expected = "Baseline:  0.0B\n\
         Candidate: 0.0B\n\
         \n\
         Change: +0.0B\n\
         \x20 50% CrI: [+0.0B, +0.0B]\n\
         \n\
         P(candidate smaller): 0.0% (0 of 500 draws)\n";
    assert_eq!(summary::<PeakMemory>(&shown), expected);
}

#[test]
fn probability_counts_use_thousands_separators() {
    assert_eq!(
        probability::<Time>("0.0", 0, 10_000),
        "P(candidate faster): 0.0% (0 of 10,000 draws)"
    );
    assert_eq!(
        probability::<Time>("100.0", 10_000, 10_000),
        "P(candidate faster): 100.0% (10,000 of 10,000 draws)"
    );
}

#[test]
fn digits_are_grouped_from_the_right() {
    for (count, text) in [
        (0, "0"),
        (7, "7"),
        (42, "42"),
        (999, "999"),
        (1_000, "1,000"),
        (12_345, "12,345"),
        (123_456, "123,456"),
        (1_234_567, "1,234,567"),
    ] {
        assert_eq!(thousands(count), text);
        assert_eq!(thousands(count).replace(',', ""), count.to_string());
    }
}

#[test]
fn a_lone_benchmark_prints_full_report() {
    assert_eq!(
        report(Some("parse"), "HEAD", "main", 10, 1000, "S\n"),
        "parse: Comparing candidate (HEAD) to baseline (main) with 10 paired repetitions and 1000 Bayesian bootstrap draws.\n\nS\n"
    );
    assert_eq!(
        report(None, "HEAD", "main", 30, 20000, "S\n"),
        "Comparing candidate (HEAD) to baseline (main) with 30 paired repetitions and 20000 Bayesian bootstrap draws.\n\nS\n"
    );
}

#[test]
fn benchmark_reports_are_separated_by_one_blank_line() {
    let shown = ShownSummary {
        baseline: "1.0s".to_owned(),
        candidate: "1.0s".to_owned(),
        absolute: "+0.0ns".to_owned(),
        relative: Some("+0.00".to_owned()),
        bounds: Vec::new(),
        percent_lower: "0.0".to_owned(),
        below: 0,
        draws: 1000,
    };
    let body = summary::<Time>(&shown);
    let first = report(Some("first"), "HEAD", "HEAD", 10, 1000, &body);
    let second = report(Some("second"), "HEAD", "HEAD", 10, 1000, &body);
    let stdout = printed(true, &first) + &printed(false, &second);
    let start = stdout
        .find("second: Comparing candidate")
        .expect("second report is missing");
    let before_second = &stdout[..start];
    assert!(before_second.ends_with("\n\n"), "{stdout}");
    assert!(!before_second.ends_with("\n\n\n"), "{stdout}");
}
