use foil::measurements::{
    order_name, posterior_csv, read_measurements, read_order, seconds_fields, MeasurementsCsv,
    ReadError, Reading, HEADER,
};
use foil::metric::{PeakMemory, Time};
use foil::repetition::{Repetitions, RunOrder};
use foil::scalar::Scalar;
use std::time::Duration;

const MEASUREMENTS: &str = "repetition,order,baseline_seconds,candidate_seconds\n\
    1,candidate_first,1,1.04\n\
    2,baseline_first,1.08,1.06\n\
    3,baseline_first,1.13,1.19\n\
    4,candidate_first,1.18,1.17\n\
    5,candidate_first,1.27,1.31\n\
    6,baseline_first,1.31,1.30\n\
    7,candidate_first,1.39,1.46\n\
    8,baseline_first,1.44,1.41\n\
    9,baseline_first,1.53,1.58\n\
    10,candidate_first,1.59,1.61\n";

fn reading(field: &str) -> Reading<Duration> {
    match field.parse::<f64>() {
        Err(_) => Reading::NotNumber,
        Ok(seconds) => Reading::Number {
            seconds: Scalar {
                bits: seconds.to_bits(),
            },
            elapsed: Duration::try_from_secs_f64(seconds).ok(),
        },
    }
}

fn read(text: &str) -> Result<Repetitions<Duration>, ReadError> {
    read_lines(text.lines().map(|line| Some(line.to_owned())).collect())
}

fn read_lines(lines: Vec<Option<String>>) -> Result<Repetitions<Duration>, ReadError> {
    let readings = lines
        .iter()
        .skip(1)
        .map(|line| match line.as_deref().and_then(seconds_fields) {
            Some((baseline, candidate)) => (reading(&baseline), reading(&candidate)),
            None => (Reading::NotNumber, Reading::NotNumber),
        })
        .collect();
    read_measurements(&lines, &readings)
}

fn message(text: &str) -> Option<String> {
    match read(text) {
        Ok(_) => panic!("{text} was accepted"),
        Err(error) => error.message("measurements.csv"),
    }
}

#[test]
fn measurements_are_read() {
    let repetitions = read(MEASUREMENTS).ok().unwrap();
    assert_eq!(repetitions.len(), 10);
    let first = repetitions.get(0);
    assert_eq!(first.order, RunOrder::CandidateFirst);
    assert_eq!(first.outputs.baseline, Duration::from_secs(1));
    assert_eq!(first.outputs.candidate, Duration::from_secs_f64(1.04));
    assert_eq!(
        repetitions.get(9).outputs.candidate,
        Duration::from_secs_f64(1.61)
    );
}

#[test]
fn an_unrepresentable_duration_is_rejected() {
    let invalid = MEASUREMENTS.replacen(",1,1.04", ",1e300,1.04", 1);
    let error = message(&invalid).unwrap();
    assert!(error.contains("too large"), "{error}");
}

#[test]
fn an_unrepresentable_duration_is_an_error() {
    let mut csv = String::from("repetition,order,baseline_seconds,candidate_seconds\n");
    for repetition in 1..=10 {
        let order = if repetition % 2 == 0 {
            "baseline_first"
        } else {
            "candidate_first"
        };
        csv.push_str(&format!("{repetition},{order},1e300,1\n"));
    }
    assert!(read(&csv).is_err());
}

#[test]
fn each_appended_repetition_reaches_disk_immediately() {
    let (mut csv, mut text) = MeasurementsCsv::create();
    assert_eq!(
        text,
        "repetition,order,baseline_seconds,candidate_seconds\n"
    );
    text.push_str(&csv.row(RunOrder::BaselineFirst, "1", "0.5"));
    csv.advance();
    assert_eq!(text.lines().count(), 2);
    assert_eq!(text.lines().last(), Some("1,baseline_first,1,0.5"));
    assert_eq!(
        csv.row(RunOrder::CandidateFirst, "2", "3"),
        "2,candidate_first,2,3\n"
    );
}

#[test]
fn a_failing_benchmark_still_leaves_a_measurements_file() {
    let (_, text) = MeasurementsCsv::create();
    assert_eq!(
        text,
        "repetition,order,baseline_seconds,candidate_seconds\n"
    );
    assert_eq!(text, format!("{HEADER}\n"));
}

#[test]
fn written_measurements_are_read_back() {
    let (mut csv, mut text) = MeasurementsCsv::create();
    let mut expected = Vec::new();
    for repetition in 0..12 {
        let order = if repetition % 3 == 0 {
            RunOrder::BaselineFirst
        } else {
            RunOrder::CandidateFirst
        };
        let baseline = Duration::from_nanos(1_234_567_891 * repetition);
        let candidate = Duration::from_micros(7 + repetition);
        text.push_str(&csv.row(
            order,
            &baseline.as_secs_f64().to_string(),
            &candidate.as_secs_f64().to_string(),
        ));
        csv.advance();
        expected.push((order, baseline, candidate));
    }
    let repetitions = read(&text).ok().unwrap();
    assert_eq!(repetitions.len(), 12);
    for (position, (order, baseline, candidate)) in expected.into_iter().enumerate() {
        let row = repetitions.get(position);
        assert_eq!(
            (row.order, row.outputs.baseline, row.outputs.candidate),
            (order, baseline, candidate)
        );
    }
}

#[test]
fn faults_are_reported_in_the_order_of_the_lines() {
    let header = "repetition,order,baseline_seconds,candidate_seconds\n";
    let said = |rows: &str| message(&format!("{header}{rows}"));
    assert_eq!(
        message("").as_deref(),
        Some("measurements.csv has an invalid measurements header.")
    );
    assert_eq!(
        message("repetition,order\n").as_deref(),
        Some("measurements.csv has an invalid measurements header.")
    );
    assert_eq!(
        said("1,baseline_first,1\n").as_deref(),
        Some("Invalid measurements line 2.")
    );
    assert_eq!(
        said("1,baseline_first,1,2,3\n").as_deref(),
        Some("Invalid measurements line 2.")
    );
    assert_eq!(
        said("1,baseline_first,1,\n").as_deref(),
        Some("Invalid measurements line 2.")
    );
    assert_eq!(
        said("1,baseline_first,1,1\n\n").as_deref(),
        Some("Invalid measurements line 3.")
    );
    assert_eq!(
        said("2,baseline_first,1,1\n").as_deref(),
        Some("Measurements repetitions must be sequential.")
    );
    assert_eq!(
        said("1,sideways,1,1\n").as_deref(),
        Some("Unknown run order `sideways`.")
    );
    for bad in ["-1", "inf", "nan"] {
        assert_eq!(
            said(&format!("1,baseline_first,{bad},1\n")).as_deref(),
            Some("Measurement must be finite and nonnegative.")
        );
    }
    assert_eq!(
        said("1,baseline_first,1,1\n").as_deref(),
        Some("At least 10 repetitions are required, got 1.")
    );
    assert!(matches!(
        read(&format!("{header}x,baseline_first,1,1\n")).err(),
        Some(ReadError::NotInteger { text }) if text == "x"
    ));
    assert!(matches!(
        read(&format!("{header}1,baseline_first,1,y\n")).err(),
        Some(ReadError::NotNumber { text }) if text == "y"
    ));
    assert_eq!(said("x,baseline_first,1,1\n"), None);
    let one_sided: String = (1..=10)
        .map(|row| format!("{row},baseline_first,1,1\n"))
        .collect();
    assert_eq!(
        said(&one_sided).as_deref(),
        Some("Both run orders are required.")
    );
}

#[test]
fn unreadable_lines_are_numbered() {
    let error = read_lines(vec![None]).err().unwrap();
    assert!(matches!(error, ReadError::Unreadable { line: 1 }));
    assert_eq!(error.message("x"), None);
    let error = read_lines(vec![
        Some(HEADER.to_owned()),
        Some("1,baseline_first,1,1".to_owned()),
        None,
    ])
    .err()
    .unwrap();
    assert_eq!(error.message("x").as_deref(), Some("Failed to read line 3."));
}

#[test]
fn orders_are_named() {
    for order in [RunOrder::BaselineFirst, RunOrder::CandidateFirst] {
        assert_eq!(read_order(order_name(order)), Some(order));
    }
    assert_eq!(order_name(RunOrder::BaselineFirst), "baseline_first");
    assert_eq!(read_order("Baseline_first"), None);
    assert_eq!(
        seconds_fields("1,x,2,3"),
        Some(("2".to_owned(), "3".to_owned()))
    );
    assert_eq!(seconds_fields("1,x,2"), None);
}

#[test]
fn the_draws_are_written_with_their_unit() {
    let rows = vec![
        ("1".to_owned(), "2".to_owned()),
        ("0.5".to_owned(), "3".to_owned()),
    ];
    assert_eq!(
        posterior_csv::<Time>(&rows),
        "baseline_seconds,candidate_seconds\n1,2\n0.5,3\n"
    );
    assert_eq!(
        posterior_csv::<PeakMemory>(&Vec::new()),
        "baseline_bytes,candidate_bytes\n"
    );
}
