use foil::platform::Wait;
use foil::repetition::Side;
use foil::run::{
    benchmark_failure, conclude, BenchmarkLog, Bytes, LogEntry, Measurement, RunEnd, Secondary, Verdict,
};
use foil::worktree::{Revision, RevisionError};
use std::time::Duration;

#[test]
fn new_preserves_what_it_is_given() {
    let output = Measurement::new(Duration::from_secs_f64(1.5), None);
    assert_eq!(output.elapsed, Duration::from_secs_f64(1.5));
    assert_eq!(output.peak_memory, None);
    let output = Measurement::new(Duration::ZERO, Some(Bytes::new(7)));
    assert_eq!(output.peak_memory.map(Bytes::get), Some(7));
}

#[test]
fn the_log_matches_golden() {
    let mut log = BenchmarkLog::new(2);
    let entries = [
        log.append(Side::Baseline, Some(0), None, Wait::Exited),
        log.append(Side::Candidate, Some(0), None, Wait::Exited),
    ];
    assert_eq!(entries.len(), 2);
    assert_eq!(
        entries[0],
        LogEntry {
            run: 1,
            side: Side::Baseline,
            exit_code: Some(0),
            peak_memory_bytes: None,
            timed_out: false,
            interrupted: false
        }
    );
    assert_eq!(entries[1].run, 2);
    assert_eq!(entries[1].side, Side::Candidate);
}

#[test]
fn a_timed_out_benchmark_is_logged() {
    let mut log = BenchmarkLog::new(4);
    let entry = log.append(Side::Baseline, None, Some(Bytes::new(9)), Wait::TimedOut);
    assert!(entry.timed_out);
    assert!(!entry.interrupted);
    assert_eq!(entry.exit_code, None);
    assert_eq!(entry.peak_memory_bytes, Some(9));
    let entry = log.append(Side::Candidate, Some(3), None, Wait::Interrupted);
    assert!(entry.interrupted);
    assert!(!entry.timed_out);
    assert_eq!(entry.exit_code, None);
    assert_eq!(log.progress(), (2, 2));
}

#[test]
fn redirected_stderr_reports_each_benchmark_run() {
    let mut log = BenchmarkLog::new(20);
    let mut progress = Vec::new();
    for run in 0..20 {
        let side = if run % 2 == 0 {
            Side::Baseline
        } else {
            Side::Candidate
        };
        progress.push(log.starting(side));
        log.append(side, Some(0), None, Wait::Exited);
    }
    assert!(progress.iter().all(|line| line.ends_with(" benchmark")));
    assert_eq!(progress.len(), 20);
    assert!(progress[0].contains(" 1/20 benchmark"));
    assert_eq!(progress[1], "candidate 2/20 benchmark");
}

#[test]
fn the_time_left_is_shown_after_the_first_run() {
    let mut log = BenchmarkLog::new(3);
    assert_eq!(log.eta(75), "");
    assert_eq!(log.position(Side::Baseline), "baseline 1/3");
    log.append(Side::Baseline, Some(0), None, Wait::Exited);
    assert_eq!(log.eta(0), " (ETA 0s)");
    assert_eq!(log.eta(59), " (ETA 59s)");
    assert_eq!(log.eta(60), " (ETA 1m00s)");
    assert_eq!(log.eta(75), " (ETA 1m15s)");
    assert_eq!(log.eta(3609), " (ETA 60m09s)");
}

#[test]
fn a_run_is_measured_only_where_everything_went_well() {
    let clean = conclude::<&str>(RunEnd::Exited { success: true }, None, None);
    assert_eq!(clean.verdict, Verdict::Measured);
    assert_eq!(clean.cause, None);
    assert!(clean.reported.is_empty());

    let failed = conclude(RunEnd::Exited { success: false }, Some("c"), Some("l"));
    assert_eq!(failed.verdict, Verdict::BenchmarkFailed);
    assert_eq!(failed.cause, None);
    assert!(matches!(
        failed.reported[..],
        [Secondary::Cleanup("c"), Secondary::Logging("l")]
    ));

    let unclean = conclude(RunEnd::Exited { success: true }, Some("c"), Some("l"));
    assert_eq!(unclean.verdict, Verdict::CleanupFailed);
    assert_eq!(unclean.cause, Some("c"));
    assert!(matches!(unclean.reported[..], [Secondary::Logging("l")]));

    let unlogged = conclude(RunEnd::Exited { success: true }, None, Some("l"));
    assert_eq!(unlogged.verdict, Verdict::LoggingFailed);
    assert_eq!(unlogged.cause, Some("l"));
    assert!(unlogged.reported.is_empty());

    for (end, verdict) in [
        (RunEnd::WaitFailed, Verdict::WaitFailed),
        (RunEnd::Interrupted, Verdict::Interrupted),
        (RunEnd::TimedOut, Verdict::TimedOut),
    ] {
        let ended = conclude(end, Some("c"), None);
        assert_eq!(ended.verdict, verdict);
        assert_eq!(ended.cause, None);
        assert!(matches!(ended.reported[..], [Secondary::Cleanup("c")]));
    }
}

#[test]
fn a_revision_is_resolved_to_its_commit() {
    assert_eq!(
        Revision::request("main").ok().as_deref(),
        Some("main^{commit}")
    );
    assert_eq!(Revision::request("").err(), Some(RevisionError::EmptyName));
    let revision = Revision::resolved("main", true, Some(" abc123\n")).ok().unwrap();
    assert_eq!(revision.name(), "main");
    assert_eq!(revision.hash(), "abc123");
    assert_eq!(
        revision.add_failure("exit status: 128"),
        "Git worktree add failed for main (abc123) with exit status: 128."
    );
    assert_eq!(
        Revision::resolved("x", false, None).err(),
        Some(RevisionError::Unresolved)
    );
    assert_eq!(
        Revision::resolved("x", true, None).err(),
        Some(RevisionError::NotUtf8)
    );
    assert_eq!(
        RevisionError::EmptyName.message(""),
        "Git revision must not be empty."
    );
    assert_eq!(
        RevisionError::Unresolved.message("x"),
        "Git could not resolve x to a commit."
    );
    assert_eq!(
        RevisionError::NotUtf8.message("x"),
        "Git returned a non-UTF-8 commit hash."
    );
}

#[test]
fn bytes_are_ordered_by_their_number() {
    assert_eq!(Bytes::zero().get(), 0);
    assert_eq!(Bytes::zero(), Bytes::new(0));
    let amounts = [0, 1, 7, u64::MAX - 1, u64::MAX];
    for one in amounts {
        assert_eq!(Bytes::new(one).get(), one);
        for other in amounts {
            let (a, b) = (Bytes::new(one), Bytes::new(other));
            assert_eq!(a <= b, one <= other);
            assert_eq!(a < b, one < other);
            assert_eq!(a == b, one == other);
            assert_eq!(a.cmp(&b), one.cmp(&other));
            assert_eq!(a.max(b).get(), one.max(other));
        }
    }
}

#[test]
fn a_failed_benchmark_is_named() {
    assert_eq!(
        benchmark_failure(Side::Baseline, "exit status: 7"),
        "The baseline benchmark failed with exit status: 7."
    );
    assert_eq!(
        benchmark_failure(Side::Candidate, "signal: 9 (SIGKILL)"),
        "The candidate benchmark failed with signal: 9 (SIGKILL)."
    );
}
