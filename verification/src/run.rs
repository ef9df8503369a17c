//! One measured run: what it yields, what is logged of it, and how it ends.

use crate::platform::Wait;
use crate::repetition::Side;
use crate::text::{decimal, decimal_text};
use std::cmp::Ordering;
use std::time::Duration;
use vstd::prelude::*;

verus! {

/// A number of bytes. Amounts are compared by their numbers.
#[derive(Clone, Copy, Debug, PartialEq, Eq, Ord, Structural)]
pub struct Bytes {
    bytes: u64,
}

impl View for Bytes {
    type V = u64;

    closed spec fn view(&self) -> u64 {
        self.bytes
    }
}

impl PartialOrd for Bytes {
    fn partial_cmp(&self, other: &Bytes) -> (order: Option<Ordering>) {
        if self.bytes < other.bytes {
            Some(Ordering::Less)
        } else if self.bytes == other.bytes {
            Some(Ordering::Equal)
        } else {
            Some(Ordering::Greater)
        }
    }
}

impl vstd::std_specs::cmp::PartialOrdSpecImpl for Bytes {
    open spec fn obeys_partial_cmp_spec() -> bool {
        true
    }

    open spec fn partial_cmp_spec(&self, other: &Bytes) -> Option<Ordering> {
        if self@ < other@ {
            Some(Ordering::Less)
        } else if self@ == other@ {
            Some(Ordering::Equal)
        } else {
            Some(Ordering::Greater)
        }
    }
}

/// Amounts stand in the order of their numbers, and are equal where these are.
pub proof fn amounts_follow_their_numbers(one: Bytes, other: Bytes)
    ensures
        one@ <= other@ <==> (vstd::std_specs::cmp::PartialOrdSpec::partial_cmp_spec(
            &one,
            &other,
        ) matches Some(Ordering::Less | Ordering::Equal)),
        one@ < other@ <==> vstd::std_specs::cmp::PartialOrdSpec::partial_cmp_spec(&one, &other)
            == Some(Ordering::Less),
        one@ == other@ <==> one == other,
{
}

impl Bytes {
    /// No bytes at all.
    pub fn zero() -> (amount: Bytes)
        ensures
            amount@ == 0,
    {
        Bytes { bytes: 0 }
    }

    pub fn new(bytes: u64) -> (amount: Bytes)
        ensures
            amount@ == bytes,
    {
        Bytes { bytes }
    }

    pub fn get(self) -> (bytes: u64)
        ensures
            bytes == self@,
    {
        self.bytes
    }
}

/// What a run that succeeded yields.
#[derive(Clone, Copy, Debug)]
pub struct Measurement {
    pub elapsed: Duration,
    pub peak_memory: Option<Bytes>,
}

impl Measurement {
    pub fn new(elapsed: Duration, peak_memory: Option<Bytes>) -> (measurement: Measurement)
        ensures
            measurement.elapsed == elapsed,
            measurement.peak_memory == peak_memory,
    {
        Measurement { elapsed, peak_memory }
    }
}

/// What is logged of a run beside the time it took.
#[derive(Clone, Copy, Debug, PartialEq, Eq, Structural)]
pub struct LogEntry {
    pub run: usize,
    pub side: Side,
    pub exit_code: Option<i32>,
    pub peak_memory_bytes: Option<u64>,
    pub timed_out: bool,
    pub interrupted: bool,
}

/// The log of a benchmark's runs.
pub struct BenchmarkLog {
    run: usize,
    runs: usize,
}

/// Two digits of a number.
pub open spec fn two_digits(number: nat) -> Seq<char> {
    if number < 10 {
        "0"@ + decimal_text(number)
    } else {
        decimal_text(number)
    }
}

/// How the time that is left is shown.
pub open spec fn eta_text(seconds: nat) -> Seq<char> {
    if seconds >= 60 {
        " (ETA "@ + decimal_text(seconds / 60) + "m"@ + two_digits(seconds % 60) + "s)"@
    } else {
        " (ETA "@ + decimal_text(seconds) + "s)"@
    }
}

impl BenchmarkLog {
    /// How many runs were logged.
    pub closed spec fn logged(self) -> nat {
        self.run as nat
    }

    /// How many runs there will be.
    pub closed spec fn total(self) -> nat {
        self.runs as nat
    }

    /// Starts a log.
    pub fn new(runs: usize) -> (log: BenchmarkLog)
        ensures
            log.logged() == 0,
            log.total() == runs,
    {
        BenchmarkLog { run: 0, runs }
    }

    /// How many runs were logged, and how many are left.
    pub fn progress(&self) -> (progress: (usize, usize))
        requires
            self.logged() <= self.total(),
        ensures
            progress.0 == self.logged(),
            progress.0 + progress.1 == self.total(),
    {
        (self.run, self.runs - self.run)
    }

    /// Which run comes next, on which side.
    pub open spec fn position_text(self, side: Side) -> Seq<char> {
        side.label() + " "@ + decimal_text(self.logged() + 1) + "/"@ + decimal_text(self.total())
    }

    /// Which run comes next, on which side.
    pub fn position(&self, side: Side) -> (text: String)
        requires
            self.logged() < usize::MAX,
        ensures
            text@ == self.position_text(side),
            text@ == (if side is Baseline {
                "baseline"@
            } else {
                "candidate"@
            }) + " "@ + decimal_text(self.logged() + 1) + "/"@ + decimal_text(self.total()),
    {
        side.name().to_owned().concat(" ").concat(decimal((self.run + 1) as u64).as_str()).concat(
            "/",
        ).concat(decimal(self.runs as u64).as_str())
    }

    /// The line that announces a run.
    pub fn starting(&self, side: Side) -> (text: String)
        requires
            self.logged() < usize::MAX,
        ensures
            text@ == self.position_text(side) + " benchmark"@,
            text@ == (if side is Baseline {
                "baseline"@
            } else {
                "candidate"@
            }) + " "@ + decimal_text(self.logged() + 1) + "/"@ + decimal_text(self.total())
                + " benchmark"@,
    {
        self.position(side).concat(" benchmark")
    }

    /// How the time that is left is shown; not at all before a run was logged.
    pub fn eta(&self, seconds: u64) -> (text: String)
        ensures
            text@ == (if self.logged() == 0 {
                Seq::empty()
            } else {
                eta_text(seconds as nat)
            }),
            self.logged() > 0 && seconds < 60 ==> text@ == " (ETA "@ + decimal_text(seconds as nat)
                + "s)"@,
            self.logged() > 0 && seconds >= 60 ==> text@ == " (ETA "@ + decimal_text(
                (seconds / 60) as nat,
            ) + "m"@ + (if seconds % 60 < 10 {
                "0"@ + decimal_text((seconds % 60) as nat)
            } else {
                decimal_text((seconds % 60) as nat)
            }) + "s)"@,
    {
        if self.run == 0 {
            return String::new();
        }
        let start = " (ETA ".to_owned();
        if seconds >= 60 {
            let rest: u64 = seconds % 60;
            let digits = if rest < 10 {
                "0".to_owned().concat(decimal(rest).as_str())
            } else {
                decimal(rest)
            };
            start.concat(decimal(seconds / 60).as_str()).concat("m").concat(
                digits.as_str(),
            ).concat("s)")
        } else {
            start.concat(decimal(seconds).as_str()).concat("s)")
        }
    }

    /// Counts a run that ended, and returns what is logged of it.
    pub fn append(
        &mut self,
        side: Side,
        exit_code: Option<i32>,
        peak_memory: Option<Bytes>,
        end: Wait,
    ) -> (entry: LogEntry)
        requires
            old(self).logged() < usize::MAX,
        ensures
            final(self).logged() == old(self).logged() + 1,
            final(self).total() == old(self).total(),
            entry.run == final(self).logged(),
            entry.side == side,
            entry.exit_code == (if end is Exited {
                exit_code
            } else {
                None
            }),
            entry.peak_memory_bytes == (match peak_memory {
                Some(bytes) => Some(bytes@),
                None => None,
            }),
            entry.timed_out == (end is TimedOut),
            entry.interrupted == (end is Interrupted),
    {
        self.run += 1;
        LogEntry {
            run: self.run,
            side,
            exit_code: match end {
                Wait::Exited => exit_code,
                _ => None,
            },
            peak_memory_bytes: match peak_memory {
                Some(bytes) => Some(bytes.get()),
                None => None,
            },
            timed_out: match end {
                Wait::TimedOut => true,
                _ => false,
            },
            interrupted: match end {
                Wait::Interrupted => true,
                _ => false,
            },
        }
    }
}

/// How the wait for a measured run ended.
#[derive(Clone, Copy, Debug, PartialEq, Eq, Structural)]
pub enum RunEnd {
    /// The wait itself failed.
    WaitFailed,
    /// The run exited, with success or without.
    Exited { success: bool },
    Interrupted,
    TimedOut,
}

/// What becomes of a measured run.
#[derive(Clone, Copy, Debug, PartialEq, Eq, Structural)]
pub enum Verdict {
    Measured,
    WaitFailed,
    BenchmarkFailed,
    CleanupFailed,
    LoggingFailed,
    Interrupted,
    TimedOut,
}

/// What becomes of a measured run, given how its wait ended and whether
/// cleaning up after it and logging it failed.
pub open spec fn verdict_of(end: RunEnd, cleanup_failed: bool, logging_failed: bool) -> Verdict {
    match end {
        RunEnd::WaitFailed => Verdict::WaitFailed,
        RunEnd::Exited { success } => if !success {
            Verdict::BenchmarkFailed
        } else if cleanup_failed {
            Verdict::CleanupFailed
        } else if logging_failed {
            Verdict::LoggingFailed
        } else {
            Verdict::Measured
        },
        RunEnd::Interrupted => Verdict::Interrupted,
        RunEnd::TimedOut => Verdict::TimedOut,
    }
}

/// A failure beside the one that a run ends with.
#[derive(Clone, Debug)]
pub enum Secondary<E> {
    Cleanup(E),
    Logging(E),
}

/// How a measured run ends: its verdict, the failure that goes with it where
/// cleanup or logging decided, and the failures to report beside it.
pub struct Conclusion<E> {
    pub verdict: Verdict,
    pub cause: Option<E>,
    pub reported: Vec<Secondary<E>>,
}

/// The failures that are not the cause of a verdict, the cleanup's first.
pub open spec fn secondary<E>(
    verdict: Verdict,
    cleanup: Option<E>,
    logging: Option<E>,
) -> Seq<Secondary<E>> {
    let first = match cleanup {
        Some(error) if verdict != Verdict::CleanupFailed => seq![Secondary::Cleanup(error)],
        _ => Seq::empty(),
    };
    let second = match logging {
        Some(error) if verdict != Verdict::LoggingFailed => seq![Secondary::Logging(error)],
        _ => Seq::empty(),
    };
    first + second
}

/// Concludes a measured run.
pub fn conclude<E>(end: RunEnd, cleanup: Option<E>, logging: Option<E>) -> (conclusion: Conclusion<
    E,
>)
    ensures
        conclusion.verdict == verdict_of(end, cleanup is Some, logging is Some),
        conclusion.cause == (match conclusion.verdict {
            Verdict::CleanupFailed => cleanup,
            Verdict::LoggingFailed => logging,
            _ => None,
        }),
        conclusion.reported@ == secondary(conclusion.verdict, cleanup, logging),
        conclusion.verdict is WaitFailed <==> end is WaitFailed,
        conclusion.verdict is Interrupted <==> end is Interrupted,
        conclusion.verdict is TimedOut <==> end is TimedOut,
        conclusion.verdict is BenchmarkFailed <==> end == (RunEnd::Exited { success: false }),
        conclusion.verdict is CleanupFailed <==> end == (RunEnd::Exited { success: true })
            && cleanup is Some,
        conclusion.verdict is LoggingFailed <==> end == (RunEnd::Exited { success: true })
            && cleanup is None && logging is Some,
        conclusion.verdict is Measured <==> end == (RunEnd::Exited { success: true })
            && cleanup is None && logging is None,
        conclusion.reported@ =~= match (cleanup, logging) {
            (None, None) => Seq::empty(),
            (Some(first), None) => if conclusion.verdict is CleanupFailed {
                Seq::empty()
            } else {
                seq![Secondary::Cleanup(first)]
            },
            (None, Some(second)) => if conclusion.verdict is LoggingFailed {
                Seq::empty()
            } else {
                seq![Secondary::Logging(second)]
            },
            (Some(first), Some(second)) => if conclusion.verdict is CleanupFailed {
                seq![Secondary::Logging(second)]
            } else {
                seq![Secondary::Cleanup(first), Secondary::Logging(second)]
            },
        },
{
    let ghost given = (cleanup, logging);
    let verdict = match end {
        RunEnd::WaitFailed => Verdict::WaitFailed,
        RunEnd::Exited { success } => if !success {
            Verdict::BenchmarkFailed
        } else if cleanup.is_some() {
            Verdict::CleanupFailed
        } else if logging.is_some() {
            Verdict::LoggingFailed
        } else {
            Verdict::Measured
        },
        RunEnd::Interrupted => Verdict::Interrupted,
        RunEnd::TimedOut => Verdict::TimedOut,
    };
    let mut cause: Option<E> = None;
    let mut reported: Vec<Secondary<E>> = Vec::new();
    if let Some(error) = cleanup {
        match verdict {
            Verdict::CleanupFailed => {
                cause = Some(error);
            },
            _ => {
                reported.push(Secondary::Cleanup(error));
            },
        }
    }
    if let Some(error) = logging {
        match verdict {
            Verdict::LoggingFailed => {
                cause = Some(error);
            },
            _ => {
                reported.push(Secondary::Logging(error));
            },
        }
    }
    assert(reported@ =~= secondary(verdict, given.0, given.1));
    Conclusion { verdict, cause, reported }
}

/// Only a run that exited with success, and that was cleaned up after and
/// logged, is measured.
pub proof fn only_clean_runs_are_measured(
    end: RunEnd,
    cleanup_failed: bool,
    logging_failed: bool,
)
    ensures
        verdict_of(end, cleanup_failed, logging_failed) is Measured <==> end == (RunEnd::Exited {
            success: true,
        }) && !cleanup_failed && !logging_failed,
{
}

/// What is said of a benchmark that failed on a side, given its status as it is
/// shown.
pub fn benchmark_failure(side: Side, status: &str) -> (text: String)
    ensures
        text@ == "The "@ + side.label() + " benchmark failed with "@ + status@ + "."@,
        text@ == "The "@ + (if side is Baseline {
            "baseline"@
        } else {
            "candidate"@
        }) + " benchmark failed with "@ + status@ + "."@,
{
    "The ".to_owned().concat(side.name()).concat(" benchmark failed with ").concat(status).concat(
        ".",
    )
}

} // verus!
