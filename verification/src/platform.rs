//! What waiting for processes and cleaning up after them decides. What the
//! operating system answers is given.

use crate::text::{
    decimal, decimal_text, decimal_text_denotes, joined, joined_splits_back, lines, lines_of,
    pieces, same, starting_is_being_followed, starts, strip_prefix, texts, trim_leading, without_leading,
};
use vstd::prelude::*;

verus! {

/// How a wait ended.
#[derive(Clone, Copy, Debug, PartialEq, Eq, Structural)]
pub enum Wait {
    Exited,
    Interrupted,
    TimedOut,
}

/// What follows from the events of a wait.
#[derive(Clone, Copy, Debug, PartialEq, Eq, Structural)]
pub struct Ready {
    /// Whether a pending interrupt is to be consumed.
    pub drain: bool,
    /// How the wait ended, if it did.
    pub outcome: Option<Wait>,
}

/// What follows from the events of a wait. The exit of the process wins over an
/// interrupt, and the interrupt is consumed either way.
pub fn ready(exited: bool, interrupted: bool) -> (ready: Ready)
    ensures
        ready.drain == interrupted,
        ready.outcome == (if exited {
            Some(Wait::Exited)
        } else if interrupted {
            Some(Wait::Interrupted)
        } else {
            None
        }),
{
    Ready {
        drain: interrupted,
        outcome: if exited {
            Some(Wait::Exited)
        } else if interrupted {
            Some(Wait::Interrupted)
        } else {
            None
        },
    }
}

/// What asking the system for events gave.
#[derive(Clone, Copy, Debug, PartialEq, Eq, Structural)]
pub enum Events {
    /// A signal cut the call short.
    Signal,
    /// The process is gone already.
    NoProcess,
    /// The call failed.
    Failed,
    /// So many events, among them the exit of the process or an interrupt.
    Found { count: usize, exited: bool, interrupted: bool },
}

/// What a wait does next.
#[derive(Clone, Copy, Debug, PartialEq, Eq, Structural)]
pub enum WaitStep {
    /// Registers what it waits for, without waiting.
    Register,
    /// Waits for events, up to what is left of the time limit.
    Poll,
    /// Fails as the last call did.
    Fail,
    /// Ends, after consuming a pending interrupt where told.
    End { drain: bool, wait: Wait },
}

/// A wait for the exit of a process or for an interrupt.
#[derive(Clone, Copy, Debug, PartialEq, Eq, Structural)]
pub struct Waiting {
    step: WaitStep,
}

/// What follows from the answer to a step of a wait.
pub open spec fn after(step: WaitStep, events: Events) -> WaitStep {
    match (step, events) {
        (_, Events::Signal) => step,
        (WaitStep::Register, Events::NoProcess) => WaitStep::End { drain: true, wait: Wait::Exited },
        (_, Events::NoProcess) => WaitStep::Fail,
        (_, Events::Failed) => WaitStep::Fail,
        (_, Events::Found { count, exited, interrupted }) => if step is Poll && count == 0 {
            WaitStep::End { drain: false, wait: Wait::TimedOut }
        } else if exited {
            WaitStep::End { drain: interrupted, wait: Wait::Exited }
        } else if interrupted {
            WaitStep::End { drain: true, wait: Wait::Interrupted }
        } else {
            WaitStep::Poll
        },
    }
}

impl Waiting {
    pub closed spec fn next(self) -> WaitStep {
        self.step
    }

    /// Whether the wait goes on.
    pub open spec fn goes_on(self) -> bool {
        self.next() is Register || self.next() is Poll
    }

    /// Starts a wait; one that registers what it waits for does so first.
    pub fn new(registers: bool) -> (waiting: Waiting)
        ensures
            waiting.next() == (if registers {
                WaitStep::Register
            } else {
                WaitStep::Poll
            }),
    {
        Waiting {
            step: if registers {
                WaitStep::Register
            } else {
                WaitStep::Poll
            },
        }
    }

    /// What to do next.
    pub fn step(&self) -> (step: WaitStep)
        ensures
            step == self.next(),
    {
        self.step
    }

    /// Takes the answer to a step.
    pub fn answer(&mut self, events: Events)
        requires
            old(self).goes_on(),
        ensures
            final(self).next() == after(old(self).next(), events),
            match events {
                Events::Signal => final(self).next() == old(self).next(),
                Events::NoProcess => if old(self).next() is Register {
                    final(self).next() == (WaitStep::End { drain: true, wait: Wait::Exited })
                } else {
                    final(self).next() is Fail
                },
                Events::Failed => final(self).next() is Fail,
                Events::Found { count, exited, interrupted } => {
                    let quiet = old(self).next() is Poll && count == 0;
                    &&& quiet ==> final(self).next() == (WaitStep::End {
                        drain: false,
                        wait: Wait::TimedOut,
                    })
                    &&& !quiet && exited ==> final(self).next() == (WaitStep::End {
                        drain: interrupted,
                        wait: Wait::Exited,
                    })
                    &&& !quiet && !exited && interrupted ==> final(self).next() == (WaitStep::End {
                        drain: true,
                        wait: Wait::Interrupted,
                    })
                    &&& !quiet && !exited && !interrupted ==> final(self).next() is Poll
                },
            },
    {
        self.step = match events {
            Events::Signal => self.step,
            Events::NoProcess => match self.step {
                WaitStep::Register => WaitStep::End { drain: true, wait: Wait::Exited },
                _ => WaitStep::Fail,
            },
            Events::Failed => WaitStep::Fail,
            Events::Found { count, exited, interrupted } => {
                let polled = match self.step {
                    WaitStep::Poll => true,
                    _ => false,
                };
                if polled && count == 0 {
                    WaitStep::End { drain: false, wait: Wait::TimedOut }
                } else {
                    let found = ready(exited, interrupted);
                    match found.outcome {
                        Some(wait) => WaitStep::End { drain: found.drain, wait },
                        None => WaitStep::Poll,
                    }
                }
            },
        };
    }
}

/// The exit of a process wins over an interrupt, and an interrupt that was seen
/// is always consumed, so that it cannot end a later wait.
pub proof fn an_exit_wins_over_an_interrupt(step: WaitStep, count: usize, interrupted: bool)
    requires
        step is Register || step is Poll,
        count > 0,
    ensures
        after(step, Events::Found { count, exited: true, interrupted }) == (WaitStep::End {
            drain: interrupted,
            wait: Wait::Exited,
        }),
        after(step, Events::Found { count, exited: false, interrupted: true }) == (WaitStep::End {
            drain: true,
            wait: Wait::Interrupted,
        }),
{
}

/// A wait times out only where it waited and nothing happened.
pub proof fn only_a_quiet_wait_times_out(step: WaitStep, events: Events)
    requires
        step is Register || step is Poll,
        after(step, events) matches WaitStep::End { wait, .. } && wait is TimedOut,
    ensures
        step is Poll,
        events matches Events::Found { count, .. } && count == 0,
{
}

/// What follows from waiting for two handles on Windows, the process first.
#[derive(Clone, Copy, Debug, PartialEq, Eq, Structural)]
pub enum HandleWait {
    Exited,
    Interrupted,
    TimedOut,
    Again,
    Failed,
    Unexpected,
}

pub const WAIT_OBJECT: u32 = 0;

pub const WAIT_TIMEOUT: u32 = 258;

pub const WAIT_FAILED: u32 = 0xFFFF_FFFF;

/// What follows from the result of a wait for two handles, where `expired` says
/// whether the time limit has passed.
pub fn handle_outcome(result: u32, expired: bool) -> (outcome: HandleWait)
    ensures
        outcome == (if result == WAIT_OBJECT {
            HandleWait::Exited
        } else if result == WAIT_OBJECT + 1 {
            HandleWait::Interrupted
        } else if result == WAIT_TIMEOUT && expired {
            HandleWait::TimedOut
        } else if result == WAIT_TIMEOUT {
            HandleWait::Again
        } else if result == WAIT_FAILED {
            HandleWait::Failed
        } else {
            HandleWait::Unexpected
        }),
        outcome is Exited <==> result == 0,
        outcome is Interrupted <==> result == 1,
        outcome is TimedOut <==> result == 258 && expired,
        outcome is Again <==> result == 258 && !expired,
        outcome is Failed <==> result == 0xFFFF_FFFF,
{
    if result == WAIT_OBJECT {
        HandleWait::Exited
    } else if result == WAIT_OBJECT + 1 {
        HandleWait::Interrupted
    } else if result == WAIT_TIMEOUT {
        if expired {
            HandleWait::TimedOut
        } else {
            HandleWait::Again
        }
    } else if result == WAIT_FAILED {
        HandleWait::Failed
    } else {
        HandleWait::Unexpected
    }
}

/// Nanoseconds in a millisecond.
pub const MILLISECOND: u128 = 1_000_000;

/// The milliseconds to wait: the limit rounded up, so that a wait never ends
/// before it, and below the number that stands for no limit.
pub open spec fn wait_milliseconds(nanoseconds: Option<u128>) -> int {
    match nanoseconds {
        None => u32::MAX as int,
        Some(limit) => {
            let rounded = (limit as int + MILLISECOND as int - 1) / (MILLISECOND as int);
            if rounded < u32::MAX - 1 {
                rounded
            } else {
                u32::MAX - 1
            }
        },
    }
}

/// The milliseconds to wait for at most.
pub fn milliseconds(nanoseconds: Option<u128>) -> (milliseconds: u32)
    ensures
        milliseconds == wait_milliseconds(nanoseconds),
        nanoseconds is None <==> milliseconds == 0xFFFF_FFFF,
        nanoseconds matches Some(limit) ==> {
            &&& milliseconds <= 0xFFFF_FFFE
            &&& milliseconds < 0xFFFF_FFFE ==> milliseconds * 1_000_000 >= limit
            &&& milliseconds > 0 ==> (milliseconds - 1) * 1_000_000 < limit
        },
{
    match nanoseconds {
        None => u32::MAX,
        Some(limit) => {
            let whole: u128 = limit / MILLISECOND;
            let rest: u128 = limit % MILLISECOND;
            assert(limit == whole * MILLISECOND + rest);
            if whole >= 0xFFFF_FFFE {
                assert((limit + MILLISECOND - 1) / (MILLISECOND as int) >= whole);
                return 0xFFFF_FFFE;
            }
            let rounded: u128 = if rest == 0 {
                whole
            } else {
                whole + 1
            };
            assert((limit + MILLISECOND - 1) / (MILLISECOND as int) == rounded);
            if rounded < 0xFFFF_FFFE {
                rounded as u32
            } else {
                0xFFFF_FFFE
            }
        },
    }
}

/// A wait on Windows never ends before its limit.
pub proof fn a_wait_is_never_cut_short(limit: u128)
    requires
        limit <= (u32::MAX - 1) * MILLISECOND,
    ensures
        wait_milliseconds(Some(limit)) * MILLISECOND >= limit,
        wait_milliseconds(Some(limit)) * MILLISECOND < limit + MILLISECOND,
{
}

/// A failed system call: its kind, and what is said of it.
#[derive(Clone, Debug)]
pub struct Problem<K> {
    pub kind: K,
    pub text: String,
}

/// The failure of a step, if it failed.
pub open spec fn failure<K>(result: Result<(), Problem<K>>) -> Option<(K, Seq<char>)> {
    match result {
        Ok(_) => None,
        Err(problem) => Some((problem.kind, problem.text@)),
    }
}

/// Two failures as one: the kind of the first, and what is said of both.
pub open spec fn combined<K>(
    primary: Option<(K, Seq<char>)>,
    secondary: Option<(K, Seq<char>)>,
) -> Option<(K, Seq<char>)> {
    match (primary, secondary) {
        (None, other) => other,
        (Some(first), None) => Some(first),
        (Some((kind, first)), Some((_, second))) => Some(
            (kind, first + "; additionally: "@ + second),
        ),
    }
}

/// The outcome of two steps: it fails where one of them failed.
pub fn combine_errors<K>(
    primary: Result<(), Problem<K>>,
    secondary: Result<(), Problem<K>>,
) -> (result: Result<(), Problem<K>>)
    ensures
        failure(result) == combined(failure(primary), failure(secondary)),
        result is Ok <==> primary is Ok && secondary is Ok,
        match (primary, secondary) {
            (Ok(_), Ok(_)) => result is Ok,
            (Ok(_), Err(second)) => result matches Err(problem) && problem.kind == second.kind
                && problem.text@ == second.text@,
            (Err(first), Ok(_)) => result matches Err(problem) && problem.kind == first.kind
                && problem.text@ == first.text@,
            (Err(first), Err(second)) => result matches Err(problem) && problem.kind == first.kind
                && problem.text@ == first.text@ + "; additionally: "@ + second.text@,
        },
{
    match primary {
        Ok(_) => secondary,
        Err(first) => match secondary {
            Ok(_) => Err(first),
            Err(second) => Err(
                Problem {
                    kind: first.kind,
                    text: first.text.concat("; additionally: ").concat(second.text.as_str()),
                },
            ),
        },
    }
}

/// The outcome of a cleanup: killing, the fallback where that failed, and the
/// last step.
pub fn combine_cleanup<K>(
    killed: Result<(), Problem<K>>,
    fallback: Option<Result<(), Problem<K>>>,
    last: Result<(), Problem<K>>,
) -> (result: Result<(), Problem<K>>)
    ensures
        failure(result) == combined(
            match fallback {
                Some(fallback) => combined(failure(killed), failure(fallback)),
                None => failure(killed),
            },
            failure(last),
        ),
        result is Ok <==> killed is Ok && last is Ok && (fallback matches Some(fallback)
            ==> fallback is Ok),
{
    let first = match fallback {
        Some(fallback) => combine_errors(killed, fallback),
        None => killed,
    };
    combine_errors(first, last)
}

/// What is said where a process may still run and is not waited for.
pub const REFUSED: &'static str = "workload could not be terminated safely; refusing to wait";

/// Whether a process is sure to end, so that it can be waited for: its group
/// was killed, or the process itself in place of it.
pub fn is_terminated(killed: bool, fallback: Option<bool>) -> (terminated: bool)
    ensures
        terminated == (killed || fallback == Some(true)),
{
    killed || match fallback {
        Some(killed) => killed,
        None => false,
    }
}

/// How killing a process group ended.
#[derive(Clone, Copy, Debug, PartialEq, Eq, Structural)]
pub enum GroupKill {
    Killed,
    NotPermitted,
    NoSuchGroup,
    Failed,
}

/// What follows from killing a process group.
#[derive(Clone, Copy, Debug, PartialEq, Eq, Structural)]
pub enum GroupEnd {
    /// The process ended by itself; its group is killed once more where told.
    Exited { kill_again: bool },
    /// The group was killed.
    Killed,
    /// Killing the group failed.
    Failed,
    /// The group was gone although its process still ran.
    Disappeared,
}

/// What is said of a group that was gone although its process still ran.
pub const DISAPPEARED: &'static str = "process group disappeared while its child was still running";

/// What follows from killing a process group, where `exited` says whether the
/// process was found to have ended since.
pub fn group_end(kill: GroupKill, exited: bool) -> (end: GroupEnd)
    ensures
        end == (match kill {
            GroupKill::Killed => GroupEnd::Killed,
            GroupKill::NotPermitted => if exited {
                GroupEnd::Exited { kill_again: true }
            } else {
                GroupEnd::Failed
            },
            GroupKill::NoSuchGroup => if exited {
                GroupEnd::Exited { kill_again: false }
            } else {
                GroupEnd::Disappeared
            },
            GroupKill::Failed => GroupEnd::Failed,
        }),
{
    match kill {
        GroupKill::Killed => GroupEnd::Killed,
        GroupKill::NotPermitted => if exited {
            GroupEnd::Exited { kill_again: true }
        } else {
            GroupEnd::Failed
        },
        GroupKill::NoSuchGroup => if exited {
            GroupEnd::Exited { kill_again: false }
        } else {
            GroupEnd::Disappeared
        },
        GroupKill::Failed => GroupEnd::Failed,
    }
}

/// Whether killing a group whose process has ended succeeded: a group that is
/// gone needs no killing.
pub fn is_group_gone(kill: GroupKill) -> (gone: bool)
    ensures
        gone == (kill is Killed || kill is NoSuchGroup),
{
    match kill {
        GroupKill::Killed => true,
        GroupKill::NoSuchGroup => true,
        _ => false,
    }
}

/// Where the first line that starts with a prefix stands, from a line on.
pub open spec fn first_with(
    lines: Seq<Seq<char>>,
    prefix: Seq<char>,
    from: int,
) -> Option<Seq<char>>
    decreases lines.len() - from,
{
    if from >= lines.len() {
        None
    } else if starts(lines[from], prefix) {
        Some(lines[from].skip(prefix.len() as int))
    } else {
        first_with(lines, prefix, from + 1)
    }
}

/// What follows a prefix on the first line of a text that starts with it.
fn find_line(text: &str, prefix: &str) -> (rest: Option<String>)
    ensures
        match rest {
            Some(rest) => first_with(lines_of(text@), prefix@, 0) == Some(rest@),
            None => first_with(lines_of(text@), prefix@, 0) is None,
        },
{
    let found = lines(text);
    let ghost all = lines_of(text@);
    assert(texts(found@).len() == found@.len());
    for i in 0..found.len()
        invariant
            all == texts(found@),
            all == lines_of(text@),
            first_with(all, prefix@, 0) == first_with(all, prefix@, i as int),
    {
        assert(all[i as int] == found@[i as int]@);
        if let Some(rest) = strip_prefix(found[i].as_str(), prefix) {
            return Some(rest);
        }
    }
    None
}

/// Why it is not known whether a control group holds processes.
#[derive(Clone, Copy, Debug, PartialEq, Eq, Structural)]
pub enum EventsError {
    NoField,
    InvalidField,
}

/// Whether a control group holds processes, by the text of its events.
pub open spec fn populated_field(text: Seq<char>) -> Result<bool, EventsError> {
    match first_with(lines_of(text), "populated "@, 0) {
        None => Err(EventsError::NoField),
        Some(value) => if value == "0"@ {
            Ok(false)
        } else if value == "1"@ {
            Ok(true)
        } else {
            Err(EventsError::InvalidField)
        },
    }
}

/// Whether a control group holds processes, by the text of its events.
pub fn populated(text: &str) -> (result: Result<bool, EventsError>)
    ensures
        result == populated_field(text@),
        result == Ok::<bool, EventsError>(false) <==> first_with(
            lines_of(text@),
            "populated "@,
            0,
        ) == Some("0"@),
        result == Ok::<bool, EventsError>(true) <==> first_with(
            lines_of(text@),
            "populated "@,
            0,
        ) == Some("1"@),
        result == Err::<bool, EventsError>(EventsError::NoField) <==> first_with(
            lines_of(text@),
            "populated "@,
            0,
        ) is None,
{
    proof {
        reveal_strlit("0");
        reveal_strlit("1");
        assert("0"@[0] != "1"@[0]);
    }
    match find_line(text, "populated ") {
        None => Err(EventsError::NoField),
        Some(value) => if same(value.as_str(), "0") {
            Ok(false)
        } else if same(value.as_str(), "1") {
            Ok(true)
        } else {
            Err(EventsError::InvalidField)
        },
    }
}

impl EventsError {
    /// What is said of the error.
    pub fn message(self) -> (text: &'static str)
        ensures
            text@ == (match self {
                EventsError::NoField => "cgroup.events has no populated field"@,
                EventsError::InvalidField => "cgroup.events has an invalid populated field"@,
            }),
    {
        match self {
            EventsError::NoField => "cgroup.events has no populated field",
            EventsError::InvalidField => "cgroup.events has an invalid populated field",
        }
    }
}

/// Whether the text of a control group's events says that it holds no process.
pub fn is_emptied(text: &str) -> (answer: bool)
    ensures
        answer == lines_of(text@).contains("populated 0"@),
{
    let found = lines(text);
    let ghost all = lines_of(text@);
    assert(texts(found@).len() == found@.len());
    for i in 0..found.len()
        invariant
            all == texts(found@),
            all == lines_of(text@),
            forall|j: int| 0 <= j < i ==> #[trigger] all[j] != "populated 0"@,
    {
        assert(all[i as int] == found@[i as int]@);
        if same(found[i].as_str(), "populated 0") {
            assert(all.contains(all[i as int]));
            return true;
        }
    }
    false
}

/// The path of the control group of this process below the root of all, by the
/// text of its memberships.
pub fn current_cgroup(text: &str) -> (path: Option<String>)
    ensures
        match first_with(lines_of(text@), "0::"@, 0) {
            Some(rest) => path matches Some(path) && path@ == without_leading(rest, '/'),
            None => path is None,
        },
{
    match find_line(text, "0::") {
        Some(rest) => Some(trim_leading(rest.as_str(), '/')),
        None => None,
    }
}

/// The name of the control group of a session.
pub open spec fn session_text(process: nat, session: nat) -> Seq<char> {
    "foil-"@ + decimal_text(process) + "-"@ + decimal_text(session)
}

/// The name of the control group of a session.
pub fn session_name(process: u32, session: u64) -> (name: String)
    ensures
        name@ == session_text(process as nat, session as nat),
        name@ == "foil-"@ + decimal_text(process as nat) + "-"@ + decimal_text(session as nat),
{
    "foil-".to_owned().concat(decimal(process as u64).as_str()).concat("-").concat(
        decimal(session).as_str(),
    )
}

/// No two sessions share a name, neither of one process nor of two.
pub proof fn session_names_are_distinct(
    process: nat,
    session: nat,
    other_process: nat,
    other_session: nat,
)
    requires
        session_text(process, session) == session_text(other_process, other_session),
    ensures
        process == other_process,
        session == other_session,
{
    session_name_splits(process, session);
    session_name_splits(other_process, other_session);
    let parts = pieces(session_text(process, session), '-');
    decimal_text_denotes(process);
    decimal_text_denotes(session);
    decimal_text_denotes(other_process);
    decimal_text_denotes(other_session);
    assert(parts[1] == decimal_text(process));
    assert(parts[2] == decimal_text(session));
}

proof fn session_name_splits(process: nat, session: nat)
    ensures
        pieces(session_text(process, session), '-') == seq![
            "foil"@,
            decimal_text(process),
            decimal_text(session),
        ],
{
    reveal_strlit("foil-");
    reveal_strlit("foil");
    reveal_strlit("-");
    let parts = seq!["foil"@, decimal_text(process), decimal_text(session)];
    decimal_text_denotes(process);
    decimal_text_denotes(session);
    joined_splits_back(parts, '-');
    let two = parts.take(2);
    let one = parts.take(1);
    assert(parts.drop_last() =~= two);
    assert(two.drop_last() =~= one);
    assert(joined(one, '-') == "foil"@);
    assert(two.last() == decimal_text(process));
    assert(joined(two, '-') == "foil"@.push('-') + decimal_text(process));
    assert(joined(parts, '-') == joined(two, '-').push('-') + decimal_text(session));
    assert(session_text(process, session) =~= joined(parts, '-'));
}

/// What an interrupt does.
#[derive(Clone, Copy, Debug, PartialEq, Eq, Structural)]
pub enum InterruptAction {
    /// Wakes the work that waits; cleanup goes on.
    Wake,
    /// Ends the program at once with a status.
    Exit { status: i32 },
}

/// The status of a program that a second interrupt ends.
pub const INTERRUPTED_STATUS: i32 = 130;

/// What an interrupt does, given whether there was one before.
pub fn on_interrupt(repeated: bool) -> (action: InterruptAction)
    ensures
        action == (if repeated {
            InterruptAction::Exit { status: INTERRUPTED_STATUS }
        } else {
            InterruptAction::Wake
        }),
        repeated ==> action == (InterruptAction::Exit { status: 130 }),
        !repeated ==> action is Wake,
{
    if repeated {
        InterruptAction::Exit { status: INTERRUPTED_STATUS }
    } else {
        InterruptAction::Wake
    }
}

/// What a prefix is looked up by: the first line that starts with it counts, and
/// what follows it there is found.
pub proof fn the_first_line_with_a_prefix_counts(
    lines: Seq<Seq<char>>,
    prefix: Seq<char>,
    from: int,
) -> (line: int)
    requires
        0 <= from,
    ensures
        match first_with(lines, prefix, from) {
            Some(rest) => {
                &&& from <= line < lines.len()
                &&& lines[line] == prefix + rest
                &&& forall|i: int, tail: Seq<char>|
                    from <= i < line ==> #[trigger] lines[i] != #[trigger] (prefix + tail)
            },
            None => forall|i: int, tail: Seq<char>|
                from <= i < lines.len() ==> #[trigger] lines[i] != #[trigger] (prefix + tail),
        },
    decreases lines.len() - from,
{
    if from >= lines.len() {
        from
    } else {
        assert forall|tail: Seq<char>| !starts(lines[from], prefix) implies lines[from]
            != #[trigger] (prefix + tail) by {
            starting_is_being_followed(lines[from], prefix, tail);
        }
        starting_is_being_followed(lines[from], prefix, Seq::empty());
        if starts(lines[from], prefix) {
            from
        } else {
            the_first_line_with_a_prefix_counts(lines, prefix, from + 1)
        }
    }
}

/// Two failures are told as one: of the kind of the first, with what is said of
/// the first before what is said of the second.
pub proof fn failures_are_told_together<K>(first: (K, Seq<char>), second: (K, Seq<char>))
    ensures
        combined(Some(first), Some(second)) == Some(
            (first.0, first.1 + "; additionally: "@ + second.1),
        ),
        combined(Some(first), None) == Some(first),
        combined(None, Some(second)) == Some(second),
        combined::<K>(None, None) is None,
        failure::<K>(Ok(())) is None,
        forall|problem: Problem<K>| #[trigger]
            failure(Err(problem)) == Some((problem.kind, problem.text@)),
{
}

} // verus!
