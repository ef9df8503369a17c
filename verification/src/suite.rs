//! What a suite of benchmarks does, from clearing old outputs to its teardown,
//! as one plan of tasks.

use crate::execution::{
    carried_out, execution_follows_the_plan, first_failure, first_failure_found,
    opened_scopes_are_cleaned_up, walk, well_formed, well_placed,
    work_ends_with_the_first_failure, Entry, Role,
};
use crate::generator::seeded_state;
use crate::repetition::{schedule_orders, suite_schedule, RunOrder, Side};
use crate::seed::SCHEDULE;
use vstd::prelude::*;

verus! {

/// A file that a benchmark leaves in its output directory.
#[derive(Clone, Copy, Debug, PartialEq, Eq, Structural)]
pub enum Artifact {
    Config,
    Log,
    Measurements,
    Posterior,
    Report,
}

impl Artifact {
    pub open spec fn file(self) -> Seq<char> {
        match self {
            Artifact::Config => "config.json"@,
            Artifact::Log => "benchmark.log"@,
            Artifact::Measurements => "measurements.csv"@,
            Artifact::Posterior => "posterior.csv"@,
            Artifact::Report => "report.txt"@,
        }
    }

    /// The name of the file.
    pub fn name(self) -> (name: &'static str)
        ensures
            name@ == self.file(),
            self is Config ==> name@ == "config.json"@,
            self is Log ==> name@ == "benchmark.log"@,
            self is Measurements ==> name@ == "measurements.csv"@,
            self is Posterior ==> name@ == "posterior.csv"@,
            self is Report ==> name@ == "report.txt"@,
    {
        match self {
            Artifact::Config => "config.json",
            Artifact::Log => "benchmark.log",
            Artifact::Measurements => "measurements.csv",
            Artifact::Posterior => "posterior.csv",
            Artifact::Report => "report.txt",
        }
    }
}

/// One step of a suite. Benchmarks are numbered in the order in which they
/// run. A pair of worktrees has the benchmark that it is kept for as its owner,
/// or none where it is shared.
#[derive(Clone, Copy, Debug, PartialEq, Eq, Structural)]
pub enum Task {
    RemoveOutput { benchmark: usize, artifact: Artifact },
    WriteConfig { benchmark: usize },
    OpenSession,
    SuiteStartup,
    InspectWorkingTree,
    CreateWorktrees { owner: Option<usize> },
    WorktreeStartup { owner: Option<usize>, side: Side },
    CheckInterrupt,
    Startup { benchmark: usize, side: Side },
    OpenLogs { benchmark: usize },
    SuiteStartupEachRun { benchmark: usize, repetition: usize, side: Side },
    StartupEachRun { benchmark: usize, repetition: usize, side: Side },
    Measure { benchmark: usize, repetition: usize, side: Side },
    TeardownEachRun { benchmark: usize, repetition: usize, side: Side },
    SuiteTeardownEachRun { benchmark: usize, repetition: usize, side: Side },
    Record { benchmark: usize, repetition: usize },
    CloseLogs { benchmark: usize },
    Validate { benchmark: usize },
    Teardown { benchmark: usize, side: Side },
    Analyze { benchmark: usize },
    WritePosterior { benchmark: usize },
    WriteReport { benchmark: usize },
    WorktreeTeardown { owner: Option<usize>, side: Side },
    RemoveWorktrees { owner: Option<usize> },
    SuiteTeardown,
    CloseSession,
}

impl Task {
    /// What a failing hook is called: the side that it ran on, if it is one of
    /// two, and the hook.
    pub open spec fn hook(self) -> Option<(Option<Side>, Seq<char>)> {
        match self {
            Task::SuiteStartup => Some((None, "suite startup"@)),
            Task::SuiteTeardown => Some((None, "suite teardown"@)),
            Task::WorktreeStartup { side, .. } => Some((Some(side), "worktree startup"@)),
            Task::WorktreeTeardown { side, .. } => Some((Some(side), "worktree teardown"@)),
            Task::Startup { side, .. } => Some((Some(side), "startup"@)),
            Task::Teardown { side, .. } => Some((Some(side), "teardown"@)),
            Task::StartupEachRun { side, .. } => Some(
                (Some(side), "benchmark startup-each-run"@),
            ),
            Task::TeardownEachRun { side, .. } => Some(
                (Some(side), "benchmark teardown-each-run"@),
            ),
            Task::SuiteStartupEachRun { side, .. } => Some((Some(side), "suite startup-each-run"@)),
            Task::SuiteTeardownEachRun { side, .. } => Some(
                (Some(side), "suite teardown-each-run"@),
            ),
            _ => None,
        }
    }

    /// What is reported where a hook fails.
    pub fn failure(self) -> (text: Option<String>)
        ensures
            match self.hook() {
                None => text is None,
                Some((None, name)) => text matches Some(text) && text@ == "The "@ + name
                    + " failed."@,
                Some((Some(side), name)) => text matches Some(text) && text@ == "The "@
                    + side.label() + " "@ + name + " failed."@,
            },
            match self {
                Task::SuiteStartup => text matches Some(text) && text@ == "The "@
                    + "suite startup"@ + " failed."@,
                Task::SuiteTeardown => text matches Some(text) && text@ == "The "@
                    + "suite teardown"@ + " failed."@,
                Task::WorktreeStartup { side, .. } => text matches Some(text) && text@ == "The "@ + (
                if side is Baseline {
                    "baseline"@
                } else {
                    "candidate"@
                }) + " "@ + "worktree startup"@ + " failed."@,
                Task::WorktreeTeardown { side, .. } => text matches Some(text) && text@ == "The "@ + (
                if side is Baseline {
                    "baseline"@
                } else {
                    "candidate"@
                }) + " "@ + "worktree teardown"@ + " failed."@,
                Task::Startup { side, .. } => text matches Some(text) && text@ == "The "@ + (
                if side is Baseline {
                    "baseline"@
                } else {
                    "candidate"@
                }) + " "@ + "startup"@ + " failed."@,
                Task::Teardown { side, .. } => text matches Some(text) && text@ == "The "@ + (
                if side is Baseline {
                    "baseline"@
                } else {
                    "candidate"@
                }) + " "@ + "teardown"@ + " failed."@,
                Task::StartupEachRun { side, .. } => text matches Some(text) && text@ == "The "@ + (
                if side is Baseline {
                    "baseline"@
                } else {
                    "candidate"@
                }) + " "@ + "benchmark startup-each-run"@ + " failed."@,
                Task::TeardownEachRun { side, .. } => text matches Some(text) && text@ == "The "@ + (
                if side is Baseline {
                    "baseline"@
                } else {
                    "candidate"@
                }) + " "@ + "benchmark teardown-each-run"@ + " failed."@,
                Task::SuiteStartupEachRun { side, .. } => text matches Some(text) && text@ == "The "@ + (
                if side is Baseline {
                    "baseline"@
                } else {
                    "candidate"@
                }) + " "@ + "suite startup-each-run"@ + " failed."@,
                Task::SuiteTeardownEachRun { side, .. } => text matches Some(text) && text@ == "The "@ + (
                if side is Baseline {
                    "baseline"@
                } else {
                    "candidate"@
                }) + " "@ + "suite teardown-each-run"@ + " failed."@,
                _ => text is None,
            },
    {
        let (side, name): (Option<Side>, &str) = match self {
            Task::SuiteStartup => (None, "suite startup"),
            Task::SuiteTeardown => (None, "suite teardown"),
            Task::WorktreeStartup { side, .. } => (Some(side), "worktree startup"),
            Task::WorktreeTeardown { side, .. } => (Some(side), "worktree teardown"),
            Task::Startup { side, .. } => (Some(side), "startup"),
            Task::Teardown { side, .. } => (Some(side), "teardown"),
            Task::StartupEachRun { side, .. } => (Some(side), "benchmark startup-each-run"),
            Task::TeardownEachRun { side, .. } => (Some(side), "benchmark teardown-each-run"),
            Task::SuiteStartupEachRun { side, .. } => (Some(side), "suite startup-each-run"),
            Task::SuiteTeardownEachRun { side, .. } => (Some(side), "suite teardown-each-run"),
            _ => {
                return None;
            },
        };
        match side {
            None => Some("The ".to_owned().concat(name).concat(" failed.")),
            Some(side) => Some(
                "The ".to_owned().concat(side.name()).concat(" ").concat(name).concat(" failed."),
            ),
        }
    }

    /// Whether the first interrupt leaves a task alone: that of a hook which
    /// closes a scope.
    pub fn is_protected(self) -> (answer: bool)
        ensures
            answer == (opener(self) is Some),
            answer == (self is SuiteTeardown || self is WorktreeTeardown || self is Teardown
                || self is TeardownEachRun || self is SuiteTeardownEachRun),
    {
        match self {
            Task::SuiteTeardown => true,
            Task::WorktreeTeardown { .. } => true,
            Task::Teardown { .. } => true,
            Task::TeardownEachRun { .. } => true,
            Task::SuiteTeardownEachRun { .. } => true,
            _ => false,
        }
    }
}

/// How one benchmark of a suite runs.
#[derive(Clone, Debug)]
pub struct BenchmarkPlan {
    /// Whether the benchmark has a pair of worktrees of its own.
    pub isolated: bool,
    /// The order of each repetition.
    pub orders: Vec<RunOrder>,
}

/// A task that is skipped once something failed.
pub open spec fn work(task: Task) -> Entry<Task> {
    Entry { task, role: Role::Work }
}

/// A task that cleans up the scope opened before a position.
pub open spec fn cleanup(task: Task, opened: int) -> Entry<Task> {
    Entry { task, role: Role::Cleanup { opened: opened as usize, held: false } }
}

/// A cleanup whose failure waits for the cleanup that follows.
pub open spec fn held_cleanup(task: Task, opened: int) -> Entry<Task> {
    Entry { task, role: Role::Cleanup { opened: opened as usize, held: true } }
}

/// Removes what an earlier suite left for one benchmark. Each removal is
/// attempted, whatever becomes of the others.
pub open spec fn removal(benchmark: int) -> Seq<Entry<Task>> {
    let benchmark = benchmark as usize;
    seq![
        cleanup(Task::RemoveOutput { benchmark, artifact: Artifact::Config }, 0),
        cleanup(Task::RemoveOutput { benchmark, artifact: Artifact::Log }, 0),
        cleanup(Task::RemoveOutput { benchmark, artifact: Artifact::Measurements }, 0),
        cleanup(Task::RemoveOutput { benchmark, artifact: Artifact::Posterior }, 0),
        cleanup(Task::RemoveOutput { benchmark, artifact: Artifact::Report }, 0),
    ]
}

/// Removes what an earlier suite left for the first benchmarks.
pub open spec fn removals(benchmarks: nat) -> Seq<Entry<Task>>
    decreases benchmarks,
{
    if benchmarks == 0 {
        Seq::empty()
    } else {
        removals((benchmarks - 1) as nat) + removal(benchmarks - 1)
    }
}

/// Writes down the configuration of the first benchmarks.
pub open spec fn configs(benchmarks: nat) -> Seq<Entry<Task>> {
    Seq::new(benchmarks, |i: int| work(Task::WriteConfig { benchmark: i as usize }))
}

/// One measured run: the suite's hook, then the benchmark's hook, then the
/// measurement, and the teardowns in the opposite order.
pub open spec fn one_run(at: int, benchmark: usize, repetition: usize, side: Side) -> Seq<
    Entry<Task>,
> {
    seq![
        work(Task::SuiteStartupEachRun { benchmark, repetition, side }),
        work(Task::StartupEachRun { benchmark, repetition, side }),
        work(Task::CheckInterrupt),
        work(Task::Measure { benchmark, repetition, side }),
        work(Task::CheckInterrupt),
        cleanup(Task::TeardownEachRun { benchmark, repetition, side }, at + 1),
        cleanup(Task::SuiteTeardownEachRun { benchmark, repetition, side }, at),
    ]
}

/// One repetition: both sides in the given order, then its row.
pub open spec fn one_repetition(
    at: int,
    benchmark: usize,
    repetition: usize,
    order: RunOrder,
) -> Seq<Entry<Task>> {
    seq![work(Task::CheckInterrupt)] + one_run(at + 1, benchmark, repetition, order.first_side())
        + one_run(at + 8, benchmark, repetition, order.second_side()) + seq![
        work(Task::Record { benchmark, repetition }),
    ]
}

/// The first repetitions of a benchmark.
pub open spec fn repetitions(at: int, benchmark: usize, orders: Seq<RunOrder>, count: nat) -> Seq<
    Entry<Task>,
>
    decreases count,
{
    if count == 0 {
        Seq::empty()
    } else {
        let before = repetitions(at, benchmark, orders, (count - 1) as nat);
        before + one_repetition(
            at + before.len(),
            benchmark,
            (count - 1) as usize,
            orders[count - 1],
        )
    }
}

/// A benchmark before its repetitions.
pub open spec fn benchmark_opening(benchmark: usize) -> Seq<Entry<Task>> {
    seq![
        work(Task::Startup { benchmark, side: Side::Baseline }),
        work(Task::Startup { benchmark, side: Side::Candidate }),
        work(Task::CheckInterrupt),
        work(Task::OpenLogs { benchmark }),
    ]
}

/// A benchmark from its startup to its report.
pub open spec fn one_benchmark(at: int, benchmark: usize, orders: Seq<RunOrder>) -> Seq<
    Entry<Task>,
> {
    benchmark_opening(benchmark) + repetitions(at + 4, benchmark, orders, orders.len()) + seq![
        cleanup(Task::CloseLogs { benchmark }, at + 4),
        work(Task::Validate { benchmark }),
    ] + seq![
        held_cleanup(Task::Teardown { benchmark, side: Side::Baseline }, at),
        cleanup(Task::Teardown { benchmark, side: Side::Candidate }, at),
    ] + seq![
        work(Task::Analyze { benchmark }),
        work(Task::CheckInterrupt),
        work(Task::WritePosterior { benchmark }),
        work(Task::WriteReport { benchmark }),
    ]
}

/// Opens a pair of worktrees.
pub open spec fn worktrees_opening(owner: Option<usize>) -> Seq<Entry<Task>> {
    seq![
        work(Task::CreateWorktrees { owner }),
        work(Task::WorktreeStartup { owner, side: Side::Baseline }),
        work(Task::WorktreeStartup { owner, side: Side::Candidate }),
    ]
}

/// Closes a pair of worktrees whose opening starts at a position.
pub open spec fn worktrees_closing(at: int, owner: Option<usize>) -> Seq<Entry<Task>> {
    seq![
        held_cleanup(Task::WorktreeTeardown { owner, side: Side::Baseline }, at + 1),
        cleanup(Task::WorktreeTeardown { owner, side: Side::Candidate }, at + 1),
        cleanup(Task::RemoveWorktrees { owner }, at + 1),
    ]
}

/// A benchmark in worktrees of its own.
pub open spec fn isolated_benchmark(at: int, benchmark: usize, orders: Seq<RunOrder>) -> Seq<
    Entry<Task>,
> {
    worktrees_opening(Some(benchmark)) + one_benchmark(at + 3, benchmark, orders)
        + worktrees_closing(at, Some(benchmark))
}

/// A benchmark as a member of a suite.
pub open spec fn member(at: int, benchmark: usize, plan: BenchmarkPlan) -> Seq<Entry<Task>> {
    seq![work(Task::CheckInterrupt)] + if plan.isolated {
        isolated_benchmark(at + 1, benchmark, plan.orders@)
    } else {
        one_benchmark(at + 1, benchmark, plan.orders@)
    }
}

/// The first members of a suite.
pub open spec fn members(at: int, plans: Seq<BenchmarkPlan>, count: nat) -> Seq<Entry<Task>>
    decreases count,
{
    if count == 0 {
        Seq::empty()
    } else {
        let before = members(at, plans, (count - 1) as nat);
        before + member(at + before.len(), (count - 1) as usize, plans[count - 1])
    }
}

/// Whether some benchmark runs in the shared worktrees.
pub open spec fn shares(plans: Seq<BenchmarkPlan>) -> bool {
    exists|i: int| 0 <= i < plans.len() && !(#[trigger] plans[i]).isolated
}

/// What a suite does before its session is open.
pub open spec fn preparation(benchmarks: nat) -> Seq<Entry<Task>> {
    removals(benchmarks) + configs(benchmarks) + seq![work(Task::OpenSession)]
}

/// The benchmarks of a suite, in the shared worktrees where some need them.
pub open spec fn suite_body(at: int, plans: Seq<BenchmarkPlan>) -> Seq<Entry<Task>> {
    if shares(plans) {
        worktrees_opening(None) + members(at + 3, plans, plans.len()) + worktrees_closing(at, None)
    } else {
        members(at, plans, plans.len())
    }
}

/// A suite once its session is open, up to its teardown.
pub open spec fn suite_scope(at: int, plans: Seq<BenchmarkPlan>) -> Seq<Entry<Task>> {
    seq![work(Task::SuiteStartup), work(Task::InspectWorkingTree)] + suite_body(at + 2, plans)
}

/// The plan of a suite.
pub open spec fn suite_entries(plans: Seq<BenchmarkPlan>) -> Seq<Entry<Task>> {
    let before = preparation(plans.len());
    before + suite_scope(before.len() as int, plans) + seq![
        cleanup(Task::SuiteTeardown, before.len() as int),
        work(Task::CheckInterrupt),
        cleanup(Task::CloseSession, before.len() as int),
    ]
}

/// The hook whose scope a hook closes.
pub open spec fn opener(task: Task) -> Option<Task> {
    match task {
        Task::TeardownEachRun { benchmark, repetition, side } => Some(
            Task::StartupEachRun { benchmark, repetition, side },
        ),
        Task::SuiteTeardownEachRun { benchmark, repetition, side } => Some(
            Task::SuiteStartupEachRun { benchmark, repetition, side },
        ),
        Task::Teardown { benchmark, .. } => Some(
            Task::Startup { benchmark, side: Side::Baseline },
        ),
        Task::WorktreeTeardown { owner, .. } => Some(
            Task::WorktreeStartup { owner, side: Side::Baseline },
        ),
        Task::SuiteTeardown => Some(Task::SuiteStartup),
        _ => None,
    }
}

/// The task that acquires what a task gives back.
pub open spec fn acquirer(task: Task) -> Option<Task> {
    match task {
        Task::CloseLogs { benchmark } => Some(Task::OpenLogs { benchmark }),
        Task::RemoveWorktrees { owner } => Some(Task::CreateWorktrees { owner }),
        Task::CloseSession => Some(Task::OpenSession),
        _ => None,
    }
}

/// Whether the entry of a section fits the section, which starts at `at`: a
/// cleanup closes a scope of this section, right at the hook that belongs to
/// it or right behind what it gives back.
pub open spec fn placed(section: Seq<Entry<Task>>, at: int, i: int) -> bool {
    match section[i].role {
        Role::Work => opener(section[i].task) is None && acquirer(section[i].task) is None,
        Role::Cleanup { opened, held } => {
            &&& at <= opened <= at + i
            &&& held ==> i + 1 < section.len() && section[i + 1].role == (Role::Cleanup {
                opened,
                held: false,
            })
            &&& opener(section[i].task) matches Some(hook) ==> opened < at + i && section[opened
                - at] == work(hook)
            &&& acquirer(section[i].task) matches Some(first) ==> at < opened && section[opened
                - at - 1] == work(first)
        },
    }
}

/// Whether of two cleanups the later one closes a scope that holds the
/// earlier one's, or one that opened afterwards.
pub open spec fn nest(section: Seq<Entry<Task>>, at: int, i: int, j: int) -> bool {
    match (section[i].role, section[j].role) {
        (Role::Cleanup { opened: inner, .. }, Role::Cleanup { opened: outer, .. }) => outer <= inner
            || outer > at + i,
        _ => true,
    }
}

/// Whether the scopes of a section that starts at `at` are well formed.
pub open spec fn fits(section: Seq<Entry<Task>>, at: int) -> bool {
    &&& forall|i: int| 0 <= i < section.len() ==> #[trigger] placed(section, at, i)
    &&& forall|i: int, j: int| 0 <= i < j < section.len() ==> #[trigger] nest(section, at, i, j)
}

proof fn joined_sections_fit(one: Seq<Entry<Task>>, other: Seq<Entry<Task>>, at: int)
    requires
        fits(one, at),
        fits(other, at + one.len()),
    ensures
        fits(one + other, at),
{
    let both = one + other;
    assert forall|i: int| 0 <= i < both.len() implies #[trigger] placed(both, at, i) by {
        if i < one.len() {
            assert(placed(one, at, i));
        } else {
            assert(placed(other, at + one.len(), i - one.len()));
            assert(both[i] == other[i - one.len()]);
        }
    }
    assert forall|i: int, j: int| 0 <= i < j < both.len() implies #[trigger] nest(
        both,
        at,
        i,
        j,
    ) by {
        if j < one.len() {
            assert(nest(one, at, i, j));
        } else if i >= one.len() {
            assert(nest(other, at + one.len(), i - one.len(), j - one.len()));
        } else {
            assert(placed(other, at + one.len(), j - one.len()));
        }
    }
}

/// Whether an entry can close the scope of `inside`, opened at `opened`
/// behind `before`.
spec fn closes(
    closing: Seq<Entry<Task>>,
    k: int,
    before: Seq<Entry<Task>>,
    inside: Seq<Entry<Task>>,
    opened: int,
) -> bool {
    match closing[k].role {
        Role::Work => opener(closing[k].task) is None && acquirer(closing[k].task) is None,
        Role::Cleanup { opened: scope, held } => {
            &&& scope == opened
            &&& held ==> k + 1 < closing.len() && closing[k + 1].role == (Role::Cleanup {
                opened: scope,
                held: false,
            })
            &&& opener(closing[k].task) matches Some(hook) ==> inside.len() > 0 && inside[0]
                == work(hook)
            &&& acquirer(closing[k].task) matches Some(first) ==> before.len() > 0
                && before.last() == work(first)
        },
    }
}

proof fn closed_section_fits(
    before: Seq<Entry<Task>>,
    inside: Seq<Entry<Task>>,
    closing: Seq<Entry<Task>>,
    at: int,
)
    requires
        fits(before, at),
        fits(inside, at + before.len()),
        forall|k: int|
            0 <= k < closing.len() ==> #[trigger] closes(
                closing,
                k,
                before,
                inside,
                at + before.len(),
            ),
    ensures
        fits(before + inside + closing, at),
{
    joined_sections_fit(before, inside, at);
    let open = before + inside;
    let all = open + closing;
    assert forall|i: int| 0 <= i < all.len() implies #[trigger] placed(all, at, i) by {
        if i < open.len() {
            assert(placed(open, at, i));
        } else {
            assert(closes(closing, i - open.len(), before, inside, at + before.len()));
            assert(all[i] == closing[i - open.len()]);
            if inside.len() > 0 {
                assert(all[before.len() as int] == inside[0]);
            }
            if before.len() > 0 {
                assert(all[before.len() - 1] == before.last());
            }
        }
    }
    assert forall|i: int, j: int| 0 <= i < j < all.len() implies #[trigger] nest(
        all,
        at,
        i,
        j,
    ) by {
        if j < open.len() {
            assert(nest(open, at, i, j));
        } else {
            assert(closes(closing, j - open.len(), before, inside, at + before.len()));
            assert(all[j] == closing[j - open.len()]);
            if i < before.len() {
            } else if i < open.len() {
                assert(placed(inside, at + before.len(), i - before.len()));
                assert(all[i] == inside[i - before.len()]);
            } else {
                assert(closes(closing, i - open.len(), before, inside, at + before.len()));
                assert(all[i] == closing[i - open.len()]);
            }
        }
    }
}

proof fn one_run_fits(at: int, benchmark: usize, repetition: usize, side: Side)
    requires
        0 <= at,
        at + 7 <= usize::MAX,
    ensures
        fits(one_run(at, benchmark, repetition, side), at),
{
}

proof fn one_repetition_fits(at: int, benchmark: usize, repetition: usize, order: RunOrder)
    requires
        0 <= at,
        at + 16 <= usize::MAX,
    ensures
        fits(one_repetition(at, benchmark, repetition, order), at),
        one_repetition(at, benchmark, repetition, order).len() == 16,
{
    let check = seq![work(Task::CheckInterrupt)];
    let first = one_run(at + 1, benchmark, repetition, order.first_side());
    let second = one_run(at + 8, benchmark, repetition, order.second_side());
    let record = seq![work(Task::Record { benchmark, repetition })];
    one_run_fits(at + 1, benchmark, repetition, order.first_side());
    one_run_fits(at + 8, benchmark, repetition, order.second_side());
    joined_sections_fit(check, first, at);
    joined_sections_fit(check + first, second, at);
    joined_sections_fit(check + first + second, record, at);
}

proof fn repetitions_fit(at: int, benchmark: usize, orders: Seq<RunOrder>, count: nat)
    requires
        0 <= at,
        at + repetitions(at, benchmark, orders, count).len() <= usize::MAX,
    ensures
        fits(repetitions(at, benchmark, orders, count), at),
        repetitions(at, benchmark, orders, count).len() == 16 * count,
    decreases count,
{
    if count > 0 {
        let before = repetitions(at, benchmark, orders, (count - 1) as nat);
        repetitions_fit(at, benchmark, orders, (count - 1) as nat);
        one_repetition_fits(
            at + before.len(),
            benchmark,
            (count - 1) as usize,
            orders[count - 1],
        );
        joined_sections_fit(
            before,
            one_repetition(
                at + before.len(),
                benchmark,
                (count - 1) as usize,
                orders[count - 1],
            ),
            at,
        );
    }
}

proof fn one_benchmark_fits(at: int, benchmark: usize, orders: Seq<RunOrder>)
    requires
        0 <= at,
        at + one_benchmark(at, benchmark, orders).len() <= usize::MAX,
    ensures
        fits(one_benchmark(at, benchmark, orders), at),
        one_benchmark(at, benchmark, orders)[0] == work(
            Task::Startup { benchmark, side: Side::Baseline },
        ),
{
    let before = benchmark_opening(benchmark);
    let inside = repetitions(at + 4, benchmark, orders, orders.len());
    let closing = seq![
        cleanup(Task::CloseLogs { benchmark }, at + 4),
        work(Task::Validate { benchmark }),
    ];
    let teardown = seq![
        held_cleanup(Task::Teardown { benchmark, side: Side::Baseline }, at),
        cleanup(Task::Teardown { benchmark, side: Side::Candidate }, at),
    ];
    let rest = seq![
        work(Task::Analyze { benchmark }),
        work(Task::CheckInterrupt),
        work(Task::WritePosterior { benchmark }),
        work(Task::WriteReport { benchmark }),
    ];
    let measured = before + inside + closing;
    repetitions_fit(at + 4, benchmark, orders, orders.len());
    assert(before.last() == work(Task::OpenLogs { benchmark }));
    closed_section_fits(before, inside, closing, at);
    assert(measured[0] == before[0]);
    let nothing = Seq::<Entry<Task>>::empty();
    closed_section_fits(nothing, measured, teardown, at);
    assert(nothing + measured + teardown =~= measured + teardown);
    joined_sections_fit(measured + teardown, rest, at);
}

proof fn isolated_benchmark_fits(at: int, benchmark: usize, orders: Seq<RunOrder>)
    requires
        0 <= at,
        at + isolated_benchmark(at, benchmark, orders).len() <= usize::MAX,
    ensures
        fits(isolated_benchmark(at, benchmark, orders), at),
{
    one_benchmark_fits(at + 3, benchmark, orders);
    worktree_scope_fits(at, Some(benchmark), one_benchmark(at + 3, benchmark, orders));
}

proof fn worktree_scope_fits(at: int, owner: Option<usize>, inside: Seq<Entry<Task>>)
    requires
        0 <= at,
        fits(inside, at + 3),
        at + inside.len() + 6 <= usize::MAX,
    ensures
        fits(worktrees_opening(owner) + inside + worktrees_closing(at, owner), at),
{
    let create = seq![work(Task::CreateWorktrees { owner })];
    let startup = seq![
        work(Task::WorktreeStartup { owner, side: Side::Baseline }),
        work(Task::WorktreeStartup { owner, side: Side::Candidate }),
    ];
    let closing = worktrees_closing(at, owner);
    joined_sections_fit(startup, inside, at + 1);
    assert((startup + inside)[0] == startup[0]);
    closed_section_fits(create, startup + inside, closing, at);
    assert(worktrees_opening(owner) + inside + closing =~= create + (startup + inside) + closing);
}

proof fn members_fit(at: int, plans: Seq<BenchmarkPlan>, count: nat)
    requires
        0 <= at,
        at + members(at, plans, count).len() <= usize::MAX,
    ensures
        fits(members(at, plans, count), at),
    decreases count,
{
    if count > 0 {
        let before = members(at, plans, (count - 1) as nat);
        let plan = plans[count - 1];
        let benchmark = (count - 1) as usize;
        let here = at + before.len();
        members_fit(at, plans, (count - 1) as nat);
        let check = seq![work(Task::CheckInterrupt)];
        let last = member(here, benchmark, plan);
        if plan.isolated {
            let inside = isolated_benchmark(here + 1, benchmark, plan.orders@);
            assert(last =~= check + inside);
            isolated_benchmark_fits(here + 1, benchmark, plan.orders@);
            joined_sections_fit(check, inside, here);
        } else {
            let inside = one_benchmark(here + 1, benchmark, plan.orders@);
            assert(last =~= check + inside);
            one_benchmark_fits(here + 1, benchmark, plan.orders@);
            joined_sections_fit(check, inside, here);
        }
        joined_sections_fit(before, last, at);
    }
}

proof fn removals_shape(benchmarks: nat)
    ensures
        removals(benchmarks).len() == 5 * benchmarks,
        forall|i: int|
            0 <= i < removals(benchmarks).len() ==> {
                &&& (#[trigger] removals(benchmarks)[i]).role == Role::Cleanup {
                    opened: 0,
                    held: false,
                }
                &&& removals(benchmarks)[i].task is RemoveOutput
            },
    decreases benchmarks,
{
    if benchmarks > 0 {
        removals_shape((benchmarks - 1) as nat);
    }
}

proof fn preparation_fits(benchmarks: nat)
    ensures
        fits(preparation(benchmarks), 0),
        preparation(benchmarks).last() == work(Task::OpenSession),
{
    removals_shape(benchmarks);
    let removed = removals(benchmarks);
    let written = configs(benchmarks);
    assert(fits(removed, 0));
    assert(fits(written, removed.len() as int));
    joined_sections_fit(removed, written, 0);
    joined_sections_fit(removed + written, seq![work(Task::OpenSession)], 0);
}

proof fn suite_fits(plans: Seq<BenchmarkPlan>)
    requires
        suite_entries(plans).len() <= usize::MAX,
    ensures
        fits(suite_entries(plans), 0),
{
    let before = preparation(plans.len());
    let at = before.len() as int;
    let body = suite_body(at + 2, plans);
    let start = seq![work(Task::SuiteStartup), work(Task::InspectWorkingTree)];
    preparation_fits(plans.len());
    if shares(plans) {
        let inside = members(at + 5, plans, plans.len());
        members_fit(at + 5, plans, plans.len());
        worktree_scope_fits(at + 2, None, inside);
    } else {
        members_fit(at + 2, plans, plans.len());
    }
    joined_sections_fit(start, body, at);
    assert(suite_scope(at, plans)[0] == start[0]);
    closed_section_fits(
        before,
        suite_scope(at, plans),
        seq![
            cleanup(Task::SuiteTeardown, at),
            work(Task::CheckInterrupt),
            cleanup(Task::CloseSession, at),
        ],
        0,
    );
}

/// The plan of a suite can be carried out.
pub proof fn suite_plan_is_well_formed(plans: Seq<BenchmarkPlan>)
    requires
        suite_entries(plans).len() <= usize::MAX,
    ensures
        well_formed(suite_entries(plans)),
{
    suite_fits(plans);
    let entries = suite_entries(plans);
    assert forall|i: int| 0 <= i < entries.len() implies well_placed(entries, i) by {
        assert(placed(entries, 0, i));
    }
}

/// Scopes close in the opposite order of their opening.
pub proof fn suite_scopes_nest(plans: Seq<BenchmarkPlan>, earlier: int, later: int)
    requires
        suite_entries(plans).len() <= usize::MAX,
        0 <= earlier < later < suite_entries(plans).len(),
    ensures
        nest(suite_entries(plans), 0, earlier, later),
{
    suite_fits(plans);
}

/// A teardown hook is attempted exactly where its startup hook was, whatever
/// failed: the startup itself, the work between them, or another teardown.
pub proof fn teardown_follows_its_startup(
    plans: Seq<BenchmarkPlan>,
    fails: spec_fn(int) -> bool,
    teardown: int,
    hook: Task,
)
    requires
        suite_entries(plans).len() <= usize::MAX,
        0 <= teardown < suite_entries(plans).len(),
        opener(suite_entries(plans)[teardown].task) == Some(hook),
    ensures
        exists|startup: int|
            {
                &&& 0 <= startup < teardown
                &&& #[trigger] suite_entries(plans)[startup] == work(hook)
                &&& walk(suite_entries(plans), fails, 0, None).contains(teardown) <==> walk(
                    suite_entries(plans),
                    fails,
                    0,
                    None,
                ).contains(startup)
            },
{
    let entries = suite_entries(plans);
    suite_fits(plans);
    suite_plan_is_well_formed(plans);
    assert(placed(entries, 0, teardown));
    match entries[teardown].role {
        Role::Work => {},
        Role::Cleanup { opened, held } => {
            opened_scopes_are_cleaned_up(entries, fails, teardown, opened, held);
            work_ends_with_the_first_failure(entries, fails, opened as int);
            assert(entries[opened as int] == work(hook));
        },
    }
}

/// What was acquired is given back exactly where acquiring it succeeded.
pub proof fn what_is_acquired_is_given_back(
    plans: Seq<BenchmarkPlan>,
    fails: spec_fn(int) -> bool,
    release: int,
    first: Task,
)
    requires
        suite_entries(plans).len() <= usize::MAX,
        0 <= release < suite_entries(plans).len(),
        acquirer(suite_entries(plans)[release].task) == Some(first),
    ensures
        exists|acquired: int|
            {
                &&& 0 <= acquired < release
                &&& #[trigger] suite_entries(plans)[acquired] == work(first)
                &&& walk(suite_entries(plans), fails, 0, None).contains(release) <==> walk(
                    suite_entries(plans),
                    fails,
                    0,
                    None,
                ).contains(acquired) && !fails(acquired)
            },
{
    let entries = suite_entries(plans);
    suite_fits(plans);
    suite_plan_is_well_formed(plans);
    assert(placed(entries, 0, release));
    match entries[release].role {
        Role::Work => {},
        Role::Cleanup { opened, held } => {
            opened_scopes_are_cleaned_up(entries, fails, release, opened, held);
            work_ends_with_the_first_failure(entries, fails, opened - 1);
            assert(entries[opened - 1] == work(first));
            let steps = walk(entries, fails, 0, None);
            if steps.contains(opened - 1) && !fails(opened - 1) {
                assert forall|i: int| 0 <= i < opened implies !#[trigger] fails(i) by {
                    if i < opened - 1 {
                    }
                }
            }
        },
    }
}

/// Whether a task is about worktrees.
pub open spec fn concerns_worktrees(task: Task) -> bool {
    ||| task is CreateWorktrees
    ||| task is WorktreeStartup
    ||| task is WorktreeTeardown
    ||| task is RemoveWorktrees
}

/// The suite's startup comes before any worktree is created, and its teardown
/// after every worktree is removed.
pub proof fn suite_hooks_surround_worktrees(plans: Seq<BenchmarkPlan>, position: int)
    requires
        suite_entries(plans).len() <= usize::MAX,
        0 <= position < suite_entries(plans).len(),
        concerns_worktrees(suite_entries(plans)[position].task),
    ensures
        exists|startup: int, teardown: int|
            {
                &&& 0 <= startup < position < teardown < suite_entries(plans).len()
                &&& (#[trigger] suite_entries(plans)[startup]).task is SuiteStartup
                &&& (#[trigger] suite_entries(plans)[teardown]).task is SuiteTeardown
            },
{
    let entries = suite_entries(plans);
    let before = preparation(plans.len());
    let scope = suite_scope(before.len() as int, plans);
    removals_shape(plans.len());
    let startup = before.len() as int;
    let teardown = startup + scope.len();
    assert(entries[startup] == scope[0]);
    assert(entries[startup].task is SuiteStartup);
    assert(entries[teardown].task is SuiteTeardown);
    if position < startup {
        assert(entries[position] == before[position]);
        assert(false);
    }
    assert(startup < position < teardown);
}

/// Every file that an earlier suite left for a benchmark is removed, whatever
/// fails.
pub proof fn stale_outputs_are_always_removed(
    plans: Seq<BenchmarkPlan>,
    fails: spec_fn(int) -> bool,
    benchmark: usize,
    artifact: Artifact,
)
    requires
        benchmark < plans.len(),
    ensures
        exists|i: int|
            0 <= i < suite_entries(plans).len() && (#[trigger] suite_entries(plans)[i]).task
                == (Task::RemoveOutput { benchmark, artifact }) && walk(
                suite_entries(plans),
                fails,
                0,
                None,
            ).contains(i),
{
    let entries = suite_entries(plans);
    let offset: int = match artifact {
        Artifact::Config => 0,
        Artifact::Log => 1,
        Artifact::Measurements => 2,
        Artifact::Posterior => 3,
        Artifact::Report => 4,
    };
    let i = 5 * benchmark + offset;
    removals_shape(plans.len());
    removal_position(plans.len(), benchmark, artifact, offset);
    assert(entries[i] == removals(plans.len())[i]);
    execution_follows_the_plan(entries, fails);
    first_failure_found(fails, 0, entries.len() as int);
    assert(carried_out(entries, first_failure(fails, 0, entries.len() as int), i));
}

proof fn removal_position(benchmarks: nat, benchmark: usize, artifact: Artifact, offset: int)
    requires
        benchmark < benchmarks,
        offset == (match artifact {
            Artifact::Config => 0int,
            Artifact::Log => 1,
            Artifact::Measurements => 2,
            Artifact::Posterior => 3,
            Artifact::Report => 4,
        }),
    ensures
        removals(benchmarks)[5 * benchmark + offset].task == (Task::RemoveOutput {
            benchmark,
            artifact,
        }),
    decreases benchmarks,
{
    removals_shape((benchmarks - 1) as nat);
    if benchmark < benchmarks - 1 {
        removal_position((benchmarks - 1) as nat, benchmark, artifact, offset);
    }
}

/// Whether a section creates the pair of worktrees of an owner.
pub open spec fn creates(section: Seq<Entry<Task>>, owner: Option<usize>) -> bool {
    section.contains(work(Task::CreateWorktrees { owner }))
}

proof fn joined_sections_contain(
    one: Seq<Entry<Task>>,
    other: Seq<Entry<Task>>,
    entry: Entry<Task>,
)
    ensures
        (one + other).contains(entry) <==> one.contains(entry) || other.contains(entry),
{
    let both = one + other;
    if one.contains(entry) {
        let i = choose|i: int| 0 <= i < one.len() && one[i] == entry;
        assert(both[i] == entry);
    }
    if other.contains(entry) {
        let i = choose|i: int| 0 <= i < other.len() && other[i] == entry;
        assert(both[one.len() + i] == entry);
    }
    if both.contains(entry) {
        let i = choose|i: int| 0 <= i < both.len() && both[i] == entry;
        if i < one.len() {
            assert(one[i] == entry);
        } else {
            assert(other[i - one.len()] == entry);
        }
    }
}

proof fn repetitions_create_nothing(
    at: int,
    benchmark: usize,
    orders: Seq<RunOrder>,
    count: nat,
    owner: Option<usize>,
)
    ensures
        !creates(repetitions(at, benchmark, orders, count), owner),
    decreases count,
{
    if count > 0 {
        let before = repetitions(at, benchmark, orders, (count - 1) as nat);
        repetitions_create_nothing(at, benchmark, orders, (count - 1) as nat, owner);
        joined_sections_contain(
            before,
            one_repetition(
                at + before.len(),
                benchmark,
                (count - 1) as usize,
                orders[count - 1],
            ),
            work(Task::CreateWorktrees { owner }),
        );
    }
}

proof fn one_benchmark_creates_nothing(
    at: int,
    benchmark: usize,
    orders: Seq<RunOrder>,
    owner: Option<usize>,
)
    ensures
        !creates(one_benchmark(at, benchmark, orders), owner),
{
    let all = one_benchmark(at, benchmark, orders);
    let inside = repetitions(at + 4, benchmark, orders, orders.len());
    repetitions_create_nothing(at + 4, benchmark, orders, orders.len(), owner);
    if creates(all, owner) {
        let i = choose|i: int|
            0 <= i < all.len() && all[i] == work(Task::CreateWorktrees { owner });
        assert(4 <= i < 4 + inside.len());
        assert(inside[i - 4] == all[i]);
    }
}

proof fn worktree_scope_creates(
    at: int,
    inside: Seq<Entry<Task>>,
    own: Option<usize>,
    owner: Option<usize>,
)
    ensures
        creates(worktrees_opening(own) + inside + worktrees_closing(at, own), owner) <==> owner
            == own || creates(inside, owner),
{
    let entry = work(Task::CreateWorktrees { owner });
    let opening = worktrees_opening(own);
    let closing = worktrees_closing(at, own);
    joined_sections_contain(opening, inside, entry);
    joined_sections_contain(opening + inside, closing, entry);
    assert(opening.contains(entry) <==> owner == own) by {
        assert(opening[0] == work(Task::CreateWorktrees { owner: own }));
    }
    assert(!closing.contains(entry));
}

proof fn members_create(at: int, plans: Seq<BenchmarkPlan>, count: nat, owner: Option<usize>)
    requires
        count <= plans.len() <= usize::MAX,
    ensures
        creates(members(at, plans, count), owner) <==> (owner matches Some(benchmark) && benchmark
            < count && plans[benchmark as int].isolated),
    decreases count,
{
    if count > 0 {
        let before = members(at, plans, (count - 1) as nat);
        let plan = plans[count - 1];
        let benchmark = (count - 1) as usize;
        let here = at + before.len();
        let entry = work(Task::CreateWorktrees { owner });
        members_create(at, plans, (count - 1) as nat, owner);
        let check = seq![work(Task::CheckInterrupt)];
        let inside = one_benchmark(here + 4, benchmark, plan.orders@);
        if plan.isolated {
            one_benchmark_creates_nothing(here + 4, benchmark, plan.orders@, owner);
            worktree_scope_creates(here + 1, inside, Some(benchmark), owner);
            joined_sections_contain(
                check,
                isolated_benchmark(here + 1, benchmark, plan.orders@),
                entry,
            );
        } else {
            one_benchmark_creates_nothing(here + 1, benchmark, plan.orders@, owner);
            joined_sections_contain(
                check,
                one_benchmark(here + 1, benchmark, plan.orders@),
                entry,
            );
        }
        joined_sections_contain(before, member(here, benchmark, plan), entry);
    }
}

/// A shared pair of worktrees is created exactly where some benchmark is not
/// isolated, and a pair for a benchmark alone exactly where it is.
pub proof fn worktrees_follow_isolation(plans: Seq<BenchmarkPlan>, owner: Option<usize>)
    requires
        suite_entries(plans).len() <= usize::MAX,
    ensures
        creates(suite_entries(plans), owner) <==> (match owner {
            None => shares(plans),
            Some(benchmark) => benchmark < plans.len() && plans[benchmark as int].isolated,
        }),
{
    let entries = suite_entries(plans);
    let entry = work(Task::CreateWorktrees { owner });
    let before = preparation(plans.len());
    let at = before.len() as int;
    let start = seq![work(Task::SuiteStartup), work(Task::InspectWorkingTree)];
    let end = seq![
        cleanup(Task::SuiteTeardown, at),
        work(Task::CheckInterrupt),
        cleanup(Task::CloseSession, at),
    ];
    removals_shape(plans.len());
    assert(!before.contains(entry));
    if shares(plans) {
        members_create(at + 5, plans, plans.len(), owner);
        worktree_scope_creates(at + 2, members(at + 5, plans, plans.len()), None, owner);
    } else {
        members_create(at + 2, plans, plans.len(), owner);
    }
    joined_sections_contain(start, suite_body(at + 2, plans), entry);
    joined_sections_contain(before, suite_scope(at, plans), entry);
    joined_sections_contain(before + suite_scope(at, plans), end, entry);
}

/// Whether a section measures both sides of a repetition, the first side of
/// its order before the second.
pub open spec fn measures(
    section: Seq<Entry<Task>>,
    benchmark: usize,
    repetition: usize,
    order: RunOrder,
) -> bool {
    exists|i: int, j: int|
        {
            &&& 0 <= i < j < section.len()
            &&& #[trigger] section[i] == work(
                Task::Measure { benchmark, repetition, side: order.first_side() },
            )
            &&& #[trigger] section[j] == work(
                Task::Measure { benchmark, repetition, side: order.second_side() },
            )
        }
}

proof fn joined_sections_measure(
    before: Seq<Entry<Task>>,
    section: Seq<Entry<Task>>,
    after: Seq<Entry<Task>>,
    benchmark: usize,
    repetition: usize,
    order: RunOrder,
)
    requires
        measures(section, benchmark, repetition, order),
    ensures
        measures(before + section + after, benchmark, repetition, order),
{
    let all = before + section + after;
    let (i, j) = choose|i: int, j: int|
        {
            &&& 0 <= i < j < section.len()
            &&& #[trigger] section[i] == work(
                Task::Measure { benchmark, repetition, side: order.first_side() },
            )
            &&& #[trigger] section[j] == work(
                Task::Measure { benchmark, repetition, side: order.second_side() },
            )
        };
    assert(all[before.len() + i] == section[i]);
    assert(all[before.len() + j] == section[j]);
}

proof fn repetitions_measure(
    at: int,
    benchmark: usize,
    orders: Seq<RunOrder>,
    count: nat,
    repetition: usize,
)
    requires
        repetition < count <= orders.len() <= usize::MAX,
    ensures
        measures(
            repetitions(at, benchmark, orders, count),
            benchmark,
            repetition,
            orders[repetition as int],
        ),
    decreases count,
{
    let before = repetitions(at, benchmark, orders, (count - 1) as nat);
    let order = orders[repetition as int];
    let last = one_repetition(
        at + before.len(),
        benchmark,
        (count - 1) as usize,
        orders[count - 1],
    );
    let nothing = Seq::<Entry<Task>>::empty();
    if repetition == count - 1 {
        let first = Task::Measure { benchmark, repetition, side: order.first_side() };
        let second = Task::Measure { benchmark, repetition, side: order.second_side() };
        assert(last[4] == work(first));
        assert(last[11] == work(second));
        assert(measures(last, benchmark, repetition, order));
        joined_sections_measure(before, last, nothing, benchmark, repetition, order);
        assert(before + last + nothing =~= before + last);
    } else {
        repetitions_measure(at, benchmark, orders, (count - 1) as nat, repetition);
        joined_sections_measure(nothing, before, last, benchmark, repetition, order);
        assert(nothing + before + last =~= before + last);
    }
}

proof fn one_benchmark_measures(
    at: int,
    benchmark: usize,
    orders: Seq<RunOrder>,
    repetition: usize,
)
    requires
        repetition < orders.len() <= usize::MAX,
    ensures
        measures(
            one_benchmark(at, benchmark, orders),
            benchmark,
            repetition,
            orders[repetition as int],
        ),
{
    let before = benchmark_opening(benchmark);
    let inside = repetitions(at + 4, benchmark, orders, orders.len());
    let all = one_benchmark(at, benchmark, orders);
    let after = all.subrange((before + inside).len() as int, all.len() as int);
    repetitions_measure(at + 4, benchmark, orders, orders.len(), repetition);
    joined_sections_measure(
        before,
        inside,
        after,
        benchmark,
        repetition,
        orders[repetition as int],
    );
    assert(before + inside + after =~= all);
}

proof fn members_measure(
    at: int,
    plans: Seq<BenchmarkPlan>,
    count: nat,
    benchmark: usize,
    repetition: usize,
)
    requires
        benchmark < count <= plans.len() <= usize::MAX,
        repetition < plans[benchmark as int].orders@.len() <= usize::MAX,
    ensures
        measures(
            members(at, plans, count),
            benchmark,
            repetition,
            plans[benchmark as int].orders@[repetition as int],
        ),
    decreases count,
{
    let before = members(at, plans, (count - 1) as nat);
    let here = at + before.len();
    let last = member(here, (count - 1) as usize, plans[count - 1]);
    let order = plans[benchmark as int].orders@[repetition as int];
    let nothing = Seq::<Entry<Task>>::empty();
    if benchmark == count - 1 {
        let plan = plans[count - 1];
        let check = seq![work(Task::CheckInterrupt)];
        if plan.isolated {
            let inside = one_benchmark(here + 4, benchmark, plan.orders@);
            let opening = check + worktrees_opening(Some(benchmark));
            let closing = worktrees_closing(here + 1, Some(benchmark));
            one_benchmark_measures(here + 4, benchmark, plan.orders@, repetition);
            joined_sections_measure(opening, inside, closing, benchmark, repetition, order);
            assert(opening + inside + closing =~= last);
        } else {
            let inside = one_benchmark(here + 1, benchmark, plan.orders@);
            one_benchmark_measures(here + 1, benchmark, plan.orders@, repetition);
            joined_sections_measure(check, inside, nothing, benchmark, repetition, order);
            assert(check + inside + nothing =~= last);
        }
        joined_sections_measure(before, last, nothing, benchmark, repetition, order);
        assert(before + last + nothing =~= before + last);
    } else {
        members_measure(at, plans, (count - 1) as nat, benchmark, repetition);
        joined_sections_measure(nothing, before, last, benchmark, repetition, order);
        assert(nothing + before + last =~= before + last);
    }
}

/// Every repetition of every benchmark measures both sides, in its order.
pub proof fn every_repetition_measures_both_sides(
    plans: Seq<BenchmarkPlan>,
    benchmark: usize,
    repetition: usize,
)
    requires
        suite_entries(plans).len() <= usize::MAX,
        benchmark < plans.len(),
        repetition < plans[benchmark as int].orders@.len(),
    ensures
        measures(
            suite_entries(plans),
            benchmark,
            repetition,
            plans[benchmark as int].orders@[repetition as int],
        ),
{
    let before = preparation(plans.len());
    let at = before.len() as int;
    let start = seq![work(Task::SuiteStartup), work(Task::InspectWorkingTree)];
    let end = seq![
        cleanup(Task::SuiteTeardown, at),
        work(Task::CheckInterrupt),
        cleanup(Task::CloseSession, at),
    ];
    let orders = plans[benchmark as int].orders@;
    let order = orders[repetition as int];
    assert(orders.len() <= usize::MAX) by {
        broadcast use vstd::std_specs::vec::axiom_spec_len;

        assert(plans[benchmark as int].orders.len() <= usize::MAX);
    }
    if shares(plans) {
        let inside = members(at + 5, plans, plans.len());
        members_measure(at + 5, plans, plans.len(), benchmark, repetition);
        joined_sections_measure(
            before + start + worktrees_opening(None),
            inside,
            worktrees_closing(at + 2, None) + end,
            benchmark,
            repetition,
            order,
        );
        assert(before + start + worktrees_opening(None) + inside + (worktrees_closing(at + 2, None)
            + end) =~= suite_entries(plans));
    } else {
        let inside = members(at + 2, plans, plans.len());
        members_measure(at + 2, plans, plans.len(), benchmark, repetition);
        joined_sections_measure(before + start, inside, end, benchmark, repetition, order);
        assert(before + start + inside + end =~= suite_entries(plans));
    }
}

/// Whether the hooks of each run stand around a position where it measures
/// one: the suite's, and inside them the benchmark's.
pub open spec fn surrounded(section: Seq<Entry<Task>>, i: int) -> bool {
    section[i].task matches Task::Measure { benchmark, repetition, side } ==> {
        &&& 3 <= i < section.len() - 3
        &&& section[i - 3].task == (Task::SuiteStartupEachRun { benchmark, repetition, side })
        &&& section[i - 2].task == (Task::StartupEachRun { benchmark, repetition, side })
        &&& section[i + 2].task == (Task::TeardownEachRun { benchmark, repetition, side })
        &&& section[i + 3].task == (Task::SuiteTeardownEachRun { benchmark, repetition, side })
    }
}

spec fn all_surrounded(section: Seq<Entry<Task>>) -> bool {
    forall|i: int| 0 <= i < section.len() ==> #[trigger] surrounded(section, i)
}

proof fn joined_sections_surrounded(one: Seq<Entry<Task>>, other: Seq<Entry<Task>>)
    requires
        all_surrounded(one),
        all_surrounded(other),
    ensures
        all_surrounded(one + other),
{
    let both = one + other;
    assert forall|i: int| 0 <= i < both.len() implies #[trigger] surrounded(both, i) by {
        if i < one.len() {
            assert(surrounded(one, i));
        } else {
            assert(surrounded(other, i - one.len()));
        }
    }
}

proof fn repetitions_surrounded(at: int, benchmark: usize, orders: Seq<RunOrder>, count: nat)
    ensures
        all_surrounded(repetitions(at, benchmark, orders, count)),
    decreases count,
{
    if count > 0 {
        let before = repetitions(at, benchmark, orders, (count - 1) as nat);
        let here = at + before.len();
        let repetition = (count - 1) as usize;
        let order = orders[count - 1];
        let check = seq![work(Task::CheckInterrupt)];
        let first = one_run(here + 1, benchmark, repetition, order.first_side());
        let second = one_run(here + 8, benchmark, repetition, order.second_side());
        let record = seq![work(Task::Record { benchmark, repetition })];
        repetitions_surrounded(at, benchmark, orders, (count - 1) as nat);
        assert(all_surrounded(first));
        assert(all_surrounded(second));
        joined_sections_surrounded(check, first);
        joined_sections_surrounded(check + first, second);
        joined_sections_surrounded(check + first + second, record);
        joined_sections_surrounded(before, check + first + second + record);
    }
}

proof fn one_benchmark_surrounded(at: int, benchmark: usize, orders: Seq<RunOrder>)
    ensures
        all_surrounded(one_benchmark(at, benchmark, orders)),
{
    let before = benchmark_opening(benchmark);
    let inside = repetitions(at + 4, benchmark, orders, orders.len());
    let all = one_benchmark(at, benchmark, orders);
    let after = all.subrange((before + inside).len() as int, all.len() as int);
    repetitions_surrounded(at + 4, benchmark, orders, orders.len());
    assert forall|i: int| 0 <= i < after.len() implies #[trigger] surrounded(after, i) by {
        assert(after.len() == 8);
    }
    joined_sections_surrounded(before, inside);
    joined_sections_surrounded(before + inside, after);
    assert(before + inside + after =~= all);
}

proof fn members_surrounded(at: int, plans: Seq<BenchmarkPlan>, count: nat)
    ensures
        all_surrounded(members(at, plans, count)),
    decreases count,
{
    if count > 0 {
        let before = members(at, plans, (count - 1) as nat);
        let plan = plans[count - 1];
        let benchmark = (count - 1) as usize;
        let here = at + before.len();
        let last = member(here, benchmark, plan);
        let check = seq![work(Task::CheckInterrupt)];
        members_surrounded(at, plans, (count - 1) as nat);
        if plan.isolated {
            let inside = one_benchmark(here + 4, benchmark, plan.orders@);
            let opening = check + worktrees_opening(Some(benchmark));
            let closing = worktrees_closing(here + 1, Some(benchmark));
            one_benchmark_surrounded(here + 4, benchmark, plan.orders@);
            joined_sections_surrounded(opening, inside);
            joined_sections_surrounded(opening + inside, closing);
            assert(opening + inside + closing =~= last);
        } else {
            one_benchmark_surrounded(here + 1, benchmark, plan.orders@);
            joined_sections_surrounded(check, one_benchmark(here + 1, benchmark, plan.orders@));
        }
        joined_sections_surrounded(before, last);
    }
}

/// The suite's hooks for each run, and inside them the benchmark's, surround
/// every measured command.
pub proof fn hooks_surround_every_run(plans: Seq<BenchmarkPlan>, position: int)
    requires
        0 <= position < suite_entries(plans).len(),
    ensures
        surrounded(suite_entries(plans), position),
{
    let before = preparation(plans.len());
    let at = before.len() as int;
    let start = seq![work(Task::SuiteStartup), work(Task::InspectWorkingTree)];
    let end = seq![
        cleanup(Task::SuiteTeardown, at),
        work(Task::CheckInterrupt),
        cleanup(Task::CloseSession, at),
    ];
    removals_shape(plans.len());
    assert(all_surrounded(before));
    if shares(plans) {
        let opening = worktrees_opening(None);
        let inside = members(at + 5, plans, plans.len());
        members_surrounded(at + 5, plans, plans.len());
        joined_sections_surrounded(opening, inside);
        joined_sections_surrounded(opening + inside, worktrees_closing(at + 2, None));
    } else {
        members_surrounded(at + 2, plans, plans.len());
    }
    joined_sections_surrounded(start, suite_body(at + 2, plans));
    joined_sections_surrounded(before, suite_scope(at, plans));
    joined_sections_surrounded(before + suite_scope(at, plans), end);
}

/// Whether a part of a plan stands in it from a position on.
spec fn holds(entries: Seq<Entry<Task>>, from: int, part: Seq<Entry<Task>>) -> bool {
    &&& 0 <= from
    &&& from + part.len() <= entries.len()
    &&& forall|i: int| 0 <= i < part.len() ==> #[trigger] part[i] == entries[from + i]
}

proof fn parts_of_parts_hold(
    entries: Seq<Entry<Task>>,
    from: int,
    outer: Seq<Entry<Task>>,
    inner_from: int,
    inner: Seq<Entry<Task>>,
)
    requires
        holds(entries, from, outer),
        holds(outer, inner_from, inner),
    ensures
        holds(entries, from + inner_from, inner),
{
    assert forall|i: int| 0 <= i < inner.len() implies #[trigger] inner[i] == entries[from
        + inner_from + i] by {
        assert(inner[i] == outer[inner_from + i]);
    }
}

proof fn held_parts_are_subranges(
    entries: Seq<Entry<Task>>,
    from: int,
    part: Seq<Entry<Task>>,
    to: int,
)
    requires
        holds(entries, from, part),
        to == from + part.len(),
    ensures
        entries.subrange(from, to) == part,
{
    assert(entries.subrange(from, to) =~= part);
}

proof fn repetitions_hold(
    at: int,
    benchmark: usize,
    orders: Seq<RunOrder>,
    count: nat,
    repetition: int,
)
    ensures
        repetitions(at, benchmark, orders, count).len() == 16 * count,
        0 <= repetition < count ==> holds(
            repetitions(at, benchmark, orders, count),
            16 * repetition,
            one_repetition(
                at + 16 * repetition,
                benchmark,
                repetition as usize,
                orders[repetition],
            ),
        ),
    decreases count,
{
    if count > 0 {
        repetitions_hold(at, benchmark, orders, (count - 1) as nat, repetition);
    }
}

/// Where each member of a suite starts, and where the last one ends.
#[verifier::spinoff_prover]
#[verifier::rlimit(40)]
proof fn members_hold(at: int, plans: Seq<BenchmarkPlan>, count: nat) -> (starts: Seq<int>)
    requires
        count <= plans.len(),
    ensures
        starts.len() == count + 1,
        starts[0] == at,
        starts[count as int] == at + members(at, plans, count).len(),
        forall|i: int|
            #![trigger plans[i]]
            0 <= i < count ==> starts[i + 1] == starts[i] + member(
                starts[i],
                i as usize,
                plans[i],
            ).len() && holds(
                members(at, plans, count),
                starts[i] - at,
                member(starts[i], i as usize, plans[i]),
            ),
    decreases count,
{
    if count == 0 {
        seq![at]
    } else {
        let before = members(at, plans, (count - 1) as nat);
        let earlier = members_hold(at, plans, (count - 1) as nat);
        let last = member(at + before.len(), (count - 1) as usize, plans[count - 1]);
        let all = members(at, plans, count);
        let starts = earlier.push(at + all.len());
        assert forall|i: int| #![trigger plans[i]] 0 <= i < count implies starts[i + 1]
            == starts[i] + member(starts[i], i as usize, plans[i]).len() && holds(
            all,
            starts[i] - at,
            member(starts[i], i as usize, plans[i]),
        ) by {
            assert(starts[i] == earlier[i]);
            if i < count - 1 {
                assert(starts[i + 1] == earlier[i + 1]);
                assert(holds(all, 0, before));
                parts_of_parts_hold(
                    all,
                    0,
                    before,
                    starts[i] - at,
                    member(starts[i], i as usize, plans[i]),
                );
            }
        }
        starts
    }
}

proof fn removals_hold(benchmarks: nat, benchmark: int)
    ensures
        removals(benchmarks).len() == 5 * benchmarks,
        0 <= benchmark < benchmarks ==> holds(
            removals(benchmarks),
            5 * benchmark,
            removal(benchmark),
        ),
    decreases benchmarks,
{
    if benchmarks > 0 {
        removals_hold((benchmarks - 1) as nat, benchmark);
    }
}

/// The tasks of one benchmark, where they stand.
#[verifier::spinoff_prover]
#[verifier::rlimit(80)]
proof fn a_member_does_these_tasks(
    entries: Seq<Entry<Task>>,
    start: int,
    benchmark: usize,
    plan: BenchmarkPlan,
    repetition: usize,
)
    requires
        holds(entries, start, member(start, benchmark, plan)),
    ensures
        ({
            let own = plan.isolated;
            let runs = plan.orders@.len() as int;
            let order = plan.orders@[repetition as int];
            let opened = start + 1 + (if own {
                3int
            } else {
                0int
            });
            let measured = opened + 4 + 16 * runs;
            let row = opened + 4 + 16 * repetition;
            let first = if order is BaselineFirst {
                Side::Baseline
            } else {
                Side::Candidate
            };
            let second = if order is BaselineFirst {
                Side::Candidate
            } else {
                Side::Baseline
            };
            &&& member(start, benchmark, plan).len() == measured + 8 - start + (if own {
                3int
            } else {
                0int
            })
            &&& entries[start] == work(Task::CheckInterrupt)
            &&& own ==> entries.subrange(start + 1, opened) == seq![
                work(Task::CreateWorktrees { owner: Some(benchmark) }),
                work(Task::WorktreeStartup { owner: Some(benchmark), side: Side::Baseline }),
                work(Task::WorktreeStartup { owner: Some(benchmark), side: Side::Candidate }),
            ]
            &&& entries.subrange(opened, opened + 4) == seq![
                work(Task::Startup { benchmark, side: Side::Baseline }),
                work(Task::Startup { benchmark, side: Side::Candidate }),
                work(Task::CheckInterrupt),
                work(Task::OpenLogs { benchmark }),
            ]
            &&& repetition < runs ==> entries.subrange(row, row + 16) == seq![
                    work(Task::CheckInterrupt),
                    work(Task::SuiteStartupEachRun { benchmark, repetition, side: first }),
                    work(Task::StartupEachRun { benchmark, repetition, side: first }),
                    work(Task::CheckInterrupt),
                    work(Task::Measure { benchmark, repetition, side: first }),
                    work(Task::CheckInterrupt),
                    cleanup(
                        Task::TeardownEachRun { benchmark, repetition, side: first },
                        row + 2,
                    ),
                    cleanup(
                        Task::SuiteTeardownEachRun { benchmark, repetition, side: first },
                        row + 1,
                    ),
                    work(Task::SuiteStartupEachRun { benchmark, repetition, side: second }),
                    work(Task::StartupEachRun { benchmark, repetition, side: second }),
                    work(Task::CheckInterrupt),
                    work(Task::Measure { benchmark, repetition, side: second }),
                    work(Task::CheckInterrupt),
                    cleanup(
                        Task::TeardownEachRun { benchmark, repetition, side: second },
                        row + 9,
                    ),
                    cleanup(
                        Task::SuiteTeardownEachRun { benchmark, repetition, side: second },
                        row + 8,
                    ),
                    work(Task::Record { benchmark, repetition }),
                ]
            &&& entries.subrange(measured, measured + 8) == seq![
                cleanup(Task::CloseLogs { benchmark }, opened + 4),
                work(Task::Validate { benchmark }),
                held_cleanup(Task::Teardown { benchmark, side: Side::Baseline }, opened),
                cleanup(Task::Teardown { benchmark, side: Side::Candidate }, opened),
                work(Task::Analyze { benchmark }),
                work(Task::CheckInterrupt),
                work(Task::WritePosterior { benchmark }),
                work(Task::WriteReport { benchmark }),
            ]
            &&& own ==> entries.subrange(measured + 8, measured + 11) == seq![
                held_cleanup(
                    Task::WorktreeTeardown { owner: Some(benchmark), side: Side::Baseline },
                    start + 2,
                ),
                cleanup(
                    Task::WorktreeTeardown { owner: Some(benchmark), side: Side::Candidate },
                    start + 2,
                ),
                cleanup(Task::RemoveWorktrees { owner: Some(benchmark) }, start + 2),
            ]
        }),
{
    let orders = plan.orders@;
    let runs = orders.len() as int;
    let whole = member(start, benchmark, plan);
    let opened = start + 1 + (if plan.isolated {
        3int
    } else {
        0int
    });
    let one = one_benchmark(opened, benchmark, orders);
    assert(holds(whole, opened - start, one));
    parts_of_parts_hold(entries, start, whole, opened - start, one);
    let rows = repetitions(opened + 4, benchmark, orders, orders.len());
    repetitions_hold(opened + 4, benchmark, orders, orders.len(), repetition as int);
    assert(holds(one, 4, rows));
    parts_of_parts_hold(entries, opened, one, 4, rows);
    if repetition < runs {
        let row = opened + 4 + 16 * repetition;
        let part = one_repetition(row, benchmark, repetition, orders[repetition as int]);
        parts_of_parts_hold(entries, opened + 4, rows, 16 * repetition, part);
        held_parts_are_subranges(entries, row, part, row + 16);
    }
    let opening = benchmark_opening(benchmark);
    assert(holds(one, 0, opening));
    parts_of_parts_hold(entries, opened, one, 0, opening);
    held_parts_are_subranges(entries, opened, opening, opened + 4);
    let measured = opened + 4 + 16 * runs;
    let tail = seq![
        cleanup(Task::CloseLogs { benchmark }, opened + 4),
        work(Task::Validate { benchmark }),
        held_cleanup(Task::Teardown { benchmark, side: Side::Baseline }, opened),
        cleanup(Task::Teardown { benchmark, side: Side::Candidate }, opened),
        work(Task::Analyze { benchmark }),
        work(Task::CheckInterrupt),
        work(Task::WritePosterior { benchmark }),
        work(Task::WriteReport { benchmark }),
    ];
    assert(holds(one, 4 + 16 * runs, tail));
    parts_of_parts_hold(entries, opened, one, 4 + 16 * runs, tail);
    held_parts_are_subranges(entries, measured, tail, measured + 8);
    assert(whole[0] == work(Task::CheckInterrupt));
    if plan.isolated {
        let outside = worktrees_opening(Some(benchmark));
        assert(holds(whole, 1, outside));
        parts_of_parts_hold(entries, start, whole, 1, outside);
        held_parts_are_subranges(entries, start + 1, outside, opened);
        let last = worktrees_closing(start + 1, Some(benchmark));
        assert(holds(whole, measured + 8 - start, last));
        parts_of_parts_hold(entries, start, whole, measured + 8 - start, last);
        held_parts_are_subranges(entries, measured + 8, last, measured + 11);
    }
}

#[verifier::spinoff_prover]
#[verifier::rlimit(40)]
proof fn a_suite_opens_with_these_tasks(plans: Seq<BenchmarkPlan>, benchmark: usize)
    requires
        benchmark < plans.len(),
    ensures
        ({
            let entries = suite_entries(plans);
            let count = plans.len() as int;
            let session = 6 * count + 1;
            &&& entries.subrange(5 * benchmark, 5 * benchmark + 5) == seq![
                cleanup(Task::RemoveOutput { benchmark, artifact: Artifact::Config }, 0),
                cleanup(Task::RemoveOutput { benchmark, artifact: Artifact::Log }, 0),
                cleanup(Task::RemoveOutput { benchmark, artifact: Artifact::Measurements }, 0),
                cleanup(Task::RemoveOutput { benchmark, artifact: Artifact::Posterior }, 0),
                cleanup(Task::RemoveOutput { benchmark, artifact: Artifact::Report }, 0),
            ]
            &&& entries[5 * count + benchmark] == work(Task::WriteConfig { benchmark })
            &&& entries.subrange(session - 1, session + 2) == seq![
                work(Task::OpenSession),
                work(Task::SuiteStartup),
                work(Task::InspectWorkingTree),
            ]
        }),
{
    let entries = suite_entries(plans);
    let count = plans.len() as int;
    let all_removals = removals(plans.len());
    removals_hold(plans.len(), benchmark as int);
    assert(holds(entries, 0, all_removals));
    parts_of_parts_hold(entries, 0, all_removals, 5 * benchmark, removal(benchmark as int));
    held_parts_are_subranges(
        entries,
        5 * benchmark,
        removal(benchmark as int),
        5 * benchmark + 5,
    );
    assert(configs(plans.len())[benchmark as int] == work(Task::WriteConfig { benchmark }));
    assert(entries[5 * count + benchmark] == configs(plans.len())[benchmark as int]);
}

/// What stands around the members of a suite.
#[verifier::spinoff_prover]
proof fn the_suite_surrounds_its_members(plans: Seq<BenchmarkPlan>)
    ensures
        ({
            let entries = suite_entries(plans);
            let session = 6 * plans.len() as int + 1;
            let at = session + 2 + (if shares(plans) {
                3int
            } else {
                0int
            });
            let end = at + members(at, plans, plans.len()).len();
            let closing = end + (if shares(plans) {
                3int
            } else {
                0int
            });
            &&& preparation(plans.len()).len() == session
            &&& holds(entries, at, members(at, plans, plans.len()))
            &&& shares(plans) ==> holds(entries, session + 2, worktrees_opening(None))
            &&& shares(plans) ==> holds(entries, end, worktrees_closing(session + 2, None))
            &&& holds(entries, closing, seq![
                cleanup(Task::SuiteTeardown, session),
                work(Task::CheckInterrupt),
                cleanup(Task::CloseSession, session),
            ])
            &&& entries.len() == closing + 3
        }),
{
    removals_hold(plans.len(), 0);
}

/// Where each member stands in a plan that holds them all.
#[verifier::spinoff_prover]
proof fn members_stand_where_they_start(
    entries: Seq<Entry<Task>>,
    at: int,
    plans: Seq<BenchmarkPlan>,
) -> (starts: Seq<int>)
    requires
        holds(entries, at, members(at, plans, plans.len())),
    ensures
        starts.len() == plans.len() + 1,
        starts[0] == at,
        starts[plans.len() as int] == at + members(at, plans, plans.len()).len(),
        forall|i: int|
            #![trigger plans[i]]
            0 <= i < plans.len() ==> starts[i + 1] == starts[i] + member(
                starts[i],
                i as usize,
                plans[i],
            ).len() && holds(entries, starts[i], member(starts[i], i as usize, plans[i])),
{
    let all = members(at, plans, plans.len());
    let starts = members_hold(at, plans, plans.len());
    assert forall|i: int| #![trigger plans[i]] 0 <= i < plans.len() implies starts[i + 1]
        == starts[i] + member(starts[i], i as usize, plans[i]).len() && holds(
        entries,
        starts[i],
        member(starts[i], i as usize, plans[i]),
    ) by {
        parts_of_parts_hold(
            entries,
            at,
            all,
            starts[i] - at,
            member(starts[i], i as usize, plans[i]),
        );
    }
    starts
}

#[verifier::spinoff_prover]
#[verifier::rlimit(80)]
proof fn members_stand_in_the_suite(plans: Seq<BenchmarkPlan>) -> (starts: Seq<int>)
    ensures
        ({
            let entries = suite_entries(plans);
            let count = plans.len() as int;
            let session = 6 * count + 1;
            let end = starts[count];
            let closing = end + (if exists|i: int| 0 <= i < count && !(#[trigger] plans[i]).isolated {
                3int
            } else {
                0int
            });
            &&& starts.len() == count + 1
            &&& (exists|i: int| 0 <= i < count && !(#[trigger] plans[i]).isolated) ==> {
                &&& entries.subrange(session + 2, session + 5) == seq![
                    work(Task::CreateWorktrees { owner: None }),
                    work(Task::WorktreeStartup { owner: None, side: Side::Baseline }),
                    work(Task::WorktreeStartup { owner: None, side: Side::Candidate }),
                ]
                &&& starts[0] == session + 5
                &&& entries.subrange(end, end + 3) == seq![
                    held_cleanup(
                        Task::WorktreeTeardown { owner: None, side: Side::Baseline },
                        session + 3,
                    ),
                    cleanup(
                        Task::WorktreeTeardown { owner: None, side: Side::Candidate },
                        session + 3,
                    ),
                    cleanup(Task::RemoveWorktrees { owner: None }, session + 3),
                ]
            }
            &&& (forall|i: int| 0 <= i < count ==> (#[trigger] plans[i]).isolated) ==> starts[0]
                == session + 2
            &&& entries.subrange(closing, closing + 3) == seq![
                cleanup(Task::SuiteTeardown, session),
                work(Task::CheckInterrupt),
                cleanup(Task::CloseSession, session),
            ]
            &&& entries.len() == closing + 3
        }),
        forall|i: int|
            #![trigger plans[i]]
            0 <= i < plans.len() ==> starts[i + 1] == starts[i] + member(
                starts[i],
                i as usize,
                plans[i],
            ).len() && holds(
                suite_entries(plans),
                starts[i],
                member(starts[i], i as usize, plans[i]),
            ),
{
    let entries = suite_entries(plans);
    let count = plans.len() as int;
    let session = 6 * count + 1;
    let shared = shares(plans);
    let at = session + 2 + (if shared {
        3int
    } else {
        0int
    });
    the_suite_surrounds_its_members(plans);
    let starts = members_stand_where_they_start(entries, at, plans);
    let end = starts[count];
    let closing = end + (if shared {
        3int
    } else {
        0int
    });
    held_parts_are_subranges(entries, closing, seq![
        cleanup(Task::SuiteTeardown, session),
        work(Task::CheckInterrupt),
        cleanup(Task::CloseSession, session),
    ], closing + 3);
    if shared {
        held_parts_are_subranges(entries, session + 2, worktrees_opening(None), session + 5);
        held_parts_are_subranges(entries, end, worktrees_closing(session + 2, None), end + 3);
    }
    starts
}

/// What a suite does, task by task, and where each task stands. Old outputs go
/// first, then come the configurations, the session, the suite's startup and the
/// shared worktrees, where some benchmark needs them. The benchmarks follow one
/// another from `starts` on: each in worktrees of its own where it is isolated,
/// with its startup on both sides, its repetitions, the check of its
/// measurements, its teardown on both sides, its analysis, its posterior and its
/// report. The suite's teardown and the end of the session come last.
#[verifier::spinoff_prover]
#[verifier::rlimit(80)]
pub proof fn a_suite_does_these_tasks(
    plans: Seq<BenchmarkPlan>,
    benchmark: usize,
    repetition: usize,
) -> (starts: Seq<int>)
    requires
        benchmark < plans.len(),
    ensures
        ({
            let entries = suite_entries(plans);
            let count = plans.len() as int;
            let own = plans[benchmark as int].isolated;
            let runs = plans[benchmark as int].orders@.len() as int;
            let order = plans[benchmark as int].orders@[repetition as int];
            let session = 6 * count + 1;
            let start = starts[benchmark as int];
            let opened = start + 1 + (if own {
                3int
            } else {
                0int
            });
            let measured = opened + 4 + 16 * runs;
            let row = opened + 4 + 16 * repetition;
            let end = starts[count];
            let closing = end + (if exists|i: int| 0 <= i < count && !(#[trigger] plans[i]).isolated {
                3int
            } else {
                0int
            });
            let first = if order is BaselineFirst {
                Side::Baseline
            } else {
                Side::Candidate
            };
            let second = if order is BaselineFirst {
                Side::Candidate
            } else {
                Side::Baseline
            };
            &&& entries.subrange(5 * benchmark, 5 * benchmark + 5) == seq![
                cleanup(Task::RemoveOutput { benchmark, artifact: Artifact::Config }, 0),
                cleanup(Task::RemoveOutput { benchmark, artifact: Artifact::Log }, 0),
                cleanup(Task::RemoveOutput { benchmark, artifact: Artifact::Measurements }, 0),
                cleanup(Task::RemoveOutput { benchmark, artifact: Artifact::Posterior }, 0),
                cleanup(Task::RemoveOutput { benchmark, artifact: Artifact::Report }, 0),
            ]
            &&& entries[5 * count + benchmark] == work(Task::WriteConfig { benchmark })
            &&& entries.subrange(session - 1, session + 2) == seq![
                work(Task::OpenSession),
                work(Task::SuiteStartup),
                work(Task::InspectWorkingTree),
            ]
            &&& (exists|i: int| 0 <= i < count && !(#[trigger] plans[i]).isolated) ==> {
                &&& entries.subrange(session + 2, session + 5) == seq![
                    work(Task::CreateWorktrees { owner: None }),
                    work(Task::WorktreeStartup { owner: None, side: Side::Baseline }),
                    work(Task::WorktreeStartup { owner: None, side: Side::Candidate }),
                ]
                &&& starts[0] == session + 5
                &&& entries.subrange(end, end + 3) == seq![
                    held_cleanup(
                        Task::WorktreeTeardown { owner: None, side: Side::Baseline },
                        session + 3,
                    ),
                    cleanup(
                        Task::WorktreeTeardown { owner: None, side: Side::Candidate },
                        session + 3,
                    ),
                    cleanup(Task::RemoveWorktrees { owner: None }, session + 3),
                ]
            }
            &&& (forall|i: int| 0 <= i < count ==> (#[trigger] plans[i]).isolated) ==> starts[0]
                == session + 2
            &&& starts.len() == count + 1
            &&& starts[benchmark + 1] == measured + 8 + (if own {
                3int
            } else {
                0int
            })
            &&& entries[start] == work(Task::CheckInterrupt)
            &&& own ==> entries.subrange(start + 1, opened) == seq![
                work(Task::CreateWorktrees { owner: Some(benchmark) }),
                work(Task::WorktreeStartup { owner: Some(benchmark), side: Side::Baseline }),
                work(Task::WorktreeStartup { owner: Some(benchmark), side: Side::Candidate }),
            ]
            &&& entries.subrange(opened, opened + 4) == seq![
                work(Task::Startup { benchmark, side: Side::Baseline }),
                work(Task::Startup { benchmark, side: Side::Candidate }),
                work(Task::CheckInterrupt),
                work(Task::OpenLogs { benchmark }),
            ]
            &&& repetition < runs ==> entries.subrange(row, row + 16) == seq![
                    work(Task::CheckInterrupt),
                    work(Task::SuiteStartupEachRun { benchmark, repetition, side: first }),
                    work(Task::StartupEachRun { benchmark, repetition, side: first }),
                    work(Task::CheckInterrupt),
                    work(Task::Measure { benchmark, repetition, side: first }),
                    work(Task::CheckInterrupt),
                    cleanup(
                        Task::TeardownEachRun { benchmark, repetition, side: first },
                        row + 2,
                    ),
                    cleanup(
                        Task::SuiteTeardownEachRun { benchmark, repetition, side: first },
                        row + 1,
                    ),
                    work(Task::SuiteStartupEachRun { benchmark, repetition, side: second }),
                    work(Task::StartupEachRun { benchmark, repetition, side: second }),
                    work(Task::CheckInterrupt),
                    work(Task::Measure { benchmark, repetition, side: second }),
                    work(Task::CheckInterrupt),
                    cleanup(
                        Task::TeardownEachRun { benchmark, repetition, side: second },
                        row + 9,
                    ),
                    cleanup(
                        Task::SuiteTeardownEachRun { benchmark, repetition, side: second },
                        row + 8,
                    ),
                    work(Task::Record { benchmark, repetition }),
                ]
            &&& entries.subrange(measured, measured + 8) == seq![
                cleanup(Task::CloseLogs { benchmark }, opened + 4),
                work(Task::Validate { benchmark }),
                held_cleanup(Task::Teardown { benchmark, side: Side::Baseline }, opened),
                cleanup(Task::Teardown { benchmark, side: Side::Candidate }, opened),
                work(Task::Analyze { benchmark }),
                work(Task::CheckInterrupt),
                work(Task::WritePosterior { benchmark }),
                work(Task::WriteReport { benchmark }),
            ]
            &&& own ==> entries.subrange(measured + 8, measured + 11) == seq![
                held_cleanup(
                    Task::WorktreeTeardown { owner: Some(benchmark), side: Side::Baseline },
                    start + 2,
                ),
                cleanup(
                    Task::WorktreeTeardown { owner: Some(benchmark), side: Side::Candidate },
                    start + 2,
                ),
                cleanup(Task::RemoveWorktrees { owner: Some(benchmark) }, start + 2),
            ]
            &&& entries.subrange(closing, closing + 3) == seq![
                cleanup(Task::SuiteTeardown, session),
                work(Task::CheckInterrupt),
                cleanup(Task::CloseSession, session),
            ]
            &&& entries.len() == closing + 3
        }),
        forall|task: Task| #[trigger] work(task) == (Entry { task, role: Role::Work }),
        forall|task: Task, opened: usize|
            #[trigger] cleanup(task, opened as int) == (Entry {
                task,
                role: Role::Cleanup { opened, held: false },
            }),
        forall|task: Task, opened: usize|
            #[trigger] held_cleanup(task, opened as int) == (Entry {
                task,
                role: Role::Cleanup { opened, held: true },
            }),
{
    let starts = members_stand_in_the_suite(plans);
    a_suite_opens_with_these_tasks(plans, benchmark);
    let plan = plans[benchmark as int];
    a_member_does_these_tasks(
        suite_entries(plans),
        starts[benchmark as int],
        benchmark,
        plan,
        repetition,
    );
    starts
}

/// Whether a task is one of those that report on a benchmark, or records one of
/// its repetitions.
spec fn concludes(task: Task) -> bool {
    task is Record || task is Validate || task is Analyze || task is WritePosterior
        || task is WriteReport
}

/// Whether nothing in a section concludes a benchmark but the one given.
spec fn concludes_only(section: Seq<Entry<Task>>, benchmark: usize) -> bool {
    forall|i: int|
        0 <= i < section.len() ==> {
            &&& (#[trigger] section[i]).task matches Task::Record { benchmark: other, .. } ==> other
                == benchmark
            &&& section[i].task matches Task::Validate { benchmark: other } ==> other == benchmark
            &&& section[i].task matches Task::Analyze { benchmark: other } ==> other == benchmark
            &&& section[i].task matches Task::WritePosterior { benchmark: other } ==> other
                == benchmark
            &&& section[i].task matches Task::WriteReport { benchmark: other } ==> other
                == benchmark
        }
}

proof fn repetitions_conclude_nothing(
    at: int,
    benchmark: usize,
    orders: Seq<RunOrder>,
    count: nat,
)
    ensures
        forall|i: int|
            0 <= i < repetitions(at, benchmark, orders, count).len() ==> (concludes(
                (#[trigger] repetitions(at, benchmark, orders, count)[i]).task,
            ) ==> repetitions(at, benchmark, orders, count)[i].task is Record),
        concludes_only(repetitions(at, benchmark, orders, count), benchmark),
    decreases count,
{
    if count > 0 {
        repetitions_conclude_nothing(at, benchmark, orders, (count - 1) as nat);
    }
}

/// Where the report of a member ends, and that it alone concludes.
proof fn member_concludes(at: int, benchmark: usize, plan: BenchmarkPlan) -> (from: int)
    ensures
        ({
            let section = member(at, benchmark, plan);
            &&& 0 < from
            &&& from + 7 <= section.len()
            &&& section[from] == work(Task::Validate { benchmark })
            &&& section[from + 3] == work(Task::Analyze { benchmark })
            &&& section[from + 5] == work(Task::WritePosterior { benchmark })
            &&& section[from + 6] == work(Task::WriteReport { benchmark })
            &&& concludes_only(section, benchmark)
            &&& forall|i: int|
                0 <= i < section.len() ==> {
                    &&& (#[trigger] section[i]).task is Validate ==> i == from
                    &&& section[i].task is Analyze ==> i == from + 3
                    &&& section[i].task is WritePosterior ==> i == from + 5
                    &&& section[i].task is WriteReport ==> i == from + 6
                    &&& section[i].task is Record ==> i < from
                }
        }),
{
    let opened = at + 1 + (if plan.isolated {
        3int
    } else {
        0int
    });
    repetitions_conclude_nothing(opened + 4, benchmark, plan.orders@, plan.orders@.len());
    let rows = repetitions(opened + 4, benchmark, plan.orders@, plan.orders@.len());
    let one = one_benchmark(opened, benchmark, plan.orders@);
    let section = member(at, benchmark, plan);
    let from = opened - at + 5 + rows.len();
    let inside = opened - at;
    assert forall|i: int| 0 <= i < rows.len() implies #[trigger] one[i + 4] == rows[i] by {}
    assert forall|i: int| 0 <= i < one.len() implies #[trigger] section[i + inside]
        == one[i] by {}
    assert forall|i: int| 0 <= i < section.len() implies {
        &&& (#[trigger] section[i]).task is Validate ==> i == from
        &&& section[i].task is Analyze ==> i == from + 3
        &&& section[i].task is WritePosterior ==> i == from + 5
        &&& section[i].task is WriteReport ==> i == from + 6
        &&& section[i].task is Record ==> i < from
        &&& section[i].task matches Task::Record { benchmark: other, .. } ==> other == benchmark
        &&& section[i].task matches Task::Validate { benchmark: other } ==> other == benchmark
        &&& section[i].task matches Task::Analyze { benchmark: other } ==> other == benchmark
        &&& section[i].task matches Task::WritePosterior { benchmark: other } ==> other == benchmark
        &&& section[i].task matches Task::WriteReport { benchmark: other } ==> other == benchmark
    } by {
        if inside <= i < inside + one.len() {
            assert(section[i] == section[(i - inside) + inside]);
            assert(section[i] == one[i - inside]);
            if 4 <= i - inside < 4 + rows.len() {
                assert(one[(i - inside - 4) + 4] == rows[i - inside - 4]);
            }
        }
    }
    assert(concludes_only(section, benchmark));
    from
}

/// Where the conclusion of a benchmark stands among the members of a suite.
proof fn members_conclude(at: int, plans: Seq<BenchmarkPlan>, count: nat, benchmark: usize) -> (from:
    int)
    requires
        count <= plans.len(),
        count <= usize::MAX,
    ensures
        ({
            let section = members(at, plans, count);
            &&& benchmark < count ==> {
                &&& 0 < from
                &&& from + 7 <= section.len()
                &&& section[from] == work(Task::Validate { benchmark })
                &&& section[from + 3] == work(Task::Analyze { benchmark })
                &&& section[from + 5] == work(Task::WritePosterior { benchmark })
                &&& section[from + 6] == work(Task::WriteReport { benchmark })
            }
            &&& forall|i: int|
                0 <= i < section.len() ==> {
                    &&& (#[trigger] section[i]).task == (Task::Validate { benchmark }) ==> benchmark
                        < count && i == from
                    &&& section[i].task == (Task::Analyze { benchmark }) ==> benchmark < count && i
                        == from + 3
                    &&& section[i].task == (Task::WritePosterior { benchmark }) ==> benchmark
                        < count && i == from + 5
                    &&& section[i].task == (Task::WriteReport { benchmark }) ==> benchmark < count
                        && i == from + 6
                    &&& (section[i].task matches Task::Record { benchmark: other, .. } && other
                        == benchmark) ==> benchmark < count && i < from
                }
        }),
    decreases count,
{
    if count == 0 {
        0
    } else {
        let before = members(at, plans, (count - 1) as nat);
        let last = member(at + before.len(), (count - 1) as usize, plans[count - 1]);
        let section = members(at, plans, count);
        let earlier = members_conclude(at, plans, (count - 1) as nat, benchmark);
        let own = member_concludes(at + before.len(), (count - 1) as usize, plans[count - 1]);
        let from = if benchmark == count - 1 {
            before.len() + own
        } else {
            earlier
        };
        assert forall|i: int| 0 <= i < section.len() implies {
            &&& (#[trigger] section[i]).task == (Task::Validate { benchmark }) ==> benchmark < count
                && i == from
            &&& section[i].task == (Task::Analyze { benchmark }) ==> benchmark < count && i == from
                + 3
            &&& section[i].task == (Task::WritePosterior { benchmark }) ==> benchmark < count && i
                == from + 5
            &&& section[i].task == (Task::WriteReport { benchmark }) ==> benchmark < count && i
                == from + 6
            &&& (section[i].task matches Task::Record { benchmark: other, .. } && other == benchmark) ==> benchmark < count && i < from
        } by {
            if i < before.len() {
                assert(section[i] == before[i]);
            } else {
                assert(section[i] == last[i - before.len()]);
            }
        }
        from
    }
}

/// Every benchmark of a suite is concluded exactly once: behind the last row of
/// its measurements these are validated, then analyzed, then its posterior and
/// then its report are written. Where nothing fails, all four are carried out.
pub proof fn every_benchmark_is_reported(
    plans: Seq<BenchmarkPlan>,
    benchmark: usize,
    fails: spec_fn(int) -> bool,
) -> (found: (int, int, int, int))
    requires
        plans.len() <= usize::MAX,
        benchmark < plans.len(),
    ensures
        ({
            let entries = suite_entries(plans);
            let (validated, analyzed, posterior, report) = found;
            &&& 0 <= validated < analyzed < posterior < report < entries.len()
            &&& entries[validated] == (Entry { task: Task::Validate { benchmark }, role: Role::Work })
            &&& entries[analyzed] == (Entry { task: Task::Analyze { benchmark }, role: Role::Work })
            &&& entries[posterior] == (Entry {
                task: Task::WritePosterior { benchmark },
                role: Role::Work,
            })
            &&& entries[report] == (Entry { task: Task::WriteReport { benchmark }, role: Role::Work })
            &&& forall|i: int|
                0 <= i < entries.len() ==> {
                    &&& (#[trigger] entries[i]).task == (Task::Validate { benchmark }) ==> i
                        == validated
                    &&& entries[i].task == (Task::Analyze { benchmark }) ==> i == analyzed
                    &&& entries[i].task == (Task::WritePosterior { benchmark }) ==> i == posterior
                    &&& entries[i].task == (Task::WriteReport { benchmark }) ==> i == report
                    &&& (entries[i].task matches Task::Record { benchmark: other, .. } && other
                        == benchmark) ==> i < validated
                }
            &&& (forall|i: int| 0 <= i < entries.len() ==> !#[trigger] fails(i)) ==> {
                let steps = walk(entries, fails, 0, None);
                &&& steps.contains(validated)
                &&& steps.contains(analyzed)
                &&& steps.contains(posterior)
                &&& steps.contains(report)
            }
        }),
{
    let entries = suite_entries(plans);
    let before = preparation(plans.len());
    let at = before.len() + 2 + (if shares(plans) {
        3int
    } else {
        0int
    });
    let all = members(at, plans, plans.len());
    removals_shape(plans.len());
    let from = members_conclude(at, plans, plans.len(), benchmark);
    assert forall|i: int| 0 <= i < all.len() implies #[trigger] entries[i + at] == all[i] by {}
    assert forall|i: int| 0 <= i < entries.len() implies {
        &&& (#[trigger] entries[i]).task == (Task::Validate { benchmark }) ==> i == at + from
        &&& entries[i].task == (Task::Analyze { benchmark }) ==> i == at + from + 3
        &&& entries[i].task == (Task::WritePosterior { benchmark }) ==> i == at + from + 5
        &&& entries[i].task == (Task::WriteReport { benchmark }) ==> i == at + from + 6
        &&& (entries[i].task matches Task::Record { benchmark: other, .. } && other == benchmark) ==> i
            < at + from
    } by {
        if at <= i < at + all.len() {
            assert(entries[(i - at) + at] == all[i - at]);
        } else if i < removals(plans.len()).len() {
            assert(entries[i] == removals(plans.len())[i]);
        } else if i < removals(plans.len()).len() + plans.len() {
            let k = i - removals(plans.len()).len();
            assert(entries[i] == configs(plans.len())[k]);
        }
    }
    assert(entries[from + at] == all[from]);
    assert(entries[(from + 3) + at] == all[from + 3]);
    assert(entries[(from + 5) + at] == all[from + 5]);
    assert(entries[(from + 6) + at] == all[from + 6]);
    if forall|i: int| 0 <= i < entries.len() ==> !#[trigger] fails(i) {
        first_failure_found(fails, 0, entries.len() as int);
        execution_follows_the_plan(entries, fails);
        let failure = first_failure(fails, 0, entries.len() as int);
        assert(failure is None);
        assert(carried_out(entries, failure, at + from));
        assert(carried_out(entries, failure, at + from + 3));
        assert(carried_out(entries, failure, at + from + 5));
        assert(carried_out(entries, failure, at + from + 6));
    }
    (at + from, at + from + 3, at + from + 5, at + from + 6)
}

impl BenchmarkPlan {
    /// How a benchmark of a suite with this seed runs.
    pub fn new(seed: u64, isolated: bool, repetitions: usize, block_size: usize) -> (plan:
        BenchmarkPlan)
        requires
            block_size > 0,
        ensures
            plan.isolated == isolated,
            plan.orders@ == schedule_orders(
                repetitions as nat,
                block_size as nat,
                seeded_state(seed ^ SCHEDULE),
            ).0,
            plan.orders@ == schedule_orders(
                repetitions as nat,
                block_size as nat,
                seeded_state(seed ^ 0x7363_6865_6475_6c65),
            ).0,
            plan.orders@.len() == repetitions,
    {
        BenchmarkPlan { isolated, orders: suite_schedule(seed, repetitions, block_size) }
    }
}

fn push_work(plan: &mut Vec<Entry<Task>>, task: Task)
    ensures
        final(plan)@ == old(plan)@.push(work(task)),
{
    plan.push(Entry { task, role: Role::Work });
}

fn push_cleanup(plan: &mut Vec<Entry<Task>>, task: Task, opened: usize, held: bool)
    ensures
        final(plan)@ == old(plan)@.push(
            if held {
                held_cleanup(task, opened as int)
            } else {
                cleanup(task, opened as int)
            },
        ),
{
    plan.push(Entry { task, role: Role::Cleanup { opened, held } });
}

fn push_preparation(plan: &mut Vec<Entry<Task>>, benchmarks: usize)
    requires
        old(plan)@.len() == 0,
    ensures
        final(plan)@ == preparation(benchmarks as nat),
{
    assert(plan@ =~= removals(0));
    for benchmark in 0..benchmarks
        invariant
            plan@ == removals(benchmark as nat),
    {
        let ghost before = plan@;
        push_cleanup(plan, Task::RemoveOutput { benchmark, artifact: Artifact::Config }, 0, false);
        push_cleanup(plan, Task::RemoveOutput { benchmark, artifact: Artifact::Log }, 0, false);
        push_cleanup(
            plan,
            Task::RemoveOutput { benchmark, artifact: Artifact::Measurements },
            0,
            false,
        );
        push_cleanup(
            plan,
            Task::RemoveOutput { benchmark, artifact: Artifact::Posterior },
            0,
            false,
        );
        push_cleanup(plan, Task::RemoveOutput { benchmark, artifact: Artifact::Report }, 0, false);
        assert(plan@ =~= before + removal(benchmark as int));
    }
    let ghost removed = plan@;
    assert(plan@ =~= removed + configs(0));
    for benchmark in 0..benchmarks
        invariant
            plan@ == removed + configs(benchmark as nat),
    {
        push_work(plan, Task::WriteConfig { benchmark });
        assert(plan@ =~= removed + configs((benchmark + 1) as nat));
    }
    push_work(plan, Task::OpenSession);
    assert(plan@ =~= preparation(benchmarks as nat));
}

fn push_run(plan: &mut Vec<Entry<Task>>, benchmark: usize, repetition: usize, side: Side)
    ensures
        final(plan)@ == old(plan)@ + one_run(
            old(plan)@.len() as int,
            benchmark,
            repetition,
            side,
        ),
{
    let suite: usize = plan.len();
    push_work(plan, Task::SuiteStartupEachRun { benchmark, repetition, side });
    let own: usize = plan.len();
    push_work(plan, Task::StartupEachRun { benchmark, repetition, side });
    push_work(plan, Task::CheckInterrupt);
    push_work(plan, Task::Measure { benchmark, repetition, side });
    push_work(plan, Task::CheckInterrupt);
    push_cleanup(plan, Task::TeardownEachRun { benchmark, repetition, side }, own, false);
    push_cleanup(plan, Task::SuiteTeardownEachRun { benchmark, repetition, side }, suite, false);
    assert(plan@ =~= old(plan)@ + one_run(
        old(plan)@.len() as int,
        benchmark,
        repetition,
        side,
    ));
}

fn push_benchmark(plan: &mut Vec<Entry<Task>>, benchmark: usize, orders: &Vec<RunOrder>)
    ensures
        final(plan)@ == old(plan)@ + one_benchmark(
            old(plan)@.len() as int,
            benchmark,
            orders@,
        ),
{
    let start: usize = plan.len();
    let ghost before = plan@;
    push_work(plan, Task::Startup { benchmark, side: Side::Baseline });
    push_work(plan, Task::Startup { benchmark, side: Side::Candidate });
    push_work(plan, Task::CheckInterrupt);
    push_work(plan, Task::OpenLogs { benchmark });
    let logged: usize = plan.len();
    assert(plan@ =~= before + benchmark_opening(benchmark) + repetitions(
        start + 4,
        benchmark,
        orders@,
        0,
    ));
    for repetition in 0..orders.len()
        invariant
            logged == before.len() + 4,
            start == before.len(),
            plan@ == before + benchmark_opening(benchmark) + repetitions(
                start + 4,
                benchmark,
                orders@,
                repetition as nat,
            ),
    {
        let ghost earlier = plan@;
        let sides = orders[repetition].sides();
        push_work(plan, Task::CheckInterrupt);
        push_run(plan, benchmark, repetition, sides.0);
        push_run(plan, benchmark, repetition, sides.1);
        push_work(plan, Task::Record { benchmark, repetition });
        assert(plan@ =~= earlier + one_repetition(
            earlier.len() as int,
            benchmark,
            repetition,
            orders@[repetition as int],
        ));
        assert(plan@ =~= before + benchmark_opening(benchmark) + repetitions(
            start + 4,
            benchmark,
            orders@,
            (repetition + 1) as nat,
        ));
    }
    push_cleanup(plan, Task::CloseLogs { benchmark }, logged, false);
    push_work(plan, Task::Validate { benchmark });
    push_cleanup(plan, Task::Teardown { benchmark, side: Side::Baseline }, start, true);
    push_cleanup(plan, Task::Teardown { benchmark, side: Side::Candidate }, start, false);
    push_work(plan, Task::Analyze { benchmark });
    push_work(plan, Task::CheckInterrupt);
    push_work(plan, Task::WritePosterior { benchmark });
    push_work(plan, Task::WriteReport { benchmark });
    assert(plan@ =~= before + one_benchmark(start as int, benchmark, orders@));
}

fn push_worktrees_opening(plan: &mut Vec<Entry<Task>>, owner: Option<usize>) -> (created: usize)
    ensures
        final(plan)@ == old(plan)@ + worktrees_opening(owner),
        created == old(plan)@.len() + 1,
{
    push_work(plan, Task::CreateWorktrees { owner });
    let created: usize = plan.len();
    push_work(plan, Task::WorktreeStartup { owner, side: Side::Baseline });
    push_work(plan, Task::WorktreeStartup { owner, side: Side::Candidate });
    assert(plan@ =~= old(plan)@ + worktrees_opening(owner));
    created
}

fn push_worktrees_closing(plan: &mut Vec<Entry<Task>>, owner: Option<usize>, created: usize)
    ensures
        final(plan)@ == old(plan)@ + worktrees_closing(created - 1, owner),
{
    push_cleanup(plan, Task::WorktreeTeardown { owner, side: Side::Baseline }, created, true);
    push_cleanup(plan, Task::WorktreeTeardown { owner, side: Side::Candidate }, created, false);
    push_cleanup(plan, Task::RemoveWorktrees { owner }, created, false);
    assert(plan@ =~= old(plan)@ + worktrees_closing(created - 1, owner));
}

fn push_member(plan: &mut Vec<Entry<Task>>, benchmark: usize, own: &BenchmarkPlan)
    ensures
        final(plan)@ == old(plan)@ + member(old(plan)@.len() as int, benchmark, *own),
{
    let ghost before = plan@;
    push_work(plan, Task::CheckInterrupt);
    if own.isolated {
        let created = push_worktrees_opening(plan, Some(benchmark));
        push_benchmark(plan, benchmark, &own.orders);
        push_worktrees_closing(plan, Some(benchmark), created);
    } else {
        push_benchmark(plan, benchmark, &own.orders);
    }
    assert(plan@ =~= before + member(before.len() as int, benchmark, *own));
}

/// Plans a suite of benchmarks.
pub fn suite_plan(benchmarks: &Vec<BenchmarkPlan>) -> (plan: Vec<Entry<Task>>)
    ensures
        plan@ == suite_entries(benchmarks@),
        well_formed(plan@),
{
    let mut plan: Vec<Entry<Task>> = Vec::new();
    push_preparation(&mut plan, benchmarks.len());
    let ghost before = plan@;
    let start: usize = plan.len();
    push_work(&mut plan, Task::SuiteStartup);
    push_work(&mut plan, Task::InspectWorkingTree);
    let mut shared = false;
    for benchmark in 0..benchmarks.len()
        invariant
            shared <==> exists|i: int| 0 <= i < benchmark && !(#[trigger] benchmarks@[i]).isolated,
    {
        if !benchmarks[benchmark].isolated {
            shared = true;
        }
    }
    assert(shared == shares(benchmarks@));
    let mut created: usize = 0;
    if shared {
        created = push_worktrees_opening(&mut plan, None);
    }
    let ghost opened = plan@;
    assert(plan@ =~= opened + members(opened.len() as int, benchmarks@, 0));
    for benchmark in 0..benchmarks.len()
        invariant
            plan@ == opened + members(opened.len() as int, benchmarks@, benchmark as nat),
    {
        let ghost earlier = plan@;
        push_member(&mut plan, benchmark, &benchmarks[benchmark]);
        assert(plan@ =~= opened + members(
            opened.len() as int,
            benchmarks@,
            (benchmark + 1) as nat,
        ));
    }
    if shared {
        push_worktrees_closing(&mut plan, None, created);
    }
    push_cleanup(&mut plan, Task::SuiteTeardown, start, false);
    push_work(&mut plan, Task::CheckInterrupt);
    push_cleanup(&mut plan, Task::CloseSession, start, false);
    assert(plan@ =~= suite_entries(benchmarks@));
    let total: usize = plan.len();
    proof {
        assert(suite_entries(benchmarks@).len() == total);
        suite_plan_is_well_formed(benchmarks@);
    }
    plan
}

} // verus!
