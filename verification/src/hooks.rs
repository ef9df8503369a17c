//! Which command a task of a suite runs, and where.

use crate::config::{BenchmarkLifecycle, SuiteLifecycle, WorktreeLifecycle};
use crate::repetition::Side;
use crate::suite::{BenchmarkPlan, Task};
use crate::text::texts;
use vstd::prelude::*;

verus! {

/// The benchmark that a task belongs to.
pub open spec fn benchmark_of(task: Task) -> Option<usize> {
    match task {
        Task::Startup { benchmark, .. } => Some(benchmark),
        Task::Teardown { benchmark, .. } => Some(benchmark),
        Task::StartupEachRun { benchmark, .. } => Some(benchmark),
        Task::TeardownEachRun { benchmark, .. } => Some(benchmark),
        Task::SuiteStartupEachRun { benchmark, .. } => Some(benchmark),
        Task::SuiteTeardownEachRun { benchmark, .. } => Some(benchmark),
        Task::Measure { benchmark, .. } => Some(benchmark),
        _ => None,
    }
}

/// The words of the hook that a task runs; none where it runs no hook.
pub open spec fn hook_words(
    task: Task,
    suite: SuiteLifecycle,
    worktree: WorktreeLifecycle,
    benchmarks: Seq<BenchmarkLifecycle>,
) -> Seq<Seq<char>> {
    match task {
        Task::SuiteStartup => texts(suite.startup@),
        Task::SuiteTeardown => texts(suite.teardown@),
        Task::SuiteStartupEachRun { .. } => texts(suite.startup_each_run@),
        Task::SuiteTeardownEachRun { .. } => texts(suite.teardown_each_run@),
        Task::WorktreeStartup { .. } => texts(worktree.startup@),
        Task::WorktreeTeardown { .. } => texts(worktree.teardown@),
        Task::Startup { benchmark, .. } => texts(benchmarks[benchmark as int].startup@),
        Task::Teardown { benchmark, .. } => texts(benchmarks[benchmark as int].teardown@),
        Task::StartupEachRun { benchmark, .. } => texts(
            benchmarks[benchmark as int].startup_each_run@,
        ),
        Task::TeardownEachRun { benchmark, .. } => texts(
            benchmarks[benchmark as int].teardown_each_run@,
        ),
        _ => Seq::empty(),
    }
}

/// A program and its arguments.
#[derive(Clone, Debug)]
pub struct Invocation {
    pub program: String,
    pub arguments: Vec<String>,
}

/// A program and its arguments, where there are any words at all.
pub fn invocation(words: &Vec<String>) -> (invocation: Option<Invocation>)
    ensures
        match invocation {
            Some(made) => seq![made.program@] + texts(made.arguments@) == texts(words@),
            None => words@.len() == 0,
        },
{
    if words.len() == 0 {
        return None;
    }
    let program = words[0].as_str().to_owned();
    let mut arguments: Vec<String> = Vec::new();
    for i in 1..words.len()
        invariant
            words@.len() > 0,
            arguments@.len() == i - 1,
            forall|j: int| 0 <= j < arguments@.len() ==> (#[trigger] arguments@[j])@ == words@[j
                + 1]@,
    {
        arguments.push(words[i].as_str().to_owned());
    }
    assert(seq![program@] + texts(arguments@) =~= texts(words@));
    Some(Invocation { program, arguments })
}

/// The hook that a task runs.
pub fn hook(
    task: Task,
    suite: &SuiteLifecycle,
    worktree: &WorktreeLifecycle,
    benchmarks: &Vec<BenchmarkLifecycle>,
) -> (command: Option<Invocation>)
    requires
        benchmark_of(task) matches Some(benchmark) ==> benchmark < benchmarks@.len(),
    ensures
        match command {
            Some(made) => seq![made.program@] + texts(made.arguments@) == hook_words(
                task,
                *suite,
                *worktree,
                benchmarks@,
            ),
            None => hook_words(task, *suite, *worktree, benchmarks@).len() == 0,
        },
        ({
            let words = match task {
                Task::SuiteStartup => suite.startup@,
                Task::SuiteTeardown => suite.teardown@,
                Task::SuiteStartupEachRun { .. } => suite.startup_each_run@,
                Task::SuiteTeardownEachRun { .. } => suite.teardown_each_run@,
                Task::WorktreeStartup { .. } => worktree.startup@,
                Task::WorktreeTeardown { .. } => worktree.teardown@,
                Task::Startup { benchmark, .. } => benchmarks@[benchmark as int].startup@,
                Task::Teardown { benchmark, .. } => benchmarks@[benchmark as int].teardown@,
                Task::StartupEachRun { benchmark, .. } =>
                    benchmarks@[benchmark as int].startup_each_run@,
                Task::TeardownEachRun { benchmark, .. } =>
                    benchmarks@[benchmark as int].teardown_each_run@,
                _ => Seq::empty(),
            };
            match command {
                Some(made) => seq![made.program@] + texts(made.arguments@) == texts(words),
                None => words.len() == 0,
            }
        }),
{
    match task {
        Task::SuiteStartup => invocation(&suite.startup),
        Task::SuiteTeardown => invocation(&suite.teardown),
        Task::SuiteStartupEachRun { .. } => invocation(&suite.startup_each_run),
        Task::SuiteTeardownEachRun { .. } => invocation(&suite.teardown_each_run),
        Task::WorktreeStartup { .. } => invocation(&worktree.startup),
        Task::WorktreeTeardown { .. } => invocation(&worktree.teardown),
        Task::Startup { benchmark, .. } => invocation(&benchmarks[benchmark].startup),
        Task::Teardown { benchmark, .. } => invocation(&benchmarks[benchmark].teardown),
        Task::StartupEachRun { benchmark, .. } => invocation(
            &benchmarks[benchmark].startup_each_run,
        ),
        Task::TeardownEachRun { benchmark, .. } => invocation(
            &benchmarks[benchmark].teardown_each_run,
        ),
        _ => None,
    }
}

/// Where a command runs.
#[derive(Clone, Copy, Debug, PartialEq, Eq, Structural)]
pub enum Place {
    /// In the checkout that the program was started in.
    Checkout,
    /// In a worktree of an owner's pair, in the working directory and with the
    /// variables of a benchmark where it is one of its commands.
    Worktree { owner: Option<usize>, side: Side, benchmark: Option<usize> },
}

/// The owner of the worktrees that a benchmark runs in.
pub open spec fn owner_of(benchmark: usize, plans: Seq<BenchmarkPlan>) -> Option<usize> {
    if plans[benchmark as int].isolated {
        Some(benchmark)
    } else {
        None
    }
}

/// Where the command of a task runs: the suite's own hooks in the checkout, all
/// others in a worktree, and a benchmark's commands in its working directory.
pub open spec fn place_of(task: Task, plans: Seq<BenchmarkPlan>) -> Option<Place> {
    match task {
        Task::SuiteStartup => Some(Place::Checkout),
        Task::SuiteTeardown => Some(Place::Checkout),
        Task::WorktreeStartup { owner, side } => Some(
            Place::Worktree { owner, side, benchmark: None },
        ),
        Task::WorktreeTeardown { owner, side } => Some(
            Place::Worktree { owner, side, benchmark: None },
        ),
        Task::SuiteStartupEachRun { benchmark, side, .. } => Some(
            Place::Worktree { owner: owner_of(benchmark, plans), side, benchmark: None },
        ),
        Task::SuiteTeardownEachRun { benchmark, side, .. } => Some(
            Place::Worktree { owner: owner_of(benchmark, plans), side, benchmark: None },
        ),
        Task::Startup { benchmark, side } => Some(own_place(benchmark, side, plans)),
        Task::Teardown { benchmark, side } => Some(own_place(benchmark, side, plans)),
        Task::StartupEachRun { benchmark, side, .. } => Some(own_place(benchmark, side, plans)),
        Task::TeardownEachRun { benchmark, side, .. } => Some(own_place(benchmark, side, plans)),
        Task::Measure { benchmark, side, .. } => Some(own_place(benchmark, side, plans)),
        _ => None,
    }
}

/// Where a benchmark's own commands run.
pub open spec fn own_place(benchmark: usize, side: Side, plans: Seq<BenchmarkPlan>) -> Place {
    Place::Worktree { owner: owner_of(benchmark, plans), side, benchmark: Some(benchmark) }
}

fn owner(benchmark: usize, plans: &Vec<BenchmarkPlan>) -> (owner: Option<usize>)
    requires
        benchmark < plans@.len(),
    ensures
        owner == owner_of(benchmark, plans@),
{
    if plans[benchmark].isolated {
        Some(benchmark)
    } else {
        None
    }
}

fn of_benchmark(benchmark: usize, side: Side, plans: &Vec<BenchmarkPlan>) -> (place: Place)
    requires
        benchmark < plans@.len(),
    ensures
        place == own_place(benchmark, side, plans@),
{
    Place::Worktree { owner: owner(benchmark, plans), side, benchmark: Some(benchmark) }
}

/// Where the command of a task runs.
pub fn place(task: Task, plans: &Vec<BenchmarkPlan>) -> (place: Option<Place>)
    requires
        benchmark_of(task) matches Some(benchmark) ==> benchmark < plans@.len(),
    ensures
        place == place_of(task, plans@),
        ({
            let owner = match benchmark_of(task) {
                Some(benchmark) if plans@[benchmark as int].isolated => Some(benchmark),
                _ => None,
            };
            match task {
                Task::SuiteStartup => place == Some(Place::Checkout),
                Task::SuiteTeardown => place == Some(Place::Checkout),
                Task::WorktreeStartup { owner: pair, side } => place == Some(
                    Place::Worktree { owner: pair, side, benchmark: None },
                ),
                Task::WorktreeTeardown { owner: pair, side } => place == Some(
                    Place::Worktree { owner: pair, side, benchmark: None },
                ),
                Task::SuiteStartupEachRun { side, .. } => place == Some(
                    Place::Worktree { owner, side, benchmark: None },
                ),
                Task::SuiteTeardownEachRun { side, .. } => place == Some(
                    Place::Worktree { owner, side, benchmark: None },
                ),
                Task::Startup { benchmark, side } => place == Some(
                    Place::Worktree { owner, side, benchmark: Some(benchmark) },
                ),
                Task::Teardown { benchmark, side } => place == Some(
                    Place::Worktree { owner, side, benchmark: Some(benchmark) },
                ),
                Task::StartupEachRun { benchmark, side, .. } => place == Some(
                    Place::Worktree { owner, side, benchmark: Some(benchmark) },
                ),
                Task::TeardownEachRun { benchmark, side, .. } => place == Some(
                    Place::Worktree { owner, side, benchmark: Some(benchmark) },
                ),
                Task::Measure { benchmark, side, .. } => place == Some(
                    Place::Worktree { owner, side, benchmark: Some(benchmark) },
                ),
                _ => place is None,
            }
        }),
{
    match task {
        Task::SuiteStartup => Some(Place::Checkout),
        Task::SuiteTeardown => Some(Place::Checkout),
        Task::WorktreeStartup { owner, side } => Some(
            Place::Worktree { owner, side, benchmark: None },
        ),
        Task::WorktreeTeardown { owner, side } => Some(
            Place::Worktree { owner, side, benchmark: None },
        ),
        Task::SuiteStartupEachRun { benchmark, side, .. } => Some(
            Place::Worktree { owner: owner(benchmark, plans), side, benchmark: None },
        ),
        Task::SuiteTeardownEachRun { benchmark, side, .. } => Some(
            Place::Worktree { owner: owner(benchmark, plans), side, benchmark: None },
        ),
        Task::Startup { benchmark, side } => Some(of_benchmark(benchmark, side, plans)),
        Task::Teardown { benchmark, side } => Some(of_benchmark(benchmark, side, plans)),
        Task::StartupEachRun { benchmark, side, .. } => Some(of_benchmark(benchmark, side, plans)),
        Task::TeardownEachRun { benchmark, side, .. } => Some(of_benchmark(benchmark, side, plans)),
        Task::Measure { benchmark, side, .. } => Some(of_benchmark(benchmark, side, plans)),
        _ => None,
    }
}

/// The startup hook of the side that a teardown hook runs on.
pub open spec fn counterpart(teardown: Task) -> Option<Task> {
    match teardown {
        Task::Teardown { benchmark, side } => Some(Task::Startup { benchmark, side }),
        Task::WorktreeTeardown { owner, side } => Some(Task::WorktreeStartup { owner, side }),
        _ => crate::suite::opener(teardown),
    }
}

/// A startup hook and the teardown hook that closes its scope run in worktrees
/// of the same pair, or both in the checkout. A teardown hook runs exactly
/// where the startup hook of its side ran; around one run that is the hook
/// whose scope it closes.
pub proof fn paired_hooks_share_their_place(task: Task, plans: Seq<BenchmarkPlan>, hook: Task)
    requires
        crate::suite::opener(task) == Some(hook),
    ensures
        match (place_of(task, plans), place_of(hook, plans)) {
            (Some(Place::Checkout), Some(Place::Checkout)) => true,
            (
                Some(Place::Worktree { owner, benchmark, .. }),
                Some(Place::Worktree { owner: other, benchmark: of, .. }),
            ) => owner == other && benchmark == of,
            _ => false,
        },
        counterpart(task) matches Some(startup) && place_of(startup, plans) == place_of(
            task,
            plans,
        ),
        task is TeardownEachRun || task is SuiteTeardownEachRun ==> place_of(hook, plans)
            == place_of(task, plans),
{
}

/// The hooks of a benchmark, of each of its runs and its measurements belong to
/// that benchmark; no other task belongs to one.
pub proof fn these_tasks_belong_to_a_benchmark(task: Task)
    ensures
        match task {
            Task::Startup { benchmark, .. } => benchmark_of(task) == Some(benchmark),
            Task::Teardown { benchmark, .. } => benchmark_of(task) == Some(benchmark),
            Task::StartupEachRun { benchmark, .. } => benchmark_of(task) == Some(benchmark),
            Task::TeardownEachRun { benchmark, .. } => benchmark_of(task) == Some(benchmark),
            Task::SuiteStartupEachRun { benchmark, .. } => benchmark_of(task) == Some(benchmark),
            Task::SuiteTeardownEachRun { benchmark, .. } => benchmark_of(task) == Some(benchmark),
            Task::Measure { benchmark, .. } => benchmark_of(task) == Some(benchmark),
            _ => benchmark_of(task) is None,
        },
{
}

} // verus!
