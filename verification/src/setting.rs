//! The options of the command line, and where a configuration may set them.

use crate::text::same;
use vstd::prelude::*;

verus! {

/// An option.
#[derive(Clone, Copy, Debug, PartialEq, Eq, Structural)]
pub enum Setting {
    Baseline,
    Candidate,
    Seed,
    Isolate,
    Shrinkage,
    OutputDir,
    Repetitions,
    BlockSize,
    Draws,
    Timeout,
    Interval,
    WorkingDirectory,
    Env,
    Command,
    Config,
    Benchmark,
}

/// Who an option is for.
#[derive(Clone, Copy, Debug, PartialEq, Eq, Structural)]
pub enum Scope {
    /// The suite as a whole.
    Suite,
    /// Each benchmark.
    Run,
    /// The choice of a configuration and of its benchmarks; never configured.
    Selector,
}

impl Setting {
    /// The long name of the option, which is its key in a configuration.
    pub open spec fn name(self) -> Seq<char> {
        match self {
            Setting::Baseline => "baseline"@,
            Setting::Candidate => "candidate"@,
            Setting::Seed => "seed"@,
            Setting::Isolate => "isolate"@,
            Setting::Shrinkage => "shrinkage"@,
            Setting::OutputDir => "output-dir"@,
            Setting::Repetitions => "repetitions"@,
            Setting::BlockSize => "block-size"@,
            Setting::Draws => "draws"@,
            Setting::Timeout => "timeout"@,
            Setting::Interval => "interval"@,
            Setting::WorkingDirectory => "working-directory"@,
            Setting::Env => "env"@,
            Setting::Command => "command"@,
            Setting::Config => "config"@,
            Setting::Benchmark => "benchmark"@,
        }
    }

    /// Whether the option may hold more than one value.
    pub open spec fn repeats(self) -> bool {
        ||| self is Interval
        ||| self is Env
        ||| self is Command
        ||| self is Benchmark
    }

    /// Who the option is for.
    pub open spec fn owner(self) -> Scope {
        match self {
            Setting::Baseline => Scope::Suite,
            Setting::Candidate => Scope::Suite,
            Setting::Seed => Scope::Suite,
            Setting::Config => Scope::Selector,
            Setting::Benchmark => Scope::Selector,
            _ => Scope::Run,
        }
    }

    /// The key of the option.
    pub fn key(self) -> (key: &'static str)
        ensures
            key@ == self.name(),
            self is Baseline ==> key@ == "baseline"@,
            self is Candidate ==> key@ == "candidate"@,
            self is Seed ==> key@ == "seed"@,
            self is Isolate ==> key@ == "isolate"@,
            self is Shrinkage ==> key@ == "shrinkage"@,
            self is OutputDir ==> key@ == "output-dir"@,
            self is Repetitions ==> key@ == "repetitions"@,
            self is BlockSize ==> key@ == "block-size"@,
            self is Draws ==> key@ == "draws"@,
            self is Timeout ==> key@ == "timeout"@,
            self is Interval ==> key@ == "interval"@,
            self is WorkingDirectory ==> key@ == "working-directory"@,
            self is Env ==> key@ == "env"@,
            self is Command ==> key@ == "command"@,
            self is Config ==> key@ == "config"@,
            self is Benchmark ==> key@ == "benchmark"@,
    {
        match self {
            Setting::Baseline => "baseline",
            Setting::Candidate => "candidate",
            Setting::Seed => "seed",
            Setting::Isolate => "isolate",
            Setting::Shrinkage => "shrinkage",
            Setting::OutputDir => "output-dir",
            Setting::Repetitions => "repetitions",
            Setting::BlockSize => "block-size",
            Setting::Draws => "draws",
            Setting::Timeout => "timeout",
            Setting::Interval => "interval",
            Setting::WorkingDirectory => "working-directory",
            Setting::Env => "env",
            Setting::Command => "command",
            Setting::Config => "config",
            Setting::Benchmark => "benchmark",
        }
    }

    /// Whether the option may hold more than one value.
    pub fn is_repeatable(self) -> (answer: bool)
        ensures
            answer == self.repeats(),
            answer == (self is Interval || self is Env || self is Command || self is Benchmark),
    {
        match self {
            Setting::Interval => true,
            Setting::Env => true,
            Setting::Command => true,
            Setting::Benchmark => true,
            _ => false,
        }
    }

    /// Who the option is for.
    pub fn scope(self) -> (scope: Scope)
        ensures
            scope == self.owner(),
            scope == Scope::Suite <==> (self is Baseline || self is Candidate || self is Seed),
            scope == Scope::Selector <==> (self is Config || self is Benchmark),
    {
        match self {
            Setting::Baseline => Scope::Suite,
            Setting::Candidate => Scope::Suite,
            Setting::Seed => Scope::Suite,
            Setting::Config => Scope::Selector,
            Setting::Benchmark => Scope::Selector,
            _ => Scope::Run,
        }
    }

    /// The option with a key.
    pub fn find(key: &str) -> (setting: Option<Setting>)
        ensures
            setting == setting_of(key@),
            match setting {
                Some(found) => found.name() == key@,
                None => forall|other: Setting| #[trigger] other.name() != key@,
            },
    {
        let setting = if same(key, "baseline") {
            Some(Setting::Baseline)
        } else if same(key, "candidate") {
            Some(Setting::Candidate)
        } else if same(key, "seed") {
            Some(Setting::Seed)
        } else if same(key, "isolate") {
            Some(Setting::Isolate)
        } else if same(key, "shrinkage") {
            Some(Setting::Shrinkage)
        } else if same(key, "output-dir") {
            Some(Setting::OutputDir)
        } else if same(key, "repetitions") {
            Some(Setting::Repetitions)
        } else if same(key, "block-size") {
            Some(Setting::BlockSize)
        } else if same(key, "draws") {
            Some(Setting::Draws)
        } else if same(key, "timeout") {
            Some(Setting::Timeout)
        } else if same(key, "interval") {
            Some(Setting::Interval)
        } else if same(key, "working-directory") {
            Some(Setting::WorkingDirectory)
        } else if same(key, "env") {
            Some(Setting::Env)
        } else if same(key, "command") {
            Some(Setting::Command)
        } else if same(key, "config") {
            Some(Setting::Config)
        } else if same(key, "benchmark") {
            Some(Setting::Benchmark)
        } else {
            None
        };
        proof {
            if let Some(found) = setting {
                assert(found.name() == key@);
                let chosen = choose|setting: Setting| #[trigger] setting.name() == key@;
                option_names_are_distinct(found, chosen);
            }
        }
        setting
    }
}

/// The option with a key.
pub open spec fn setting_of(key: Seq<char>) -> Option<Setting> {
    if exists|setting: Setting| #[trigger] setting.name() == key {
        Some(choose|setting: Setting| #[trigger] setting.name() == key)
    } else {
        None
    }
}

/// No two options share a name.
pub proof fn option_names_are_distinct(one: Setting, other: Setting)
    ensures
        one.name() == other.name() ==> one == other,
{
    reveal_strlit("baseline");
    reveal_strlit("candidate");
    reveal_strlit("seed");
    reveal_strlit("isolate");
    reveal_strlit("shrinkage");
    reveal_strlit("output-dir");
    reveal_strlit("repetitions");
    reveal_strlit("block-size");
    reveal_strlit("draws");
    reveal_strlit("timeout");
    reveal_strlit("interval");
    reveal_strlit("working-directory");
    reveal_strlit("env");
    reveal_strlit("command");
    reveal_strlit("config");
    reveal_strlit("benchmark");
    assert(one.name() == other.name() ==> one.name().len() == other.name().len() && one.name()[0]
        == other.name()[0] && one.name()[1] == other.name()[1]);
    assert(one.name() == other.name() ==> one.name()[2] == other.name()[2]);
}

/// The options: their names, which of them may hold more than one value, and
/// which belong to the suite or choose what runs.
pub proof fn these_are_the_options(setting: Setting)
    ensures
        setting is Baseline ==> setting.name() == "baseline"@,
        setting is Candidate ==> setting.name() == "candidate"@,
        setting is Seed ==> setting.name() == "seed"@,
        setting is Isolate ==> setting.name() == "isolate"@,
        setting is Shrinkage ==> setting.name() == "shrinkage"@,
        setting is OutputDir ==> setting.name() == "output-dir"@,
        setting is Repetitions ==> setting.name() == "repetitions"@,
        setting is BlockSize ==> setting.name() == "block-size"@,
        setting is Draws ==> setting.name() == "draws"@,
        setting is Timeout ==> setting.name() == "timeout"@,
        setting is Interval ==> setting.name() == "interval"@,
        setting is WorkingDirectory ==> setting.name() == "working-directory"@,
        setting is Env ==> setting.name() == "env"@,
        setting is Command ==> setting.name() == "command"@,
        setting is Config ==> setting.name() == "config"@,
        setting is Benchmark ==> setting.name() == "benchmark"@,
        setting.repeats() <==> setting is Interval || setting is Env || setting is Command
            || setting is Benchmark,
        setting.owner() == Scope::Suite <==> setting is Baseline || setting is Candidate
            || setting is Seed,
        setting.owner() == Scope::Selector <==> setting is Config || setting is Benchmark,
        setting_of(setting.name()) == Some(setting),
{
    let chosen = choose|other: Setting| #[trigger] other.name() == setting.name();
    option_names_are_distinct(chosen, setting);
}

} // verus!
