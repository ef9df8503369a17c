//! The configuration of a suite: a TOML document that sets options, lifecycle
//! hooks and named benchmarks.

use crate::document::{
    self, contents, distinct, document, entries_are_looked_up, extended, extended_keeps_distinct, extending_keeps_places,
    keyed, keyed_inside, lookup, lookup_is_keyed, lookups_are_entries, own_values_win, tree, with,
    with_changes_one_key, with_keeps_distinct, with_keeps_places, without, without_changes_one_key,
    without_keeps_keyed, without_keeps_places, Exposed, Tree,
};
use crate::setting::{
    option_names_are_distinct, setting_of, these_are_the_options, Scope, Setting,
};
use crate::text::{decimal, decimal_text, same, texts};
use toml::{Table, Value};
use vstd::prelude::*;

verus! {

/// What stands in a table.
pub type Entries = Seq<(Seq<char>, Tree)>;

/// A command: a program and its arguments, or nothing.
pub type Words = Seq<Seq<char>>;

/// What is wrong with a configuration.
pub enum Fault {
    Unparsable,
    BenchmarksNotTable,
    NotCommandList { key: Seq<char> },
    CommandLineOnly { key: Seq<char> },
    NotOption { key: Seq<char> },
    WrongType { key: Seq<char> },
    EmptyList { key: Seq<char> },
    TooManyValues { key: Seq<char>, count: nat },
    BenchmarkNotTable { name: Seq<char> },
    SuiteLevel { name: Seq<char>, key: Seq<char> },
    UnknownBenchmark { name: Seq<char> },
    PerBenchmark { key: Seq<char>, name: Seq<char> },
}

/// Why a configuration cannot be used.
#[derive(Debug)]
pub enum ConfigError {
    Unparsable(toml::de::Error),
    BenchmarksNotTable,
    NotCommandList { key: String },
    CommandLineOnly { key: String },
    NotOption { key: String },
    WrongType { key: String },
    EmptyList { key: String },
    TooManyValues { key: String, count: usize },
    BenchmarkNotTable { name: String },
    SuiteLevel { name: String, key: String },
    UnknownBenchmark { name: String },
    PerBenchmark { key: String, name: String },
}

/// What is said of a fault in the configuration at a path.
pub open spec fn fault_text(fault: Fault, path: Seq<char>) -> Seq<char> {
    match fault {
        Fault::Unparsable => "Failed to parse "@ + path + "."@,
        Fault::BenchmarksNotTable => path + " must set `benchmarks` to a table."@,
        Fault::NotCommandList { key } => "`"@ + key + "` is not a command list."@,
        Fault::CommandLineOnly { key } => path + " cannot set `"@ + key + "`; `--"@ + key
            + "` is command-line-only."@,
        Fault::NotOption { key } => path + " sets `"@ + key + "`, which is not an option."@,
        Fault::WrongType { key } => path + " must set `"@ + key
            + "` to a string, number, boolean, list of those, or table of strings."@,
        Fault::EmptyList { key } => path + " sets `"@ + key + "` to an empty list."@,
        Fault::TooManyValues { key, count } => path + " sets `"@ + key + "` to "@ + decimal_text(
            count,
        ) + " values, but it takes only one."@,
        Fault::BenchmarkNotTable { name } => path + " must set benchmark `"@ + name
            + "` to a table."@,
        Fault::SuiteLevel { name, key } => path + " benchmark `"@ + name
            + "` cannot set suite-level `"@ + key + "`."@,
        Fault::UnknownBenchmark { name } => path + " has no benchmark named `"@ + name + "`."@,
        Fault::PerBenchmark { key, name } => "`"@ + key
            + "` cannot be passed on the command line; set it in [benchmarks."@ + name
            + "] instead."@,
    }
}

impl ConfigError {
    pub open spec fn fault(self) -> Fault {
        match self {
            ConfigError::Unparsable(_) => Fault::Unparsable,
            ConfigError::BenchmarksNotTable => Fault::BenchmarksNotTable,
            ConfigError::NotCommandList { key } => Fault::NotCommandList { key: key@ },
            ConfigError::CommandLineOnly { key } => Fault::CommandLineOnly { key: key@ },
            ConfigError::NotOption { key } => Fault::NotOption { key: key@ },
            ConfigError::WrongType { key } => Fault::WrongType { key: key@ },
            ConfigError::EmptyList { key } => Fault::EmptyList { key: key@ },
            ConfigError::TooManyValues { key, count } => Fault::TooManyValues {
                key: key@,
                count: count as nat,
            },
            ConfigError::BenchmarkNotTable { name } => Fault::BenchmarkNotTable { name: name@ },
            ConfigError::SuiteLevel { name, key } => Fault::SuiteLevel { name: name@, key: key@ },
            ConfigError::UnknownBenchmark { name } => Fault::UnknownBenchmark { name: name@ },
            ConfigError::PerBenchmark { key, name } => Fault::PerBenchmark {
                key: key@,
                name: name@,
            },
        }
    }

    /// What is said of the error, where the configuration is at `path`.
    pub fn message(&self, path: &str) -> (text: String)
        ensures
            text@ == fault_text(self.fault(), path@),
            text@ == (match self {
                ConfigError::Unparsable(_) => "Failed to parse "@ + path@ + "."@,
                ConfigError::BenchmarksNotTable => path@ + " must set `benchmarks` to a table."@,
                ConfigError::NotCommandList { key } => "`"@ + key@ + "` is not a command list."@,
                ConfigError::CommandLineOnly { key } => path@ + " cannot set `"@ + key@ + "`; `--"@
                    + key@ + "` is command-line-only."@,
                ConfigError::NotOption { key } => path@ + " sets `"@ + key@
                    + "`, which is not an option."@,
                ConfigError::WrongType { key } => path@ + " must set `"@ + key@
                    + "` to a string, number, boolean, list of those, or table of strings."@,
                ConfigError::EmptyList { key } => path@ + " sets `"@ + key@
                    + "` to an empty list."@,
                ConfigError::TooManyValues { key, count } => path@ + " sets `"@ + key@ + "` to "@
                    + decimal_text(*count as nat) + " values, but it takes only one."@,
                ConfigError::BenchmarkNotTable { name } => path@ + " must set benchmark `"@ + name@
                    + "` to a table."@,
                ConfigError::SuiteLevel { name, key } => path@ + " benchmark `"@ + name@
                    + "` cannot set suite-level `"@ + key@ + "`."@,
                ConfigError::UnknownBenchmark { name } => path@ + " has no benchmark named `"@
                    + name@ + "`."@,
                ConfigError::PerBenchmark { key, name } => "`"@ + key@
                    + "` cannot be passed on the command line; set it in [benchmarks."@ + name@
                    + "] instead."@,
            }),
    {
        let start = path.to_owned();
        match self {
            ConfigError::Unparsable(_) => "Failed to parse ".to_owned().concat(path).concat("."),
            ConfigError::BenchmarksNotTable => start.concat(" must set `benchmarks` to a table."),
            ConfigError::NotCommandList { key } => "`".to_owned().concat(key.as_str()).concat(
                "` is not a command list.",
            ),
            ConfigError::CommandLineOnly { key } => start.concat(" cannot set `").concat(
                key.as_str(),
            ).concat("`; `--").concat(key.as_str()).concat("` is command-line-only."),
            ConfigError::NotOption { key } => start.concat(" sets `").concat(key.as_str()).concat(
                "`, which is not an option.",
            ),
            ConfigError::WrongType { key } => start.concat(" must set `").concat(
                key.as_str(),
            ).concat("` to a string, number, boolean, list of those, or table of strings."),
            ConfigError::EmptyList { key } => start.concat(" sets `").concat(key.as_str()).concat(
                "` to an empty list.",
            ),
            ConfigError::TooManyValues { key, count } => start.concat(" sets `").concat(
                key.as_str(),
            ).concat("` to ").concat(decimal(*count as u64).as_str()).concat(
                " values, but it takes only one.",
            ),
            ConfigError::BenchmarkNotTable { name } => start.concat(
                " must set benchmark `",
            ).concat(name.as_str()).concat("` to a table."),
            ConfigError::SuiteLevel { name, key } => start.concat(" benchmark `").concat(
                name.as_str(),
            ).concat("` cannot set suite-level `").concat(key.as_str()).concat("`."),
            ConfigError::UnknownBenchmark { name } => start.concat(
                " has no benchmark named `",
            ).concat(name.as_str()).concat("`."),
            ConfigError::PerBenchmark { key, name } => "`".to_owned().concat(key.as_str()).concat(
                "` cannot be passed on the command line; set it in [benchmarks.",
            ).concat(name.as_str()).concat("] instead."),
        }
    }
}

/// The text of a string, an integer, a float or a boolean.
pub open spec fn scalar_of(value: Tree) -> Option<Seq<char>> {
    match value {
        Tree::Text(text) => Some(text),
        Tree::Plain(text) => Some(text),
        _ => None,
    }
}

/// A string entry as `KEY=VALUE`.
pub open spec fn variable(entry: (Seq<char>, Tree)) -> Seq<char> {
    entry.0 + "="@ + scalar_of(entry.1)->0
}

/// The values that a TOML value stands for: its own, those of a list of
/// scalars, or `KEY=VALUE` for each entry of a table of strings.
pub open spec fn values_of(value: Tree) -> Option<Words> {
    match value {
        Tree::List(items) => if forall|i: int|
            0 <= i < items.len() ==> scalar_of(#[trigger] items[i]) is Some {
            Some(items.map_values(|item: Tree| scalar_of(item)->0))
        } else {
            None
        },
        Tree::Table(entries) => if forall|i: int|
            0 <= i < entries.len() ==> (#[trigger] entries[i]).1 is Text {
            Some(entries.map_values(|entry: (Seq<char>, Tree)| variable(entry)))
        } else {
            None
        },
        _ => match scalar_of(value) {
            Some(text) => Some(seq![text]),
            None => None,
        },
    }
}

/// The text of a scalar.
fn scalar(value: &Value) -> (text: Option<String>)
    ensures
        match text {
            Some(text) => scalar_of(tree(*value)) == Some(text@),
            None => scalar_of(tree(*value)) is None,
        },
{
    match document::expose(value) {
        Exposed::Text(text) => Some(text.as_str().to_owned()),
        Exposed::Plain(value) => Some(document::notation(value)),
        _ => None,
    }
}

/// The values that a TOML value stands for.
fn defaults(value: &Value) -> (values: Option<Vec<String>>)
    ensures
        match values {
            Some(values) => values_of(tree(*value)) == Some(texts(values@)),
            None => values_of(tree(*value)) is None,
        },
{
    let mut values: Vec<String> = Vec::new();
    match document::expose(value) {
        Exposed::List(items) => {
            let ghost trees = items@.map_values(|item: Value| tree(item));
            for i in 0..items.len()
                invariant
                    tree(*value) == Tree::List(trees),
                    trees == items@.map_values(|item: Value| tree(item)),
                    values@.len() == i,
                    forall|j: int|
                        0 <= j < i ==> scalar_of(trees[j]) == Some((#[trigger] values@[j])@),
            {
                assert(trees[i as int] == tree(items@[i as int]));
                match scalar(&items[i]) {
                    Some(text) => {
                        values.push(text);
                    },
                    None => {
                        return None;
                    },
                }
            }
            assert forall|j: int| 0 <= j < trees.len() implies scalar_of(
                #[trigger] trees[j],
            ) is Some by {
                assert(scalar_of(trees[j]) == Some(values@[j]@));
            }
            assert(texts(values@) =~= trees.map_values(|item: Tree| scalar_of(item)->0));
            Some(values)
        },
        Exposed::Table(table) => {
            let entries = document::entries(table);
            let ghost held = contents(*table);
            for i in 0..entries.len()
                invariant
                    tree(*value) == Tree::Table(held),
                    held.len() == entries@.len(),
                    forall|j: int|
                        0 <= j < entries@.len() ==> held[j] == (
                            (#[trigger] entries@[j]).0@,
                            tree(*entries@[j].1),
                        ),
                    values@.len() == i,
                    forall|j: int| 0 <= j < i ==> (#[trigger] held[j]).1 is Text,
                    forall|j: int| 0 <= j < i ==> (#[trigger] values@[j])@ == variable(held[j]),
            {
                let (key, inner) = entries[i];
                assert(held[i as int] == (entries@[i as int].0@, tree(*entries@[i as int].1)));
                match document::expose(inner) {
                    Exposed::Text(text) => {
                        values.push(
                            key.as_str().to_owned().concat("=").concat(text.as_str()),
                        );
                    },
                    _ => {
                        return None;
                    },
                }
            }
            assert(texts(values@) =~= held.map_values(
                |entry: (Seq<char>, Tree)| variable(entry),
            ));
            Some(values)
        },
        _ => {
            match scalar(value) {
                Some(text) => {
                    values.push(text);
                    assert(texts(values@) =~= seq![values@[0]@]);
                    Some(values)
                },
                None => None,
            }
        },
    }
}

/// The command at a key; none where the key is not set.
pub open spec fn command_of(entries: Entries, key: Seq<char>) -> Option<Words> {
    match lookup(entries, key) {
        None => Some(Seq::empty()),
        Some(value) => values_of(value),
    }
}

/// Takes the commands at keys out of a table, one after the other.
pub open spec fn taken(entries: Entries, keys: Words, count: nat) -> Result<
    (Seq<Words>, Entries),
    Fault,
>
    decreases count,
{
    if count == 0 {
        Ok((Seq::empty(), entries))
    } else {
        match taken(entries, keys, (count - 1) as nat) {
            Err(fault) => Err(fault),
            Ok((commands, rest)) => {
                let key = keys[count - 1];
                match command_of(rest, key) {
                    None => Err(Fault::NotCommandList { key }),
                    Some(command) => Ok((commands.push(command), without(rest, key))),
                }
            },
        }
    }
}

/// Takes the command at a key out of a table.
fn take_command(table: &mut Table, key: &str) -> (result: Result<Vec<String>, ConfigError>)
    ensures
        contents(*final(table)) == without(contents(*old(table)), key@),
        match result {
            Ok(command) => command_of(contents(*old(table)), key@) == Some(texts(command@)),
            Err(error) => command_of(contents(*old(table)), key@) is None && error.fault()
                == (Fault::NotCommandList { key: key@ }),
        },
{
    match document::remove(table, key) {
        None => {
            let none: Vec<String> = Vec::new();
            assert(texts(none@) =~= Seq::empty());
            Ok(none)
        },
        Some(value) => match defaults(&value) {
            Some(command) => Ok(command),
            None => Err(ConfigError::NotCommandList { key: key.to_owned() }),
        },
    }
}

/// The texts of each command of a list.
pub open spec fn all_words(commands: Seq<Vec<String>>) -> Seq<Words> {
    commands.map_values(|command: Vec<String>| texts(command@))
}

/// The texts of string slices.
pub open spec fn slices(keys: Seq<&'static str>) -> Words {
    keys.map_values(|key: &'static str| key@)
}

/// Takes the commands at keys out of a table.
fn take_commands(table: &mut Table, keys: &Vec<&'static str>) -> (result: Result<
    Vec<Vec<String>>,
    ConfigError,
>)
    ensures
        match result {
            Ok(commands) => taken(contents(*old(table)), slices(keys@), keys@.len()) == Ok::<
                (Seq<Words>, Entries),
                Fault,
            >((all_words(commands@), contents(*final(table)))) && commands@.len() == keys@.len(),
            Err(error) => taken(contents(*old(table)), slices(keys@), keys@.len()) == Err::<
                (Seq<Words>, Entries),
                Fault,
            >(error.fault()),
        },
{
    let mut commands: Vec<Vec<String>> = Vec::new();
    assert(all_words(commands@) =~= Seq::empty());
    for i in 0..keys.len()
        invariant
            commands@.len() == i,
            taken(contents(*old(table)), slices(keys@), i as nat) == Ok::<
                (Seq<Words>, Entries),
                Fault,
            >((all_words(commands@), contents(*table))),
    {
        let ghost before = contents(*table);
        let ghost words = all_words(commands@);
        assert(slices(keys@)[i as int] == keys@[i as int]@);
        match take_command(table, keys[i]) {
            Ok(command) => {
                commands.push(command);
                assert(all_words(commands@) =~= words.push(texts(command@)));
            },
            Err(error) => {
                proof {
                    taken_stays_faulty(
                        contents(*old(table)),
                        slices(keys@),
                        (i + 1) as nat,
                        keys@.len(),
                    );
                }
                return Err(error);
            },
        }
    }
    Ok(commands)
}

proof fn taken_stays_faulty(entries: Entries, keys: Words, count: nat, total: nat)
    requires
        count <= total,
        taken(entries, keys, count) is Err,
    ensures
        taken(entries, keys, total) == taken(entries, keys, count),
    decreases total - count,
{
    if count < total {
        taken_stays_faulty(entries, keys, count, (total - 1) as nat);
    }
}

/// An option and the values that a configuration gives it.
#[derive(Clone, Debug)]
pub struct Assignment {
    pub setting: Setting,
    pub values: Vec<String>,
}

/// The assignments, each as its option and the texts of its values.
pub open spec fn given(assignments: Seq<Assignment>) -> Seq<(Setting, Words)> {
    assignments.map_values(|assignment: Assignment| (assignment.setting, texts(assignment.values@)))
}

/// What one entry of a table sets.
pub open spec fn assignment(key: Seq<char>, value: Tree) -> Result<(Setting, Words), Fault> {
    match setting_of(key) {
        None => Err(Fault::NotOption { key }),
        Some(setting) => if setting.owner() == Scope::Selector {
            Err(Fault::CommandLineOnly { key })
        } else {
            match values_of(value) {
                None => Err(Fault::WrongType { key }),
                Some(values) => if values.len() == 0 {
                    Err(Fault::EmptyList { key })
                } else if !setting.repeats() && values.len() != 1 {
                    Err(Fault::TooManyValues { key, count: values.len() })
                } else {
                    Ok((setting, values))
                },
            }
        },
    }
}

/// What the first entries of a table set, or the first fault among them.
pub open spec fn assignments(entries: Entries, count: nat) -> Result<Seq<(Setting, Words)>, Fault>
    decreases count,
{
    if count == 0 {
        Ok(Seq::empty())
    } else {
        match assignments(entries, (count - 1) as nat) {
            Err(fault) => Err(fault),
            Ok(before) => match assignment(entries[count - 1].0, entries[count - 1].1) {
                Err(fault) => Err(fault),
                Ok(last) => Ok(before.push(last)),
            },
        }
    }
}

proof fn assignments_stay_faulty(entries: Entries, count: nat, total: nat)
    requires
        count <= total,
        assignments(entries, count) is Err,
    ensures
        assignments(entries, total) == assignments(entries, count),
    decreases total - count,
{
    if count < total {
        assignments_stay_faulty(entries, count, (total - 1) as nat);
    }
}

/// What one entry of a table sets.
fn configure_value(key: &str, value: &Value) -> (result: Result<Assignment, ConfigError>)
    ensures
        match result {
            Ok(set) => assignment(key@, tree(*value)) == Ok::<(Setting, Words), Fault>(
                (set.setting, texts(set.values@)),
            ),
            Err(error) => assignment(key@, tree(*value)) == Err::<(Setting, Words), Fault>(
                error.fault(),
            ),
        },
{
    let setting = match Setting::find(key) {
        Some(setting) => setting,
        None => {
            return Err(ConfigError::NotOption { key: key.to_owned() });
        },
    };
    if setting.scope() == Scope::Selector {
        return Err(ConfigError::CommandLineOnly { key: key.to_owned() });
    }
    match defaults(value) {
        None => Err(ConfigError::WrongType { key: key.to_owned() }),
        Some(values) => {
            assert(texts(values@).len() == values@.len());
            if values.len() == 0 {
                Err(ConfigError::EmptyList { key: key.to_owned() })
            } else if !setting.is_repeatable() && values.len() != 1 {
                Err(ConfigError::TooManyValues { key: key.to_owned(), count: values.len() })
            } else {
                Ok(Assignment { setting, values })
            }
        },
    }
}

/// What a table sets, in the order of its keys.
fn configure(table: &Table) -> (result: Result<Vec<Assignment>, ConfigError>)
    ensures
        match result {
            Ok(sets) => assignments(contents(*table), contents(*table).len()) == Ok::<
                Seq<(Setting, Words)>,
                Fault,
            >(given(sets@)),
            Err(error) => assignments(contents(*table), contents(*table).len()) == Err::<
                Seq<(Setting, Words)>,
                Fault,
            >(error.fault()),
        },
{
    let entries = document::entries(table);
    let ghost held = contents(*table);
    let mut sets: Vec<Assignment> = Vec::new();
    assert(given(sets@) =~= Seq::empty());
    for i in 0..entries.len()
        invariant
            held == contents(*table),
            held.len() == entries@.len(),
            forall|j: int|
                0 <= j < entries@.len() ==> held[j] == (
                    (#[trigger] entries@[j]).0@,
                    tree(*entries@[j].1),
                ),
            assignments(held, i as nat) == Ok::<Seq<(Setting, Words)>, Fault>(given(sets@)),
    {
        let (key, value) = entries[i];
        assert(held[i as int] == (entries@[i as int].0@, tree(*entries@[i as int].1)));
        let ghost before = given(sets@);
        match configure_value(key.as_str(), value) {
            Ok(set) => {
                sets.push(set);
                assert(given(sets@) =~= before.push((set.setting, texts(set.values@))));
            },
            Err(error) => {
                proof {
                    assignments_stay_faulty(held, (i + 1) as nat, held.len());
                }
                return Err(error);
            },
        }
    }
    Ok(sets)
}

/// The commands around a suite.
#[derive(Clone, Debug)]
pub struct SuiteLifecycle {
    pub startup: Vec<String>,
    pub startup_each_run: Vec<String>,
    pub teardown_each_run: Vec<String>,
    pub teardown: Vec<String>,
}

/// The commands around the worktrees.
#[derive(Clone, Debug)]
pub struct WorktreeLifecycle {
    pub startup: Vec<String>,
    pub teardown: Vec<String>,
}

/// The commands around a benchmark.
#[derive(Clone, Debug)]
pub struct BenchmarkLifecycle {
    pub startup: Vec<String>,
    pub startup_each_run: Vec<String>,
    pub teardown_each_run: Vec<String>,
    pub teardown: Vec<String>,
}

impl SuiteLifecycle {
    pub open spec fn commands(self) -> Seq<Words> {
        seq![
            texts(self.startup@),
            texts(self.startup_each_run@),
            texts(self.teardown_each_run@),
            texts(self.teardown@),
        ]
    }
}

impl WorktreeLifecycle {
    pub open spec fn commands(self) -> Seq<Words> {
        seq![texts(self.startup@), texts(self.teardown@)]
    }
}

impl BenchmarkLifecycle {
    pub open spec fn commands(self) -> Seq<Words> {
        seq![
            texts(self.startup@),
            texts(self.startup_each_run@),
            texts(self.teardown_each_run@),
            texts(self.teardown@),
        ]
    }
}

/// The keys of the suite's commands.
pub open spec fn suite_keys() -> Words {
    seq!["suite-startup"@, "startup-each-run"@, "teardown-each-run"@, "suite-teardown"@]
}

/// The keys of the worktrees' commands.
pub open spec fn worktree_keys() -> Words {
    seq!["worktree-startup"@, "worktree-teardown"@]
}

/// The keys of a benchmark's commands.
pub open spec fn benchmark_keys() -> Words {
    seq!["startup"@, "startup-each-run"@, "teardown-each-run"@, "teardown"@]
}

/// Takes the suite's commands out of a table.
fn take_suite_lifecycle(table: &mut Table) -> (result: Result<SuiteLifecycle, ConfigError>)
    ensures
        match result {
            Ok(lifecycle) => taken(contents(*old(table)), suite_keys(), 4) == Ok::<
                (Seq<Words>, Entries),
                Fault,
            >((lifecycle.commands(), contents(*final(table)))),
            Err(error) => taken(contents(*old(table)), suite_keys(), 4) == Err::<
                (Seq<Words>, Entries),
                Fault,
            >(error.fault()),
        },
{
    let keys = vec!["suite-startup", "startup-each-run", "teardown-each-run", "suite-teardown"];
    assert(slices(keys@) =~= suite_keys());
    match take_commands(table, &keys) {
        Err(error) => Err(error),
        Ok(mut commands) => {
            let ghost words = all_words(commands@);
            let teardown = commands.pop().unwrap();
            let teardown_each_run = commands.pop().unwrap();
            let startup_each_run = commands.pop().unwrap();
            let startup = commands.pop().unwrap();
            let lifecycle = SuiteLifecycle {
                startup,
                startup_each_run,
                teardown_each_run,
                teardown,
            };
            assert(lifecycle.commands() =~= words);
            Ok(lifecycle)
        },
    }
}

/// Takes the worktrees' commands out of a table.
fn take_worktree_lifecycle(table: &mut Table) -> (result: Result<WorktreeLifecycle, ConfigError>)
    ensures
        match result {
            Ok(lifecycle) => taken(contents(*old(table)), worktree_keys(), 2) == Ok::<
                (Seq<Words>, Entries),
                Fault,
            >((lifecycle.commands(), contents(*final(table)))),
            Err(error) => taken(contents(*old(table)), worktree_keys(), 2) == Err::<
                (Seq<Words>, Entries),
                Fault,
            >(error.fault()),
        },
{
    let keys = vec!["worktree-startup", "worktree-teardown"];
    assert(slices(keys@) =~= worktree_keys());
    match take_commands(table, &keys) {
        Err(error) => Err(error),
        Ok(mut commands) => {
            let ghost words = all_words(commands@);
            let teardown = commands.pop().unwrap();
            let startup = commands.pop().unwrap();
            let lifecycle = WorktreeLifecycle { startup, teardown };
            assert(lifecycle.commands() =~= words);
            Ok(lifecycle)
        },
    }
}

/// Takes a benchmark's commands out of a table.
fn take_benchmark_lifecycle(table: &mut Table) -> (result: Result<BenchmarkLifecycle, ConfigError>)
    ensures
        match result {
            Ok(lifecycle) => taken(contents(*old(table)), benchmark_keys(), 4) == Ok::<
                (Seq<Words>, Entries),
                Fault,
            >((lifecycle.commands(), contents(*final(table)))),
            Err(error) => taken(contents(*old(table)), benchmark_keys(), 4) == Err::<
                (Seq<Words>, Entries),
                Fault,
            >(error.fault()),
        },
{
    let keys = vec!["startup", "startup-each-run", "teardown-each-run", "teardown"];
    assert(slices(keys@) =~= benchmark_keys());
    match take_commands(table, &keys) {
        Err(error) => Err(error),
        Ok(mut commands) => {
            let ghost words = all_words(commands@);
            let teardown = commands.pop().unwrap();
            let teardown_each_run = commands.pop().unwrap();
            let startup_each_run = commands.pop().unwrap();
            let startup = commands.pop().unwrap();
            let lifecycle = BenchmarkLifecycle {
                startup,
                startup_each_run,
                teardown_each_run,
                teardown,
            };
            assert(lifecycle.commands() =~= words);
            Ok(lifecycle)
        },
    }
}

/// The configuration that is read where none is named.
pub const DEFAULT_CONFIG: &'static str = "foil.toml";

/// Whether a configuration that is not there is taken for an empty one: only
/// where it was not named.
pub fn is_optional(named: bool, missing: bool) -> (answer: bool)
    ensures
        answer == (!named && missing),
{
    !named && missing
}

/// What a configuration says.
pub struct Reading {
    pub suite: Seq<Words>,
    pub worktree: Seq<Words>,
    pub top: Entries,
    pub benchmarks: Entries,
}

/// What a table says as a configuration.
pub open spec fn reading(entries: Entries) -> Result<Reading, Fault> {
    let top = without(entries, "benchmarks"@);
    match lookup(entries, "benchmarks"@) {
        Some(Tree::Table(benchmarks)) => reading_of(top, benchmarks),
        None => reading_of(top, Seq::empty()),
        Some(_) => Err(Fault::BenchmarksNotTable),
    }
}

/// What a table says beside its benchmarks.
pub open spec fn reading_of(entries: Entries, benchmarks: Entries) -> Result<Reading, Fault> {
    match taken(entries, suite_keys(), 4) {
        Err(fault) => Err(fault),
        Ok((suite, rest)) => match taken(rest, worktree_keys(), 2) {
            Err(fault) => Err(fault),
            Ok((worktree, top)) => Ok(Reading { suite, worktree, top, benchmarks }),
        },
    }
}

/// Whether no table of a configuration holds a key twice.
pub open spec fn well_keyed(reading: Reading) -> bool {
    keyed(reading.top) && keyed(reading.benchmarks)
}

proof fn taken_keeps_keyed(entries: Entries, keys: Words, count: nat)
    requires
        keyed(entries),
    ensures
        taken(entries, keys, count) matches Ok((_, rest)) ==> keyed(rest),
    decreases count,
{
    if count > 0 {
        taken_keeps_keyed(entries, keys, (count - 1) as nat);
        if let Ok((_, rest)) = taken(entries, keys, (count - 1) as nat) {
            without_keeps_keyed(rest, keys[count - 1]);
        }
    }
}

/// What a keyed table says is well keyed.
proof fn reading_is_well_keyed(entries: Entries)
    requires
        keyed(entries),
    ensures
        reading(entries) matches Ok(said) ==> well_keyed(said),
{
    let top = without(entries, "benchmarks"@);
    without_keeps_keyed(entries, "benchmarks"@);
    lookup_is_keyed(entries, "benchmarks"@);
    taken_keeps_keyed(top, suite_keys(), 4);
    if let Ok((_, rest)) = taken(top, suite_keys(), 4) {
        taken_keeps_keyed(rest, worktree_keys(), 2);
    }
}

/// A configuration that was read.
pub struct Configuration {
    suite: SuiteLifecycle,
    worktree: WorktreeLifecycle,
    top: Table,
    benchmarks: Table,
}

/// What the text of a configuration says; that of no text, where there is none.
pub open spec fn read_text(text: Option<Seq<char>>) -> Result<Reading, Fault> {
    match text {
        None => reading(Seq::empty()),
        Some(text) => match document(text) {
            None => Err(Fault::Unparsable),
            Some(entries) => reading(entries),
        },
    }
}

/// Whether a key belongs to the suite or to its worktrees, and so to no benchmark.
pub open spec fn suite_level(key: Seq<char>) -> bool {
    ||| setting_of(key) matches Some(setting) && setting.owner() == Scope::Suite
    ||| top_lifecycle_key(key)
}

/// Whether a key is that of a command around the suite or its worktrees.
pub open spec fn top_lifecycle_key(key: Seq<char>) -> bool {
    ||| key == "suite-startup"@
    ||| key == "suite-teardown"@
    ||| key == "worktree-startup"@
    ||| key == "worktree-teardown"@
}

/// Where the first key of the suite's stands, among the first entries.
pub open spec fn first_suite_level(entries: Entries, count: nat) -> Option<int>
    decreases count,
{
    if count == 0 {
        None
    } else {
        match first_suite_level(entries, (count - 1) as nat) {
            Some(i) => Some(i),
            None => if suite_level(entries[count - 1].0) {
                Some(count - 1)
            } else {
                None
            },
        }
    }
}

/// What is wrong with the table of a benchmark.
pub open spec fn benchmark_fault(name: Seq<char>, value: Tree) -> Option<Fault> {
    match value {
        Tree::Table(entries) => match first_suite_level(entries, entries.len()) {
            Some(i) => Some(Fault::SuiteLevel { name, key: entries[i].0 }),
            None => match taken(entries, benchmark_keys(), 4) {
                Err(fault) => Some(fault),
                Ok((_, rest)) => match assignments(rest, rest.len()) {
                    Err(fault) => Some(fault),
                    Ok(_) => None,
                },
            },
        },
        _ => Some(Fault::BenchmarkNotTable { name }),
    }
}

/// What is wrong with the first benchmark that is wrong, among the first ones.
pub open spec fn benchmarks_fault(benchmarks: Entries, count: nat) -> Option<Fault>
    decreases count,
{
    if count == 0 {
        None
    } else {
        match benchmarks_fault(benchmarks, (count - 1) as nat) {
            Some(fault) => Some(fault),
            None => benchmark_fault(benchmarks[count - 1].0, benchmarks[count - 1].1),
        }
    }
}

/// What is wrong with a configuration.
pub open spec fn validity_fault(reading: Reading) -> Option<Fault> {
    match assignments(reading.top, reading.top.len()) {
        Err(fault) => Some(fault),
        Ok(_) => benchmarks_fault(reading.benchmarks, reading.benchmarks.len()),
    }
}

proof fn first_suite_level_stays(entries: Entries, count: nat, total: nat)
    requires
        count <= total,
        first_suite_level(entries, count) is Some,
    ensures
        first_suite_level(entries, total) == first_suite_level(entries, count),
    decreases total - count,
{
    if count < total {
        first_suite_level_stays(entries, count, (total - 1) as nat);
    }
}

proof fn benchmarks_fault_stays(benchmarks: Entries, count: nat, total: nat)
    requires
        count <= total,
        benchmarks_fault(benchmarks, count) is Some,
    ensures
        benchmarks_fault(benchmarks, total) == benchmarks_fault(benchmarks, count),
    decreases total - count,
{
    if count < total {
        benchmarks_fault_stays(benchmarks, count, (total - 1) as nat);
    }
}

/// Whether a key is that of a command around the suite or its worktrees.
fn is_top_lifecycle_key(key: &str) -> (answer: bool)
    ensures
        answer == top_lifecycle_key(key@),
{
    same(key, "suite-startup") || same(key, "suite-teardown") || same(key, "worktree-startup")
        || same(key, "worktree-teardown")
}

/// The first key of a table that belongs to the suite.
fn find_suite_level(table: &Table) -> (key: Option<String>)
    ensures
        match first_suite_level(contents(*table), contents(*table).len()) {
            Some(i) => key matches Some(key) && key@ == contents(*table)[i].0,
            None => key is None,
        },
{
    let entries = document::entries(table);
    let ghost held = contents(*table);
    for i in 0..entries.len()
        invariant
            held == contents(*table),
            held.len() == entries@.len(),
            forall|j: int|
                0 <= j < entries@.len() ==> held[j] == (
                    (#[trigger] entries@[j]).0@,
                    tree(*entries@[j].1),
                ),
            first_suite_level(held, i as nat) is None,
    {
        let (key, _) = entries[i];
        assert(held[i as int] == (entries@[i as int].0@, tree(*entries@[i as int].1)));
        let of_suite = match Setting::find(key.as_str()) {
            Some(setting) => setting.scope() == Scope::Suite,
            None => false,
        };
        if of_suite || is_top_lifecycle_key(key.as_str()) {
            proof {
                first_suite_level_stays(held, (i + 1) as nat, held.len());
            }
            return Some(key.as_str().to_owned());
        }
    }
    None
}

impl Configuration {
    pub closed spec fn reading(self) -> Reading {
        Reading {
            suite: self.suite.commands(),
            worktree: self.worktree.commands(),
            top: contents(self.top),
            benchmarks: contents(self.benchmarks),
        }
    }

    /// Reads the text of a configuration, or an empty one where there is none.
    pub fn read(text: Option<&str>) -> (result: Result<Configuration, ConfigError>)
        ensures
            match result {
                Ok(configuration) => read_text(
                    match text {
                        Some(text) => Some(text@),
                        None => None,
                    },
                ) == Ok::<Reading, Fault>(configuration.reading()) && well_keyed(
                    configuration.reading(),
                ),
                Err(error) => read_text(
                    match text {
                        Some(text) => Some(text@),
                        None => None,
                    },
                ) == Err::<Reading, Fault>(error.fault()),
            },
    {
        let mut top = match text {
            None => document::empty(),
            Some(text) => match document::parse(text) {
                Ok(table) => table,
                Err(error) => {
                    return Err(ConfigError::Unparsable(error));
                },
            },
        };
        proof {
            reading_is_well_keyed(contents(top));
        }
        let benchmarks = match document::remove(&mut top, "benchmarks") {
            None => document::empty(),
            Some(value) => match document::expose(&value) {
                Exposed::Table(table) => document::copy(table),
                _ => {
                    return Err(ConfigError::BenchmarksNotTable);
                },
            },
        };
        let suite = match take_suite_lifecycle(&mut top) {
            Ok(lifecycle) => lifecycle,
            Err(error) => {
                return Err(error);
            },
        };
        let worktree = match take_worktree_lifecycle(&mut top) {
            Ok(lifecycle) => lifecycle,
            Err(error) => {
                return Err(error);
            },
        };
        Ok(Configuration { suite, worktree, top, benchmarks })
    }

    /// The commands around the suite.
    pub fn suite_lifecycle(&self) -> (lifecycle: &SuiteLifecycle)
        ensures
            lifecycle.commands() == self.reading().suite,
    {
        &self.suite
    }

    /// The commands around the worktrees.
    pub fn worktree_lifecycle(&self) -> (lifecycle: &WorktreeLifecycle)
        ensures
            lifecycle.commands() == self.reading().worktree,
    {
        &self.worktree
    }

    /// Checks that every part of the configuration can be used, selected or not.
    pub fn validate(&self) -> (result: Result<(), ConfigError>)
        ensures
            match result {
                Ok(_) => validity_fault(self.reading()) is None,
                Err(error) => validity_fault(self.reading()) == Some(error.fault()),
            },
    {
        match configure(&self.top) {
            Err(error) => {
                return Err(error);
            },
            Ok(_) => {},
        }
        let entries = document::entries(&self.benchmarks);
        let ghost held = contents(self.benchmarks);
        for i in 0..entries.len()
            invariant
                held == self.reading().benchmarks,
                held.len() == entries@.len(),
                assignments(self.reading().top, self.reading().top.len()) is Ok,
                forall|j: int|
                    0 <= j < entries@.len() ==> held[j] == (
                        (#[trigger] entries@[j]).0@,
                        tree(*entries@[j].1),
                    ),
                benchmarks_fault(held, i as nat) is None,
        {
            let (name, value) = entries[i];
            assert(held[i as int] == (entries@[i as int].0@, tree(*entries@[i as int].1)));
            match check_benchmark(name.as_str(), value) {
                Ok(_) => {},
                Err(error) => {
                    proof {
                        benchmarks_fault_stays(held, (i + 1) as nat, held.len());
                    }
                    return Err(error);
                },
            }
        }
        Ok(())
    }
}

/// Checks the table of a benchmark.
fn check_benchmark(name: &str, value: &Value) -> (result: Result<(), ConfigError>)
    ensures
        match result {
            Ok(_) => benchmark_fault(name@, tree(*value)) is None,
            Err(error) => benchmark_fault(name@, tree(*value)) == Some(error.fault()),
        },
{
    let mut table = match document::expose(value) {
        Exposed::Table(table) => document::copy(table),
        _ => {
            return Err(ConfigError::BenchmarkNotTable { name: name.to_owned() });
        },
    };
    if let Some(key) = find_suite_level(&table) {
        return Err(ConfigError::SuiteLevel { name: name.to_owned(), key });
    }
    match take_benchmark_lifecycle(&mut table) {
        Err(error) => {
            return Err(error);
        },
        Ok(_) => {},
    }
    match configure(&table) {
        Err(error) => Err(error),
        Ok(_) => Ok(()),
    }
}

/// The names of the benchmarks of a table, in their order.
pub open spec fn names(benchmarks: Entries) -> Words {
    benchmarks.map_values(|entry: (Seq<char>, Tree)| entry.0)
}

/// What runs: the selected benchmarks in the order given, all of them where
/// none is selected, or one run without a name where there is none.
pub open spec fn run_names(selected: Words, benchmarks: Entries) -> Seq<Option<Seq<char>>> {
    let chosen = if selected.len() == 0 {
        names(benchmarks)
    } else {
        selected
    };
    if chosen.len() == 0 {
        seq![None]
    } else {
        chosen.map_values(|name: Seq<char>| Some(name))
    }
}

/// The text in an option.
pub open spec fn optional(text: Option<String>) -> Option<Seq<char>> {
    match text {
        Some(text) => Some(text@),
        None => None,
    }
}

/// The texts in options.
pub open spec fn optionals(list: Seq<Option<String>>) -> Seq<Option<Seq<char>>> {
    list.map_values(|text: Option<String>| optional(text))
}

/// A benchmark's own entries, with its variables put into those of the top level.
pub open spec fn merged_env(top: Entries, own: Entries) -> Entries {
    match (lookup(top, "env"@), lookup(own, "env"@)) {
        (Some(Tree::Table(base)), Some(Tree::Table(over))) => with(
            own,
            "env"@,
            Tree::Table(extended(base, over)),
        ),
        _ => own,
    }
}

/// What a run is configured with: the commands around it, and the options.
pub open spec fn resolution(reading: Reading, name: Option<Seq<char>>) -> Result<
    (Seq<Words>, Seq<(Setting, Words)>),
    Fault,
> {
    match name {
        None => match assignments(reading.top, reading.top.len()) {
            Err(fault) => Err(fault),
            Ok(options) => Ok((seq![Seq::empty(), Seq::empty(), Seq::empty(), Seq::empty()], options)),
        },
        Some(name) => match lookup(reading.benchmarks, name) {
            Some(Tree::Table(entries)) => match taken(entries, benchmark_keys(), 4) {
                Err(fault) => Err(fault),
                Ok((commands, own)) => {
                    let merged = extended(reading.top, merged_env(reading.top, own));
                    match assignments(merged, merged.len()) {
                        Err(fault) => Err(fault),
                        Ok(options) => Ok((commands, options)),
                    }
                },
            },
            _ => Err(Fault::UnknownBenchmark { name }),
        },
    }
}

/// What a run is configured with.
#[derive(Clone, Debug)]
pub struct Resolution {
    pub lifecycle: BenchmarkLifecycle,
    pub options: Vec<Assignment>,
}

impl Configuration {
    /// What runs, given the benchmarks that were selected.
    pub fn runs(&self, selected: &Vec<String>) -> (runs: Vec<Option<String>>)
        ensures
            optionals(runs@) == run_names(texts(selected@), self.reading().benchmarks),
            runs@.len() > 0,
            selected@.len() > 0 ==> runs@.len() == selected@.len(),
            selected@.len() > 0 ==> forall|i: int|
                0 <= i < runs@.len() ==> ((#[trigger] runs@[i]) matches Some(name) && name@
                    == selected@[i]@),
            selected@.len() == 0 && self.reading().benchmarks.len() > 0 ==> runs@.len()
                == self.reading().benchmarks.len(),
            selected@.len() == 0 && self.reading().benchmarks.len() > 0 ==> forall|i: int|
                0 <= i < runs@.len() ==> ((#[trigger] runs@[i]) matches Some(name) && name@
                    == self.reading().benchmarks[i].0),
            selected@.len() == 0 && self.reading().benchmarks.len() == 0 ==> runs@ =~= seq![
                None::<String>,
            ],
    {
        let mut runs: Vec<Option<String>> = Vec::new();
        let ghost benchmarks = self.reading().benchmarks;
        if selected.len() > 0 {
            assert(texts(selected@).len() == selected@.len());
            for i in 0..selected.len()
                invariant
                    runs@.len() == i,
                    forall|j: int|
                        0 <= j < i ==> optional(#[trigger] runs@[j]) == Some(selected@[j]@),
            {
                runs.push(Some(selected[i].as_str().to_owned()));
            }
            assert(optionals(runs@) =~= run_names(texts(selected@), benchmarks));
        } else {
            assert(texts(selected@).len() == 0);
            let entries = document::entries(&self.benchmarks);
            for i in 0..entries.len()
                invariant
                    benchmarks == contents(self.benchmarks),
                    benchmarks.len() == entries@.len(),
                    forall|j: int|
                        0 <= j < entries@.len() ==> benchmarks[j] == (
                            (#[trigger] entries@[j]).0@,
                            tree(*entries@[j].1),
                        ),
                    runs@.len() == i,
                    forall|j: int|
                        0 <= j < i ==> optional(#[trigger] runs@[j]) == Some(benchmarks[j].0),
            {
                let (name, _) = entries[i];
                assert(benchmarks[i as int] == (entries@[i as int].0@, tree(*entries@[i as int].1)));
                runs.push(Some(name.as_str().to_owned()));
            }
            if runs.len() == 0 {
                runs.push(None);
            }
            assert(optionals(runs@) =~= run_names(texts(selected@), benchmarks));
        }
        runs
    }

    /// What a run is configured with.
    pub fn resolve(&self, benchmark: Option<&str>) -> (result: Result<Resolution, ConfigError>)
        ensures
            match result {
                Ok(resolved) => resolution(
                    self.reading(),
                    match benchmark {
                        Some(name) => Some(name@),
                        None => None,
                    },
                ) == Ok::<(Seq<Words>, Seq<(Setting, Words)>), Fault>(
                    (resolved.lifecycle.commands(), given(resolved.options@)),
                ),
                Err(error) => resolution(
                    self.reading(),
                    match benchmark {
                        Some(name) => Some(name@),
                        None => None,
                    },
                ) == Err::<(Seq<Words>, Seq<(Setting, Words)>), Fault>(error.fault()),
            },
    {
        let mut values = document::copy(&self.top);
        let lifecycle = match benchmark {
            None => {
                let lifecycle = BenchmarkLifecycle {
                    startup: Vec::new(),
                    startup_each_run: Vec::new(),
                    teardown_each_run: Vec::new(),
                    teardown: Vec::new(),
                };
                assert(texts(lifecycle.startup@) =~= Seq::empty());
                assert(texts(lifecycle.startup_each_run@) =~= Seq::empty());
                assert(texts(lifecycle.teardown_each_run@) =~= Seq::empty());
                assert(texts(lifecycle.teardown@) =~= Seq::empty());
                lifecycle
            },
            Some(name) => {
                let mut own = match inner_table(&self.benchmarks, name) {
                    Some(table) => table,
                    None => {
                        return Err(ConfigError::UnknownBenchmark { name: name.to_owned() });
                    },
                };
                let lifecycle = match take_benchmark_lifecycle(&mut own) {
                    Ok(lifecycle) => lifecycle,
                    Err(error) => {
                        return Err(error);
                    },
                };
                merge_env(&values, &mut own);
                document::extend(&mut values, own);
                lifecycle
            },
        };
        match configure(&values) {
            Ok(options) => Ok(Resolution { lifecycle, options }),
            Err(error) => Err(error),
        }
    }
}

/// The table at a key, where a table stands there.
fn inner_table(table: &Table, key: &str) -> (inner: Option<Table>)
    ensures
        match lookup(contents(*table), key@) {
            Some(Tree::Table(entries)) => inner matches Some(inner) && contents(inner) == entries,
            _ => inner is None,
        },
{
    match document::get(table, key) {
        None => None,
        Some(value) => match document::expose(value) {
            Exposed::Table(table) => Some(document::copy(table)),
            _ => None,
        },
    }
}

/// Puts a benchmark's variables into those of the top level.
fn merge_env(top: &Table, own: &mut Table)
    ensures
        contents(*final(own)) == merged_env(contents(*top), contents(*old(own))),
{
    if let Some(base) = inner_table(top, "env") {
        if let Some(over) = inner_table(own, "env") {
            let mut env = base;
            document::extend(&mut env, over);
            document::insert(own, "env", env);
        }
    }
}

/// The first option that defines what a benchmark is and was passed as an
/// argument all the same.
pub open spec fn overridden(command: bool, working_directory: bool, env: bool) -> Option<Setting> {
    if command {
        Some(Setting::Command)
    } else if working_directory {
        Some(Setting::WorkingDirectory)
    } else if env {
        Some(Setting::Env)
    } else {
        None
    }
}

/// Rejects the arguments that a benchmark has to set itself. The flags say
/// which of them stand on the command line.
pub fn reject_overrides(
    benchmark: Option<&str>,
    command: bool,
    working_directory: bool,
    env: bool,
) -> (result: Result<(), ConfigError>)
    ensures
        match (benchmark, overridden(command, working_directory, env)) {
            (Some(name), Some(setting)) => result matches Err(error) && error.fault()
                == (Fault::PerBenchmark { key: setting.name(), name: name@ }),
            _ => result is Ok,
        },
        result is Err <==> benchmark is Some && (command || working_directory || env),
        result matches Err(error) ==> error matches ConfigError::PerBenchmark { key, name }
            && name@ == benchmark->0@ && key@ == (if command {
            "command"@
        } else if working_directory {
            "working-directory"@
        } else {
            "env"@
        }),
{
    let setting = if command {
        Setting::Command
    } else if working_directory {
        Setting::WorkingDirectory
    } else if env {
        Setting::Env
    } else {
        return Ok(());
    };
    match benchmark {
        None => Ok(()),
        Some(name) => Err(
            ConfigError::PerBenchmark { key: setting.key().to_owned(), name: name.to_owned() },
        ),
    }
}

/// Whether a key is that of variables, and both levels set some there.
pub open spec fn variables_at_both(top: Entries, own: Entries, key: Seq<char>) -> bool {
    &&& key == "env"@
    &&& lookup(top, key) matches Some(Tree::Table(_))
    &&& lookup(own, key) matches Some(Tree::Table(_))
}

/// What a benchmark sets wins, and what it leaves unset is inherited from the
/// top level; only variables that both levels set merge. No option is set
/// twice.
pub proof fn options_are_inherited(
    reading: Reading,
    name: Seq<char>,
    entries: Entries,
    commands: Seq<Words>,
    own: Entries,
    key: Seq<char>,
)
    requires
        well_keyed(reading),
        lookup(reading.benchmarks, name) == Some(Tree::Table(entries)),
        taken(entries, benchmark_keys(), 4) == Ok::<(Seq<Words>, Entries), Fault>((commands, own)),
    ensures
        !variables_at_both(reading.top, own, key) ==> lookup(
            extended(reading.top, merged_env(reading.top, own)),
            key,
        ) == match lookup(own, key) {
            Some(value) => Some(value),
            None => lookup(reading.top, key),
        },
        distinct(extended(reading.top, merged_env(reading.top, own))),
{
    let top = reading.top;
    let merged = merged_env(top, own);
    lookup_is_keyed(reading.benchmarks, name);
    taken_keeps_keyed(entries, benchmark_keys(), 4);
    if let (Some(Tree::Table(base)), Some(Tree::Table(over))) = (
        lookup(top, "env"@),
        lookup(own, "env"@),
    ) {
        let env = Tree::Table(extended(base, over));
        with_keeps_distinct(own, "env"@, env);
        with_changes_one_key(own, "env"@, env, key);
    }
    own_values_win(top, merged, key);
    extended_keeps_distinct(top, merged);
}

/// Variables merge one by one: a benchmark's own value wins, and a variable
/// that it does not set keeps the value of the top level.
pub proof fn variables_merge(
    reading: Reading,
    benchmark: Seq<char>,
    entries: Entries,
    commands: Seq<Words>,
    own: Entries,
    base: Entries,
    over: Entries,
    name: Seq<char>,
)
    requires
        well_keyed(reading),
        lookup(reading.benchmarks, benchmark) == Some(Tree::Table(entries)),
        taken(entries, benchmark_keys(), 4) == Ok::<(Seq<Words>, Entries), Fault>((commands, own)),
        lookup(reading.top, "env"@) == Some(Tree::Table(base)),
        lookup(own, "env"@) == Some(Tree::Table(over)),
    ensures
        lookup(extended(reading.top, merged_env(reading.top, own)), "env"@) matches Some(
            Tree::Table(env),
        ) && lookup(env, name) == match lookup(over, name) {
            Some(value) => Some(value),
            None => lookup(base, name),
        },
{
    let merged = merged_env(reading.top, own);
    let env = Tree::Table(extended(base, over));
    lookup_is_keyed(reading.benchmarks, benchmark);
    taken_keeps_keyed(entries, benchmark_keys(), 4);
    lookup_is_keyed(own, "env"@);
    assert(keyed_inside(Tree::Table(over)));
    assert(keyed(over));
    with_keeps_distinct(own, "env"@, env);
    own_values_win(reading.top, merged, "env"@);
    with_changes_one_key(own, "env"@, env, "env"@);
    own_values_win(base, over, name);
}

/// The values that a TOML value stands for, by what it holds: a string, an
/// integer, a float or a boolean stands for its text, a list for those of its
/// items in their order, and a table of strings for a `KEY=VALUE` of each entry.
/// Nothing else stands for values.
pub proof fn values_stand_for_what_is_written(value: Tree, words: Words)
    ensures
        value matches Tree::Text(text) ==> (values_of(value) == Some(words) <==> words =~= seq![
            text,
        ]),
        value matches Tree::Plain(text) ==> (values_of(value) == Some(words) <==> words =~= seq![
            text,
        ]),
        value is Date ==> values_of(value) is None,
        value matches Tree::List(items) ==> (values_of(value) == Some(words) <==> words.len()
            == items.len() && forall|i: int|
            0 <= i < items.len() ==> ((#[trigger] items[i]) == Tree::Text(words[i]) || items[i]
                == Tree::Plain(words[i]))),
        value matches Tree::List(items) ==> (values_of(value) is None <==> exists|i: int|
            0 <= i < items.len() && !((#[trigger] items[i]) is Text || items[i] is Plain)),
        value matches Tree::Table(entries) ==> (values_of(value) == Some(words) <==> words.len()
            == entries.len() && forall|i: int|
            0 <= i < entries.len() ==> ((#[trigger] entries[i]).1 matches Tree::Text(text)
                && words[i] == entries[i].0 + "="@ + text)),
        value matches Tree::Table(entries) ==> (values_of(value) is None <==> exists|i: int|
            0 <= i < entries.len() && !((#[trigger] entries[i]).1 is Text)),
{
    match value {
        Tree::List(items) => {
            if values_of(value) is Some {
                let said = values_of(value)->0;
                assert forall|i: int| 0 <= i < items.len() implies ((#[trigger] items[i])
                    == Tree::Text(said[i]) || items[i] == Tree::Plain(said[i])) by {
                    assert(scalar_of(items[i]) is Some);
                }
                if words.len() == items.len() && forall|i: int|
                    0 <= i < items.len() ==> ((#[trigger] items[i]) == Tree::Text(words[i])
                        || items[i] == Tree::Plain(words[i])) {
                    assert forall|i: int| 0 <= i < words.len() implies words[i] == said[i] by {
                        assert(items[i] == Tree::Text(words[i]) || items[i] == Tree::Plain(
                            words[i],
                        ));
                    }
                    assert(words =~= said);
                }
            } else {
                let i = choose|i: int|
                    0 <= i < items.len() && scalar_of(#[trigger] items[i]) is None;
                assert(!(items[i] is Text || items[i] is Plain));
            }
        },
        Tree::Table(entries) => {
            if values_of(value) is Some {
                let said = values_of(value)->0;
                assert forall|i: int| 0 <= i < entries.len() implies ((#[trigger] entries[i]).1
                    matches Tree::Text(text) && said[i] == entries[i].0 + "="@ + text) by {
                    assert(said[i] == variable(entries[i]));
                }
                if words.len() == entries.len() && forall|i: int|
                    0 <= i < entries.len() ==> ((#[trigger] entries[i]).1 matches Tree::Text(text)
                        && words[i] == entries[i].0 + "="@ + text) {
                    assert forall|i: int| 0 <= i < words.len() implies words[i] == said[i] by {
                        assert(entries[i].1 is Text);
                    }
                    assert(words =~= said);
                }
            } else {
                let i = choose|i: int| 0 <= i < entries.len() && !((#[trigger] entries[i]).1 is Text);
                assert(!(entries[i].1 is Text));
            }
        },
        _ => {},
    }
}

/// What is taken out of a table at keys that differ: each command stands at its
/// own key, what stands elsewhere stays, and the first key without a command is
/// the fault.
proof fn taken_reads(entries: Entries, keys: Words, count: nat)
    requires
        count <= keys.len(),
        forall|i: int, j: int| 0 <= i < j < keys.len() ==> #[trigger] keys[i] != #[trigger] keys[j],
    ensures
        match taken(entries, keys, count) {
            Ok((commands, rest)) => {
                &&& commands.len() == count
                &&& forall|i: int|
                    0 <= i < count ==> command_of(entries, keys[i]) == Some(#[trigger] commands[i])
                &&& forall|other: Seq<char>|
                    (forall|i: int| 0 <= i < count ==> #[trigger] keys[i] != other)
                        ==> #[trigger] lookup(rest, other) == lookup(entries, other)
            },
            Err(fault) => exists|i: int|
                {
                    &&& 0 <= i < count
                    &&& fault == (Fault::NotCommandList { key: #[trigger] keys[i] })
                    &&& command_of(entries, keys[i]) is None
                    &&& forall|j: int|
                        0 <= j < i ==> command_of(entries, #[trigger] keys[j]) is Some
                },
        },
    decreases count,
{
    if count > 0 {
        taken_reads(entries, keys, (count - 1) as nat);
        let key = keys[count - 1];
        if let Ok((commands, rest)) = taken(entries, keys, (count - 1) as nat) {
            assert forall|i: int| 0 <= i < count - 1 implies #[trigger] keys[i] != key by {}
            assert(lookup(rest, key) == lookup(entries, key));
            assert(command_of(rest, key) == command_of(entries, key));
            match command_of(rest, key) {
                None => {
                    assert forall|j: int| 0 <= j < count - 1 implies command_of(
                        entries,
                        #[trigger] keys[j],
                    ) is Some by {
                        assert(command_of(entries, keys[j]) == Some(commands[j]));
                    }
                    assert(keys[count - 1] == key);
                },
                Some(command) => {
                    let all = commands.push(command);
                    let left = without(rest, key);
                    assert forall|i: int| 0 <= i < count implies command_of(entries, keys[i])
                        == Some(#[trigger] all[i]) by {
                        if i < count - 1 {
                            assert(all[i] == commands[i]);
                        }
                    }
                    assert forall|other: Seq<char>|
                        (forall|i: int| 0 <= i < count ==> #[trigger] keys[i] != other)
                        implies #[trigger] lookup(left, other) == lookup(entries, other) by {
                        assert(keys[count - 1] != other);
                        without_changes_one_key(rest, key, other);
                        assert(lookup(rest, other) == lookup(entries, other));
                    }
                },
            }
        }
    }
}

proof fn hook_keys_differ()
    ensures
        "suite-startup"@ != "startup-each-run"@,
        "suite-startup"@ != "teardown-each-run"@,
        "suite-startup"@ != "suite-teardown"@,
        "suite-startup"@ != "worktree-startup"@,
        "suite-startup"@ != "worktree-teardown"@,
        "suite-startup"@ != "benchmarks"@,
        "startup-each-run"@ != "teardown-each-run"@,
        "startup-each-run"@ != "suite-teardown"@,
        "startup-each-run"@ != "worktree-startup"@,
        "startup-each-run"@ != "worktree-teardown"@,
        "startup-each-run"@ != "benchmarks"@,
        "teardown-each-run"@ != "suite-teardown"@,
        "teardown-each-run"@ != "worktree-startup"@,
        "teardown-each-run"@ != "worktree-teardown"@,
        "teardown-each-run"@ != "benchmarks"@,
        "suite-teardown"@ != "worktree-startup"@,
        "suite-teardown"@ != "worktree-teardown"@,
        "suite-teardown"@ != "benchmarks"@,
        "worktree-startup"@ != "worktree-teardown"@,
        "worktree-startup"@ != "benchmarks"@,
        "worktree-teardown"@ != "benchmarks"@,
        "startup"@ != "startup-each-run"@,
        "startup"@ != "teardown-each-run"@,
        "startup"@ != "teardown"@,
        "teardown"@ != "startup-each-run"@,
        "teardown"@ != "teardown-each-run"@,
{
    reveal_strlit("suite-startup");
    reveal_strlit("startup-each-run");
    reveal_strlit("teardown-each-run");
    reveal_strlit("suite-teardown");
    reveal_strlit("worktree-startup");
    reveal_strlit("worktree-teardown");
    reveal_strlit("benchmarks");
    reveal_strlit("startup");
    reveal_strlit("teardown");
    assert("suite-startup"@.len() == 13);
    assert("startup-each-run"@.len() == 16);
    assert("teardown-each-run"@.len() == 17);
    assert("suite-teardown"@.len() == 14);
    assert("worktree-startup"@.len() == 16);
    assert("worktree-teardown"@.len() == 17);
    assert("startup"@.len() == 7);
    assert("teardown"@.len() == 8);
    assert("startup-each-run"@[0] != "worktree-startup"@[0]);
    assert("teardown-each-run"@[0] != "worktree-teardown"@[0]);
}

/// Of a configuration that was read, every hook of the suite and of its
/// worktrees is the command at the key of its name, and nothing where the key is
/// not set. The benchmarks are the table at their key, and what stands at any
/// other key is left for the options.
#[verifier::spinoff_prover]
#[verifier::rlimit(40)]
pub proof fn hooks_stand_at_their_keys(
    entries: Entries,
    said: Reading,
    suite: SuiteLifecycle,
    worktree: WorktreeLifecycle,
    key: Seq<char>,
)
    requires
        reading(entries) == Ok::<Reading, Fault>(said),
        suite.commands() == said.suite,
        worktree.commands() == said.worktree,
    ensures
        match lookup(entries, "suite-startup"@) {
            Some(value) => values_of(value) == Some(texts(suite.startup@)),
            None => suite.startup@.len() == 0,
        },
        match lookup(entries, "startup-each-run"@) {
            Some(value) => values_of(value) == Some(texts(suite.startup_each_run@)),
            None => suite.startup_each_run@.len() == 0,
        },
        match lookup(entries, "teardown-each-run"@) {
            Some(value) => values_of(value) == Some(texts(suite.teardown_each_run@)),
            None => suite.teardown_each_run@.len() == 0,
        },
        match lookup(entries, "suite-teardown"@) {
            Some(value) => values_of(value) == Some(texts(suite.teardown@)),
            None => suite.teardown@.len() == 0,
        },
        match lookup(entries, "worktree-startup"@) {
            Some(value) => values_of(value) == Some(texts(worktree.startup@)),
            None => worktree.startup@.len() == 0,
        },
        match lookup(entries, "worktree-teardown"@) {
            Some(value) => values_of(value) == Some(texts(worktree.teardown@)),
            None => worktree.teardown@.len() == 0,
        },
        match lookup(entries, "benchmarks"@) {
            Some(value) => value == Tree::Table(said.benchmarks),
            None => said.benchmarks.len() == 0,
        },
        key != "suite-startup"@ && key != "startup-each-run"@ && key != "teardown-each-run"@ && key
            != "suite-teardown"@ && key != "worktree-startup"@ && key != "worktree-teardown"@ && key
            != "benchmarks"@ ==> lookup(said.top, key) == lookup(entries, key),
{
    hook_keys_differ();
    let top = without(entries, "benchmarks"@);
    without_changes_one_key(entries, "benchmarks"@, "suite-startup"@);
    without_changes_one_key(entries, "benchmarks"@, "startup-each-run"@);
    without_changes_one_key(entries, "benchmarks"@, "teardown-each-run"@);
    without_changes_one_key(entries, "benchmarks"@, "suite-teardown"@);
    without_changes_one_key(entries, "benchmarks"@, "worktree-startup"@);
    without_changes_one_key(entries, "benchmarks"@, "worktree-teardown"@);
    without_changes_one_key(entries, "benchmarks"@, key);
    taken_reads(top, suite_keys(), 4);
    let (suite_commands, rest) = taken(top, suite_keys(), 4)->Ok_0;
    taken_reads(rest, worktree_keys(), 2);
    let (worktree_commands, last) = taken(rest, worktree_keys(), 2)->Ok_0;
    assert(suite_keys()[0] == "suite-startup"@ && suite_keys()[1] == "startup-each-run"@
        && suite_keys()[2] == "teardown-each-run"@ && suite_keys()[3] == "suite-teardown"@);
    assert(worktree_keys()[0] == "worktree-startup"@ && worktree_keys()[1]
        == "worktree-teardown"@);
    assert(lookup(rest, "worktree-startup"@) == lookup(top, "worktree-startup"@));
    assert(lookup(rest, "worktree-teardown"@) == lookup(top, "worktree-teardown"@));
    assert(command_of(top, suite_keys()[0]) == Some(suite_commands[0]));
    assert(command_of(top, suite_keys()[1]) == Some(suite_commands[1]));
    assert(command_of(top, suite_keys()[2]) == Some(suite_commands[2]));
    assert(command_of(top, suite_keys()[3]) == Some(suite_commands[3]));
    assert(command_of(rest, worktree_keys()[0]) == Some(worktree_commands[0]));
    assert(command_of(rest, worktree_keys()[1]) == Some(worktree_commands[1]));
    assert(suite_commands == suite.commands());
    assert(worktree_commands == worktree.commands());
    assert(texts(suite.startup@).len() == suite.startup@.len());
    assert(texts(suite.startup_each_run@).len() == suite.startup_each_run@.len());
    assert(texts(suite.teardown_each_run@).len() == suite.teardown_each_run@.len());
    assert(texts(suite.teardown@).len() == suite.teardown@.len());
    assert(texts(worktree.startup@).len() == worktree.startup@.len());
    assert(texts(worktree.teardown@).len() == worktree.teardown@.len());
    assert(suite_commands[0] == texts(suite.startup@));
    assert(suite_commands[1] == texts(suite.startup_each_run@));
    assert(suite_commands[2] == texts(suite.teardown_each_run@));
    assert(suite_commands[3] == texts(suite.teardown@));
    assert(worktree_commands[0] == texts(worktree.startup@));
    assert(worktree_commands[1] == texts(worktree.teardown@));
    assert(lookup(rest, key) == lookup(top, key) || exists|i: int|
        0 <= i < 4 && #[trigger] suite_keys()[i] == key);
    assert(lookup(last, key) == lookup(rest, key) || exists|i: int|
        0 <= i < 2 && #[trigger] worktree_keys()[i] == key);
}

/// A configuration is refused in reading exactly where its benchmarks are no
/// table or a hook is no command; the hook that is named is the first such one.
#[verifier::spinoff_prover]
#[verifier::rlimit(40)]
pub proof fn only_commands_are_hooks(entries: Entries)
    ensures
        reading(entries) == Err::<Reading, Fault>(Fault::BenchmarksNotTable) <==> (lookup(
            entries,
            "benchmarks"@,
        ) matches Some(value) && !(value is Table)),
        reading(entries) is Ok <==> {
            &&& lookup(entries, "benchmarks"@) matches Some(value) ==> value is Table
            &&& lookup(entries, "suite-startup"@) matches Some(value) ==> values_of(value) is Some
            &&& lookup(entries, "startup-each-run"@) matches Some(value) ==> values_of(
                value,
            ) is Some
            &&& lookup(entries, "teardown-each-run"@) matches Some(value) ==> values_of(
                value,
            ) is Some
            &&& lookup(entries, "suite-teardown"@) matches Some(value) ==> values_of(value) is Some
            &&& lookup(entries, "worktree-startup"@) matches Some(value) ==> values_of(
                value,
            ) is Some
            &&& lookup(entries, "worktree-teardown"@) matches Some(value) ==> values_of(
                value,
            ) is Some
        },
        (lookup(entries, "benchmarks"@) matches Some(value) ==> value is Table) && (lookup(entries, "suite-startup"@) matches Some(value) && values_of(value) is None) ==> reading(entries) == Err::<Reading, Fault>(
            Fault::NotCommandList { key: "suite-startup"@ },
        ),
        (lookup(entries, "benchmarks"@) matches Some(value) ==> value is Table) && !(lookup(entries, "suite-startup"@) matches Some(value) && values_of(value) is None) && (lookup(entries, "startup-each-run"@) matches Some(value) && values_of(value) is None) ==> reading(entries) == Err::<Reading, Fault>(
            Fault::NotCommandList { key: "startup-each-run"@ },
        ),
        (lookup(entries, "benchmarks"@) matches Some(value) ==> value is Table) && !(lookup(entries, "suite-startup"@) matches Some(value) && values_of(value) is None) && !(lookup(entries, "startup-each-run"@) matches Some(value) && values_of(value) is None) && (lookup(entries, "teardown-each-run"@) matches Some(value) && values_of(value) is None) ==> reading(entries) == Err::<Reading, Fault>(
            Fault::NotCommandList { key: "teardown-each-run"@ },
        ),
        (lookup(entries, "benchmarks"@) matches Some(value) ==> value is Table) && !(lookup(entries, "suite-startup"@) matches Some(value) && values_of(value) is None) && !(lookup(entries, "startup-each-run"@) matches Some(value) && values_of(value) is None) && !(lookup(entries, "teardown-each-run"@) matches Some(value) && values_of(value) is None) && (lookup(entries, "suite-teardown"@) matches Some(value) && values_of(value) is None) ==> reading(entries) == Err::<Reading, Fault>(
            Fault::NotCommandList { key: "suite-teardown"@ },
        ),
        (lookup(entries, "benchmarks"@) matches Some(value) ==> value is Table) && !(lookup(entries, "suite-startup"@) matches Some(value) && values_of(value) is None) && !(lookup(entries, "startup-each-run"@) matches Some(value) && values_of(value) is None) && !(lookup(entries, "teardown-each-run"@) matches Some(value) && values_of(value) is None) && !(lookup(entries, "suite-teardown"@) matches Some(value) && values_of(value) is None) && (lookup(entries, "worktree-startup"@) matches Some(value) && values_of(value) is None) ==> reading(entries) == Err::<Reading, Fault>(
            Fault::NotCommandList { key: "worktree-startup"@ },
        ),
        (lookup(entries, "benchmarks"@) matches Some(value) ==> value is Table) && !(lookup(entries, "suite-startup"@) matches Some(value) && values_of(value) is None) && !(lookup(entries, "startup-each-run"@) matches Some(value) && values_of(value) is None) && !(lookup(entries, "teardown-each-run"@) matches Some(value) && values_of(value) is None) && !(lookup(entries, "suite-teardown"@) matches Some(value) && values_of(value) is None) && !(lookup(entries, "worktree-startup"@) matches Some(value) && values_of(value) is None) && (lookup(entries, "worktree-teardown"@) matches Some(value) && values_of(value) is None) ==> reading(entries) == Err::<Reading, Fault>(
            Fault::NotCommandList { key: "worktree-teardown"@ },
        ),
{
    hook_keys_differ();
    let top = without(entries, "benchmarks"@);
    without_changes_one_key(entries, "benchmarks"@, "suite-startup"@);
    without_changes_one_key(entries, "benchmarks"@, "startup-each-run"@);
    without_changes_one_key(entries, "benchmarks"@, "teardown-each-run"@);
    without_changes_one_key(entries, "benchmarks"@, "suite-teardown"@);
    without_changes_one_key(entries, "benchmarks"@, "worktree-startup"@);
    without_changes_one_key(entries, "benchmarks"@, "worktree-teardown"@);
    taken_reads(top, suite_keys(), 4);
    assert(suite_keys()[0] == "suite-startup"@ && suite_keys()[1] == "startup-each-run"@
        && suite_keys()[2] == "teardown-each-run"@ && suite_keys()[3] == "suite-teardown"@);
    assert(worktree_keys()[0] == "worktree-startup"@ && worktree_keys()[1]
        == "worktree-teardown"@);
    if let Ok((commands, rest)) = taken(top, suite_keys(), 4) {
        assert(command_of(top, suite_keys()[0]) == Some(commands[0]));
        assert(command_of(top, suite_keys()[1]) == Some(commands[1]));
        assert(command_of(top, suite_keys()[2]) == Some(commands[2]));
        assert(command_of(top, suite_keys()[3]) == Some(commands[3]));
        taken_reads(rest, worktree_keys(), 2);
        assert(lookup(rest, "worktree-startup"@) == lookup(top, "worktree-startup"@));
        assert(lookup(rest, "worktree-teardown"@) == lookup(top, "worktree-teardown"@));
        if let Ok((others, _)) = taken(rest, worktree_keys(), 2) {
            assert(command_of(rest, worktree_keys()[0]) == Some(others[0]));
            assert(command_of(rest, worktree_keys()[1]) == Some(others[1]));
        }
    }
}

/// What an entry sets: the option of its name, unless that only chooses what
/// runs, with the values that stand there. An option has at least one value, and
/// more than one only where it repeats. Each way to miss that has its own fault.
pub proof fn an_entry_sets_the_option_of_its_name(
    key: Seq<char>,
    value: Tree,
    setting: Setting,
    values: Words,
)
    ensures
        assignment(key, value) == Ok::<(Setting, Words), Fault>((setting, values)) <==> {
            &&& setting.name() == key
            &&& !(setting is Config || setting is Benchmark)
            &&& values_of(value) == Some(values)
            &&& values.len() == 1 || (values.len() > 1 && (setting is Interval || setting is Env
                || setting is Command))
        },
        assignment(key, value) == Err::<(Setting, Words), Fault>(Fault::NotOption { key }) <==> (
        forall|other: Setting| #[trigger] other.name() != key),
        assignment(key, value) == Err::<(Setting, Words), Fault>(Fault::CommandLineOnly { key })
            <==> key == "config"@ || key == "benchmark"@,
        setting.name() == key && !(setting is Config || setting is Benchmark) ==> {
            &&& assignment(key, value) == Err::<(Setting, Words), Fault>(Fault::WrongType { key })
                <==> values_of(value) is None
            &&& assignment(key, value) == Err::<(Setting, Words), Fault>(Fault::EmptyList { key })
                <==> (values_of(value) matches Some(said) && said.len() == 0)
            &&& values_of(value) == Some(values) ==> (assignment(key, value) == Err::<
                (Setting, Words),
                Fault,
            >(Fault::TooManyValues { key, count: values.len() }) <==> values.len() > 1 && !(
            setting is Interval || setting is Env || setting is Command))
        },
{
    these_are_the_options(setting);
    these_are_the_options(Setting::Config);
    these_are_the_options(Setting::Benchmark);
    if let Some(found) = setting_of(key) {
        these_are_the_options(found);
        option_names_are_distinct(found, setting);
        option_names_are_distinct(found, Setting::Config);
        option_names_are_distinct(found, Setting::Benchmark);
    }
}

/// What a table sets: one option for each of its entries, in their order, unless
/// an entry is at fault; the first such fault is told.
pub proof fn entries_are_assigned_in_order(entries: Entries, count: nat)
    requires
        count <= entries.len(),
    ensures
        match assignments(entries, count) {
            Ok(options) => {
                &&& options.len() == count
                &&& forall|i: int|
                    0 <= i < count ==> assignment((#[trigger] entries[i]).0, entries[i].1)
                        == Ok::<(Setting, Words), Fault>(options[i])
            },
            Err(fault) => exists|i: int|
                {
                    &&& 0 <= i < count
                    &&& assignment((#[trigger] entries[i]).0, entries[i].1) == Err::<
                        (Setting, Words),
                        Fault,
                    >(fault)
                    &&& forall|j: int|
                        0 <= j < i ==> assignment((#[trigger] entries[j]).0, entries[j].1) is Ok
                },
        },
    decreases count,
{
    if count > 0 {
        entries_are_assigned_in_order(entries, (count - 1) as nat);
        let last = entries[count - 1];
        if assignments(entries, (count - 1) as nat) is Ok {
            assert(assignment(last.0, last.1) == assignment(
                entries[count - 1].0,
                entries[count - 1].1,
            ));
        }
    }
}

proof fn options_are_no_hooks(setting: Setting)
    ensures
        setting.name() != "startup"@,
        setting.name() != "startup-each-run"@,
        setting.name() != "teardown-each-run"@,
        setting.name() != "teardown"@,
{
    reveal_strlit("startup");
    reveal_strlit("startup-each-run");
    reveal_strlit("teardown-each-run");
    reveal_strlit("teardown");
    assert("startup"@.len() == 7 && "startup"@[0] == 's');
    assert("startup-each-run"@.len() == 16 && "startup-each-run"@[0] == 's');
    assert("teardown-each-run"@.len() == 17 && "teardown-each-run"@[0] == 't');
    assert("teardown"@.len() == 8 && "teardown"@[0] == 't');
    reveal_strlit("baseline");
    assert("baseline"@.len() == 8 && "baseline"@[0] == 'b');
    reveal_strlit("candidate");
    assert("candidate"@.len() == 9 && "candidate"@[0] == 'c');
    reveal_strlit("seed");
    assert("seed"@.len() == 4 && "seed"@[0] == 's');
    reveal_strlit("isolate");
    assert("isolate"@.len() == 7 && "isolate"@[0] == 'i');
    reveal_strlit("shrinkage");
    assert("shrinkage"@.len() == 9 && "shrinkage"@[0] == 's');
    reveal_strlit("output-dir");
    assert("output-dir"@.len() == 10 && "output-dir"@[0] == 'o');
    reveal_strlit("repetitions");
    assert("repetitions"@.len() == 11 && "repetitions"@[0] == 'r');
    reveal_strlit("block-size");
    assert("block-size"@.len() == 10 && "block-size"@[0] == 'b');
    reveal_strlit("draws");
    assert("draws"@.len() == 5 && "draws"@[0] == 'd');
    reveal_strlit("timeout");
    assert("timeout"@.len() == 7 && "timeout"@[0] == 't');
    reveal_strlit("interval");
    assert("interval"@.len() == 8 && "interval"@[0] == 'i');
    reveal_strlit("working-directory");
    assert("working-directory"@.len() == 17 && "working-directory"@[0] == 'w');
    reveal_strlit("env");
    assert("env"@.len() == 3 && "env"@[0] == 'e');
    reveal_strlit("command");
    assert("command"@.len() == 7 && "command"@[0] == 'c');
    reveal_strlit("config");
    assert("config"@.len() == 6 && "config"@[0] == 'c');
    reveal_strlit("benchmark");
    assert("benchmark"@.len() == 9 && "benchmark"@[0] == 'b');
}

/// What the options of a table without faults are, option by option.
proof fn options_are_those_of_the_table(
    entries: Entries,
    options: Seq<(Setting, Words)>,
    setting: Setting,
)
    requires
        distinct(entries),
        assignments(entries, entries.len()) == Ok::<Seq<(Setting, Words)>, Fault>(options),
    ensures
        match lookup(entries, setting.name()) {
            Some(value) => values_of(value) matches Some(values) && options.contains(
                (setting, values),
            ),
            None => forall|values: Words| !#[trigger] options.contains((setting, values)),
        },
        forall|i: int, j: int|
            0 <= i < j < options.len() ==> (#[trigger] options[i]).0 != (#[trigger] options[j]).0,
{
    entries_are_assigned_in_order(entries, entries.len());
    assert forall|i: int| 0 <= i < options.len() implies (#[trigger] options[i]).0.name()
        == entries[i].0 && values_of(entries[i].1) == Some(options[i].1) by {
        an_entry_sets_the_option_of_its_name(
            entries[i].0,
            entries[i].1,
            options[i].0,
            options[i].1,
        );
    }
    assert forall|i: int, j: int| 0 <= i < j < options.len() implies (#[trigger] options[i]).0 != (
    #[trigger] options[j]).0 by {
        assert(entries[i].0 != entries[j].0);
    }
    match lookup(entries, setting.name()) {
        Some(value) => {
            let i = lookups_are_entries(entries, setting.name());
            assert(options[i].0.name() == setting.name());
            option_names_are_distinct(options[i].0, setting);
            assert(options[i] == (setting, options[i].1));
            assert(options.contains((setting, options[i].1)));
        },
        None => {
            assert forall|values: Words| !#[trigger] options.contains((setting, values)) by {
                if options.contains((setting, values)) {
                    let i = choose|i: int|
                        0 <= i < options.len() && options[i] == (setting, values);
                    assert(options[i].0.name() == entries[i].0);
                    entries_are_looked_up(entries, i);
                }
            }
        },
    }
}

/// What a benchmark of a configuration runs with. Each of its hooks is the
/// command at the key of its name in its own table. Each option is what its
/// table sets, and where it sets nothing what the top level sets; an option that
/// neither sets is not given, and none is given twice. Only variables that both
/// levels set are not covered by this.
#[verifier::spinoff_prover]
#[verifier::rlimit(60)]
pub proof fn a_benchmark_runs_with_its_own_table(
    reading: Reading,
    name: Seq<char>,
    entries: Entries,
    lifecycle: BenchmarkLifecycle,
    options: Seq<(Setting, Words)>,
    setting: Setting,
)
    requires
        well_keyed(reading),
        lookup(reading.benchmarks, name) == Some(Tree::Table(entries)),
        resolution(reading, Some(name)) == Ok::<(Seq<Words>, Seq<(Setting, Words)>), Fault>(
            (lifecycle.commands(), options),
        ),
    ensures
        match lookup(entries, "startup"@) {
            Some(value) => values_of(value) == Some(texts(lifecycle.startup@)),
            None => lifecycle.startup@.len() == 0,
        },
        match lookup(entries, "startup-each-run"@) {
            Some(value) => values_of(value) == Some(texts(lifecycle.startup_each_run@)),
            None => lifecycle.startup_each_run@.len() == 0,
        },
        match lookup(entries, "teardown-each-run"@) {
            Some(value) => values_of(value) == Some(texts(lifecycle.teardown_each_run@)),
            None => lifecycle.teardown_each_run@.len() == 0,
        },
        match lookup(entries, "teardown"@) {
            Some(value) => values_of(value) == Some(texts(lifecycle.teardown@)),
            None => lifecycle.teardown@.len() == 0,
        },
        (setting is Env && (lookup(entries, setting.name()) matches Some(Tree::Table(_))) && (
        lookup(reading.top, setting.name()) matches Some(Tree::Table(_)))) || match (
            lookup(entries, setting.name()),
            lookup(reading.top, setting.name()),
        ) {
            (Some(value), _) => values_of(value) matches Some(values) && options.contains(
                (setting, values),
            ),
            (None, Some(value)) => values_of(value) matches Some(values) && options.contains(
                (setting, values),
            ),
            (None, None) => forall|values: Words| !#[trigger] options.contains((setting, values)),
        },
        forall|i: int, j: int|
            0 <= i < j < options.len() ==> (#[trigger] options[i]).0 != (#[trigger] options[j]).0,
{
    hook_keys_differ();
    taken_reads(entries, benchmark_keys(), 4);
    let (commands, own) = taken(entries, benchmark_keys(), 4)->Ok_0;
    assert(benchmark_keys()[0] == "startup"@ && benchmark_keys()[1] == "startup-each-run"@
        && benchmark_keys()[2] == "teardown-each-run"@ && benchmark_keys()[3] == "teardown"@);
    assert(command_of(entries, benchmark_keys()[0]) == Some(commands[0]));
    assert(command_of(entries, benchmark_keys()[1]) == Some(commands[1]));
    assert(command_of(entries, benchmark_keys()[2]) == Some(commands[2]));
    assert(command_of(entries, benchmark_keys()[3]) == Some(commands[3]));
    assert(commands == lifecycle.commands());
    assert(commands[0] == texts(lifecycle.startup@));
    assert(commands[1] == texts(lifecycle.startup_each_run@));
    assert(commands[2] == texts(lifecycle.teardown_each_run@));
    assert(commands[3] == texts(lifecycle.teardown@));
    assert(texts(lifecycle.startup@).len() == lifecycle.startup@.len());
    assert(texts(lifecycle.startup_each_run@).len() == lifecycle.startup_each_run@.len());
    assert(texts(lifecycle.teardown_each_run@).len() == lifecycle.teardown_each_run@.len());
    assert(texts(lifecycle.teardown@).len() == lifecycle.teardown@.len());
    options_are_no_hooks(setting);
    assert(lookup(own, setting.name()) == lookup(entries, setting.name()));
    let merged = extended(reading.top, merged_env(reading.top, own));
    options_are_inherited(reading, name, entries, commands, own, setting.name());
    options_are_those_of_the_table(merged, options, setting);
    these_are_the_options(setting);
    these_are_the_options(Setting::Env);
    option_names_are_distinct(setting, Setting::Env);
}

#[verifier::spinoff_prover]
#[verifier::rlimit(40)]
proof fn variables_are_those_of_both(
    reading: Reading,
    name: Seq<char>,
    entries: Entries,
    commands: Seq<Words>,
    own: Entries,
    base: Entries,
    over: Entries,
    env: Entries,
    values: Words,
)
    requires
        well_keyed(reading),
        lookup(reading.benchmarks, name) == Some(Tree::Table(entries)),
        taken(entries, benchmark_keys(), 4) == Ok::<(Seq<Words>, Entries), Fault>((commands, own)),
        lookup(reading.top, "env"@) == Some(Tree::Table(base)),
        lookup(own, "env"@) == Some(Tree::Table(over)),
        lookup(extended(reading.top, merged_env(reading.top, own)), "env"@) == Some(
            Tree::Table(env),
        ),
        values_of(Tree::Table(env)) == Some(values),
    ensures
        forall|i: int|
            0 <= i < values.len() ==> (#[trigger] values[i]).len() > 0 && exists|
                variable: Seq<char>,
                text: Seq<char>,
            |
                {
                    &&& values[i] == #[trigger] (variable + "="@ + text)
                    &&& match lookup(over, variable) {
                        Some(value) => value == Tree::Text(text),
                        None => lookup(base, variable) == Some(Tree::Text(text)),
                    }
                },
        base.len() <= values.len(),
        forall|i: int|
            0 <= i < base.len() ==> (#[trigger] values[i]).len() > 0 && exists|text: Seq<char>|
                values[i] == #[trigger] (base[i].0 + "="@ + text),
        forall|variable: Seq<char>|
            #![trigger lookup(over, variable)]
            #![trigger lookup(base, variable)]
            match (lookup(over, variable), lookup(base, variable)) {
                (Some(value), _) => value matches Tree::Text(text) && values.contains(
                    variable + "="@ + text,
                ),
                (None, Some(value)) => value matches Tree::Text(text) && values.contains(
                    variable + "="@ + text,
                ),
                (None, None) => true,
            },
{
    let merged = merged_env(reading.top, own);
    lookup_is_keyed(reading.benchmarks, name);
    taken_keeps_keyed(entries, benchmark_keys(), 4);
    lookup_is_keyed(own, "env"@);
    lookup_is_keyed(reading.top, "env"@);
    assert(keyed_inside(Tree::Table(over)));
    assert(keyed(over));
    assert(keyed_inside(Tree::Table(base)));
    assert(keyed(base));
    with_keeps_distinct(own, "env"@, Tree::Table(extended(base, over)));
    own_values_win(reading.top, merged, "env"@);
    with_changes_one_key(own, "env"@, Tree::Table(extended(base, over)), "env"@);
    assert(env == extended(base, over));
    extended_keeps_distinct(base, over);
    values_stand_for_what_is_written(Tree::Table(env), values);
    reveal_strlit("=");
    assert forall|i: int| 0 <= i < values.len() implies (#[trigger] values[i]).len() > 0 && exists|
        variable: Seq<char>,
        text: Seq<char>,
    |
        {
            &&& values[i] == #[trigger] (variable + "="@ + text)
            &&& match lookup(over, variable) {
                Some(value) => value == Tree::Text(text),
                None => lookup(base, variable) == Some(Tree::Text(text)),
            }
        } by {
        let variable = env[i].0;
        let text = env[i].1->Text_0;
        entries_are_looked_up(env, i);
        own_values_win(base, over, variable);
        assert(values[i] == variable + "="@ + text);
    }
    extending_keeps_places(base, over);
    assert forall|i: int| 0 <= i < base.len() implies (#[trigger] values[i]).len() > 0 && exists|
        text: Seq<char>,
    | values[i] == #[trigger] (base[i].0 + "="@ + text) by {
        assert(env[i].0 == base[i].0);
        assert(env[i].1 is Text);
        assert(values[i] == base[i].0 + "="@ + env[i].1->Text_0);
    }
    assert forall|variable: Seq<char>|
        #![trigger lookup(over, variable)]
        #![trigger lookup(base, variable)]
        match (lookup(over, variable), lookup(base, variable)) {
            (Some(value), _) => value matches Tree::Text(text) && values.contains(
                variable + "="@ + text,
            ),
            (None, Some(value)) => value matches Tree::Text(text) && values.contains(
                variable + "="@ + text,
            ),
            (None, None) => true,
        } by {
        own_values_win(base, over, variable);
        if lookup(env, variable) is Some {
            let i = lookups_are_entries(env, variable);
            assert(env[i].1 is Text);
            assert(values[i] == variable + "="@ + env[i].1->Text_0);
        }
    }
}

/// Where the table of a benchmark and the top level both set variables, the
/// benchmark runs with the variables of both, as `KEY=VALUE`: what the table
/// sets wins, and a variable that it does not set keeps its value. The variables
/// of the top level come first, in their order.
#[verifier::spinoff_prover]
#[verifier::rlimit(40)]
pub proof fn a_benchmark_runs_with_the_variables_of_both(
    reading: Reading,
    name: Seq<char>,
    entries: Entries,
    commands: Seq<Words>,
    options: Seq<(Setting, Words)>,
    base: Entries,
    over: Entries,
) -> (values: Words)
    requires
        well_keyed(reading),
        lookup(reading.benchmarks, name) == Some(Tree::Table(entries)),
        resolution(reading, Some(name)) == Ok::<(Seq<Words>, Seq<(Setting, Words)>), Fault>(
            (commands, options),
        ),
        lookup(reading.top, "env"@) == Some(Tree::Table(base)),
        lookup(entries, "env"@) == Some(Tree::Table(over)),
    ensures
        options.contains((Setting::Env, values)),
        forall|i: int|
            0 <= i < values.len() ==> (#[trigger] values[i]).len() > 0 && exists|
                variable: Seq<char>,
                text: Seq<char>,
            |
                {
                    &&& values[i] == #[trigger] (variable + "="@ + text)
                    &&& match lookup(over, variable) {
                        Some(value) => value == Tree::Text(text),
                        None => lookup(base, variable) == Some(Tree::Text(text)),
                    }
                },
        base.len() <= values.len(),
        forall|i: int|
            0 <= i < base.len() ==> (#[trigger] values[i]).len() > 0 && exists|text: Seq<char>|
                values[i] == #[trigger] (base[i].0 + "="@ + text),
        forall|variable: Seq<char>|
            #![trigger lookup(over, variable)]
            #![trigger lookup(base, variable)]
            match (lookup(over, variable), lookup(base, variable)) {
                (Some(value), _) => value matches Tree::Text(text) && values.contains(
                    variable + "="@ + text,
                ),
                (None, Some(value)) => value matches Tree::Text(text) && values.contains(
                    variable + "="@ + text,
                ),
                (None, None) => true,
            },
{
    hook_keys_differ();
    these_are_the_options(Setting::Env);
    options_are_no_hooks(Setting::Env);
    taken_reads(entries, benchmark_keys(), 4);
    let (_, own) = taken(entries, benchmark_keys(), 4)->Ok_0;
    assert(benchmark_keys()[0] == "startup"@ && benchmark_keys()[1] == "startup-each-run"@
        && benchmark_keys()[2] == "teardown-each-run"@ && benchmark_keys()[3] == "teardown"@);
    assert(lookup(own, "env"@) == lookup(entries, "env"@));
    let merged = extended(reading.top, merged_env(reading.top, own));
    options_are_inherited(reading, name, entries, commands, own, "env"@);
    options_are_those_of_the_table(merged, options, Setting::Env);
    variables_merge(reading, name, entries, commands, own, base, over, name);
    let env = lookup(merged, "env"@)->0->Table_0;
    let values = values_of(Tree::Table(env))->0;
    variables_are_those_of_both(reading, name, entries, commands, own, base, over, env, values);
    values
}

/// What a run without a benchmark is configured with: no hooks of its own, and
/// the options of the top level.
pub proof fn a_run_without_a_benchmark_has_the_top_level(
    reading: Reading,
    lifecycle: BenchmarkLifecycle,
    options: Seq<(Setting, Words)>,
    setting: Setting,
)
    requires
        well_keyed(reading),
        resolution(reading, None) == Ok::<(Seq<Words>, Seq<(Setting, Words)>), Fault>(
            (lifecycle.commands(), options),
        ),
    ensures
        lifecycle.startup@.len() == 0,
        lifecycle.startup_each_run@.len() == 0,
        lifecycle.teardown_each_run@.len() == 0,
        lifecycle.teardown@.len() == 0,
        match lookup(reading.top, setting.name()) {
            Some(value) => values_of(value) matches Some(values) && options.contains(
                (setting, values),
            ),
            None => forall|values: Words| !#[trigger] options.contains((setting, values)),
        },
        forall|i: int, j: int|
            0 <= i < j < options.len() ==> (#[trigger] options[i]).0 != (#[trigger] options[j]).0,
{
    options_are_those_of_the_table(reading.top, options, setting);
    let commands = lifecycle.commands();
    assert(commands[0] == texts(lifecycle.startup@));
    assert(commands[1] == texts(lifecycle.startup_each_run@));
    assert(commands[2] == texts(lifecycle.teardown_each_run@));
    assert(commands[3] == texts(lifecycle.teardown@));
}

/// A benchmark is unknown exactly where the configuration has no table of its
/// name.
pub proof fn only_tables_are_benchmarks(reading: Reading, name: Seq<char>)
    ensures
        resolution(reading, Some(name)) == Err::<(Seq<Words>, Seq<(Setting, Words)>), Fault>(
            Fault::UnknownBenchmark { name },
        ) <==> !(lookup(reading.benchmarks, name) matches Some(Tree::Table(_))),
{
    if let Some(Tree::Table(entries)) = lookup(reading.benchmarks, name) {
        hook_keys_differ();
        taken_reads(entries, benchmark_keys(), 4);
        if let Ok((_, own)) = taken(entries, benchmark_keys(), 4) {
            let merged = extended(reading.top, merged_env(reading.top, own));
            entries_are_assigned_in_order(merged, merged.len());
        }
    }
}

proof fn first_suite_level_found(entries: Entries, count: nat)
    requires
        count <= entries.len(),
    ensures
        match first_suite_level(entries, count) {
            Some(i) => {
                &&& 0 <= i < count
                &&& suite_level(entries[i].0)
                &&& forall|j: int| 0 <= j < i ==> !suite_level((#[trigger] entries[j]).0)
            },
            None => forall|j: int| 0 <= j < count ==> !suite_level((#[trigger] entries[j]).0),
        },
    decreases count,
{
    if count > 0 {
        first_suite_level_found(entries, (count - 1) as nat);
    }
}

/// The keys that belong to the suite, and so to no benchmark.
pub proof fn these_keys_are_the_suites(key: Seq<char>)
    ensures
        suite_level(key) <==> key == "baseline"@ || key == "candidate"@ || key == "seed"@ || key
            == "suite-startup"@ || key == "suite-teardown"@ || key == "worktree-startup"@ || key
            == "worktree-teardown"@,
{
    these_are_the_options(Setting::Baseline);
    these_are_the_options(Setting::Candidate);
    these_are_the_options(Setting::Seed);
    if let Some(setting) = setting_of(key) {
        these_are_the_options(setting);
    }
}

proof fn benchmarks_fault_found(benchmarks: Entries, count: nat)
    requires
        count <= benchmarks.len(),
    ensures
        match benchmarks_fault(benchmarks, count) {
            Some(fault) => exists|i: int|
                {
                    &&& 0 <= i < count
                    &&& benchmark_fault((#[trigger] benchmarks[i]).0, benchmarks[i].1) == Some(
                        fault,
                    )
                    &&& forall|j: int|
                        0 <= j < i ==> benchmark_fault(
                            (#[trigger] benchmarks[j]).0,
                            benchmarks[j].1,
                        ) is None
                },
            None => forall|j: int|
                0 <= j < count ==> benchmark_fault(
                    (#[trigger] benchmarks[j]).0,
                    benchmarks[j].1,
                ) is None,
        },
    decreases count,
{
    if count > 0 {
        benchmarks_fault_found(benchmarks, (count - 1) as nat);
        let last = benchmarks[count - 1];
        if benchmarks_fault(benchmarks, (count - 1) as nat) is None {
            assert(benchmark_fault(last.0, last.1) == benchmark_fault(
                benchmarks[count - 1].0,
                benchmarks[count - 1].1,
            ));
        }
    }
}

/// A benchmark of a configuration is without fault exactly where it is a table
/// that sets nothing of the suite's, whose hooks are commands and whose other
/// entries each set an option.
#[verifier::spinoff_prover]
#[verifier::rlimit(40)]
pub proof fn a_benchmark_is_without_fault(name: Seq<char>, value: Tree)
    requires
        keyed_inside(value),
    ensures
        benchmark_fault(name, value) is None <==> (value matches Tree::Table(entries) && {
            &&& forall|i: int|
                0 <= i < entries.len() ==> {
                    let key = (#[trigger] entries[i]).0;
                    &&& key != "baseline"@ && key != "candidate"@ && key != "seed"@
                    &&& key != "suite-startup"@ && key != "suite-teardown"@
                    &&& key != "worktree-startup"@ && key != "worktree-teardown"@
                }
            &&& forall|i: int|
                0 <= i < entries.len() ==> {
                    let key = (#[trigger] entries[i]).0;
                    if key == "startup"@ || key == "startup-each-run"@ || key
                        == "teardown-each-run"@ || key == "teardown"@ {
                        values_of(entries[i].1) is Some
                    } else {
                        assignment(key, entries[i].1) is Ok
                    }
                }
        }),
        benchmark_fault(name, value) == Some(Fault::BenchmarkNotTable { name }) <==> !(
        value is Table),
        value matches Tree::Table(entries) ==> forall|i: int|
            {
                &&& 0 <= i < entries.len()
                &&& suite_level((#[trigger] entries[i]).0)
                &&& forall|j: int| 0 <= j < i ==> !suite_level((#[trigger] entries[j]).0)
            } ==> benchmark_fault(name, value) == Some(
                Fault::SuiteLevel { name, key: entries[i].0 },
            ),
{
    if let Tree::Table(entries) = value {
        assert(keyed(entries));
        hook_keys_differ();
        first_suite_level_found(entries, entries.len());
        assert forall|i: int| 0 <= i < entries.len() implies {
            let key = (#[trigger] entries[i]).0;
            suite_level(key) <==> key == "baseline"@ || key == "candidate"@ || key == "seed"@ || key
                == "suite-startup"@ || key == "suite-teardown"@ || key == "worktree-startup"@ || key
                == "worktree-teardown"@
        } by {
            these_keys_are_the_suites(entries[i].0);
        }
        if let Some(i) = first_suite_level(entries, entries.len()) {
            entries_are_looked_up(entries, i);
        }
        let keys = benchmark_keys();
        assert(keys[0] == "startup"@ && keys[1] == "startup-each-run"@ && keys[2]
            == "teardown-each-run"@ && keys[3] == "teardown"@);
        taken_reads(entries, keys, 4);
        taken_keeps_keyed(entries, keys, 4);
        match taken(entries, keys, 4) {
            Err(_) => {
                let k = choose|k: int|
                    0 <= k < 4 && command_of(entries, #[trigger] keys[k]) is None;
                let i = lookups_are_entries(entries, keys[k]);
                assert(values_of(entries[i].1) is None);
            },
            Ok((commands, rest)) => {
                entries_are_assigned_in_order(rest, rest.len());
                assert forall|i: int|
                    0 <= i < entries.len() && (entries[i].0 == "startup"@ || entries[i].0
                        == "startup-each-run"@ || entries[i].0 == "teardown-each-run"@
                        || entries[i].0 == "teardown"@) implies values_of(
                    (#[trigger] entries[i]).1,
                ) is Some by {
                    entries_are_looked_up(entries, i);
                    let k: int = if entries[i].0 == "startup"@ {
                        0
                    } else if entries[i].0 == "startup-each-run"@ {
                        1
                    } else if entries[i].0 == "teardown-each-run"@ {
                        2
                    } else {
                        3
                    };
                    assert(command_of(entries, keys[k]) == Some(commands[k]));
                }
                taken_leaves_no_key(entries, keys, 4);
                assert forall|i: int| 0 <= i < rest.len() implies entries.contains(
                    #[trigger] rest[i],
                ) && rest[i].0 != "startup"@ && rest[i].0 != "startup-each-run"@ && rest[i].0
                    != "teardown-each-run"@ && rest[i].0 != "teardown"@ by {
                    entries_are_looked_up(rest, i);
                    assert(lookup(rest, keys[0]) is None && lookup(rest, keys[1]) is None
                        && lookup(rest, keys[2]) is None && lookup(rest, keys[3]) is None);
                    assert(lookup(rest, rest[i].0) == lookup(entries, rest[i].0));
                    let k = lookups_are_entries(entries, rest[i].0);
                    assert(entries[k] == rest[i]);
                }
                assert forall|i: int|
                    0 <= i < entries.len() && entries[i].0 != "startup"@ && entries[i].0
                        != "startup-each-run"@ && entries[i].0 != "teardown-each-run"@
                        && entries[i].0 != "teardown"@ implies rest.contains(
                    #[trigger] entries[i],
                ) by {
                    entries_are_looked_up(entries, i);
                    assert(lookup(rest, entries[i].0) == lookup(entries, entries[i].0));
                    let k = lookups_are_entries(rest, entries[i].0);
                    assert(rest[k] == entries[i]);
                }
            },
        }
    }
}

/// What was taken out of a table is no longer there.
proof fn taken_leaves_no_key(entries: Entries, keys: Words, count: nat)
    requires
        keyed(entries),
        count <= keys.len(),
        forall|i: int, j: int| 0 <= i < j < keys.len() ==> #[trigger] keys[i] != #[trigger] keys[j],
    ensures
        taken(entries, keys, count) matches Ok((_, rest)) ==> forall|i: int|
            0 <= i < count ==> lookup(rest, #[trigger] keys[i]) is None,
    decreases count,
{
    if count > 0 {
        taken_leaves_no_key(entries, keys, (count - 1) as nat);
        taken_keeps_keyed(entries, keys, (count - 1) as nat);
        if let Ok((_, before)) = taken(entries, keys, (count - 1) as nat) {
            let key = keys[count - 1];
            assert forall|i: int| 0 <= i < count implies lookup(
                without(before, key),
                #[trigger] keys[i],
            ) is None by {
                without_changes_one_key(before, key, keys[i]);
            }
        }
    }
}

/// A configuration is without fault exactly where every entry of its top level
/// sets an option and every benchmark is without fault, selected or not. Else
/// the fault that is told is the first one, the top level before the benchmarks.
pub proof fn a_configuration_is_without_fault(reading: Reading)
    ensures
        validity_fault(reading) is None <==> {
            &&& forall|i: int|
                0 <= i < reading.top.len() ==> assignment(
                    (#[trigger] reading.top[i]).0,
                    reading.top[i].1,
                ) is Ok
            &&& forall|i: int|
                0 <= i < reading.benchmarks.len() ==> benchmark_fault(
                    (#[trigger] reading.benchmarks[i]).0,
                    reading.benchmarks[i].1,
                ) is None
        },
        validity_fault(reading) matches Some(fault) ==> {
            ||| exists|i: int|
                {
                    &&& 0 <= i < reading.top.len()
                    &&& assignment((#[trigger] reading.top[i]).0, reading.top[i].1) == Err::<
                        (Setting, Words),
                        Fault,
                    >(fault)
                    &&& forall|j: int|
                        0 <= j < i ==> assignment(
                            (#[trigger] reading.top[j]).0,
                            reading.top[j].1,
                        ) is Ok
                }
            ||| exists|i: int|
                {
                    &&& 0 <= i < reading.benchmarks.len()
                    &&& benchmark_fault(
                        (#[trigger] reading.benchmarks[i]).0,
                        reading.benchmarks[i].1,
                    ) == Some(fault)
                    &&& forall|j: int|
                        0 <= j < i ==> benchmark_fault(
                            (#[trigger] reading.benchmarks[j]).0,
                            reading.benchmarks[j].1,
                        ) is None
                    &&& forall|j: int|
                        0 <= j < reading.top.len() ==> assignment(
                            (#[trigger] reading.top[j]).0,
                            reading.top[j].1,
                        ) is Ok
                }
        },
{
    entries_are_assigned_in_order(reading.top, reading.top.len());
    benchmarks_fault_found(reading.benchmarks, reading.benchmarks.len());
}

/// Every error tells the fault of its name.
pub proof fn errors_tell_their_faults(error: ConfigError)
    ensures
        error is Unparsable ==> error.fault() == Fault::Unparsable,
        error is BenchmarksNotTable ==> error.fault() == Fault::BenchmarksNotTable,
        error matches ConfigError::NotCommandList { key } ==> error.fault() == (Fault::NotCommandList {
            key: key@,
        }),
        error matches ConfigError::CommandLineOnly { key } ==> error.fault() == (Fault::CommandLineOnly {
            key: key@,
        }),
        error matches ConfigError::NotOption { key } ==> error.fault() == (Fault::NotOption {
            key: key@,
        }),
        error matches ConfigError::WrongType { key } ==> error.fault() == (Fault::WrongType {
            key: key@,
        }),
        error matches ConfigError::EmptyList { key } ==> error.fault() == (Fault::EmptyList {
            key: key@,
        }),
        error matches ConfigError::BenchmarkNotTable { name } ==> error.fault() == (Fault::BenchmarkNotTable {
            name: name@,
        }),
        error matches ConfigError::SuiteLevel { name, key } ==> error.fault() == (Fault::SuiteLevel {
            name: name@,
            key: key@,
        }),
        error matches ConfigError::UnknownBenchmark { name } ==> error.fault() == (Fault::UnknownBenchmark {
            name: name@,
        }),
        error matches ConfigError::PerBenchmark { key, name } ==> error.fault() == (Fault::PerBenchmark {
            key: key@,
            name: name@,
        }),
        error matches ConfigError::TooManyValues { key, count } ==> error.fault() == (
        Fault::TooManyValues { key: key@, count: count as nat }),
{
}

/// What a text stands for: where there is none the configuration is empty, a
/// text that is no document is refused as such, and else the document is read.
pub proof fn a_text_is_read_as_its_document(text: Seq<char>)
    ensures
        read_text(None) == reading(Seq::empty()),
        read_text(None) matches Ok(said) && said.top.len() == 0 && said.benchmarks.len() == 0,
        document(text) is None ==> read_text(Some(text)) == Err::<Reading, Fault>(
            Fault::Unparsable,
        ),
        document(text) matches Some(entries) ==> read_text(Some(text)) == reading(entries),
{
    let nothing: Entries = Seq::empty();
    only_commands_are_hooks(nothing);
    hook_keys_differ();
    taken_reads(nothing, suite_keys(), 4);
    let (_, rest) = taken(nothing, suite_keys(), 4)->Ok_0;
    assert(rest.len() == 0) by {
        reveal_with_fuel(taken, 5);
    }
    let (_, last) = taken(rest, worktree_keys(), 2)->Ok_0;
    assert(last.len() == 0) by {
        reveal_with_fuel(taken, 3);
    }
}

/// A benchmark without keys of the suite is at fault for the first of its hooks
/// that is no command.
#[verifier::spinoff_prover]
#[verifier::rlimit(40)]
pub proof fn the_first_hook_at_fault_counts(name: Seq<char>, entries: Entries)
    requires
        forall|i: int| 0 <= i < entries.len() ==> !suite_level((#[trigger] entries[i]).0),
    ensures
        (lookup(entries, "startup"@) matches Some(value) && values_of(value) is None) ==> benchmark_fault(
            name,
            Tree::Table(entries),
        ) == Some(Fault::NotCommandList { key: "startup"@ }),
        !(lookup(entries, "startup"@) matches Some(value) && values_of(value) is None) && (lookup(entries, "startup-each-run"@) matches Some(value) && values_of(value) is None) ==> benchmark_fault(
            name,
            Tree::Table(entries),
        ) == Some(Fault::NotCommandList { key: "startup-each-run"@ }),
        !(lookup(entries, "startup"@) matches Some(value) && values_of(value) is None) && !(lookup(entries, "startup-each-run"@) matches Some(value) && values_of(value) is None) && (lookup(entries, "teardown-each-run"@) matches Some(value) && values_of(value) is None) ==> benchmark_fault(
            name,
            Tree::Table(entries),
        ) == Some(Fault::NotCommandList { key: "teardown-each-run"@ }),
        !(lookup(entries, "startup"@) matches Some(value) && values_of(value) is None) && !(lookup(entries, "startup-each-run"@) matches Some(value) && values_of(value) is None) && !(lookup(entries, "teardown-each-run"@) matches Some(value) && values_of(value) is None) && (lookup(entries, "teardown"@) matches Some(value) && values_of(value) is None) ==> benchmark_fault(
            name,
            Tree::Table(entries),
        ) == Some(Fault::NotCommandList { key: "teardown"@ }),
{
    hook_keys_differ();
    first_suite_level_found(entries, entries.len());
    if let Some(i) = first_suite_level(entries, entries.len()) {
        assert(!suite_level(entries[i].0));
    }
    let keys = benchmark_keys();
    assert(keys[0] == "startup"@ && keys[1] == "startup-each-run"@ && keys[2]
        == "teardown-each-run"@ && keys[3] == "teardown"@);
    taken_reads(entries, keys, 4);
    if let Ok((commands, _)) = taken(entries, keys, 4) {
        assert(command_of(entries, keys[0]) == Some(commands[0]));
        assert(command_of(entries, keys[1]) == Some(commands[1]));
        assert(command_of(entries, keys[2]) == Some(commands[2]));
        assert(command_of(entries, keys[3]) == Some(commands[3]));
    }
}

/// What a benchmark can run with. Where not both levels set variables, it can
/// run exactly where its hooks are commands and where what each key of its table
/// sets, or the top level's where the table leaves it unset, is an option. Else
/// it is refused for the first hook that is no command, or for one such key.
#[verifier::spinoff_prover]
#[verifier::rlimit(40)]
pub proof fn a_benchmark_can_run_with_its_options(
    reading: Reading,
    name: Seq<char>,
    entries: Entries,
)
    requires
        well_keyed(reading),
        lookup(reading.benchmarks, name) == Some(Tree::Table(entries)),
        !((lookup(reading.top, "env"@) matches Some(Tree::Table(_))) && (lookup(
            entries,
            "env"@,
        ) matches Some(Tree::Table(_)))),
    ensures
        (lookup(entries, "startup"@) matches Some(value) && values_of(value) is None) ==> resolution(
            reading,
            Some(name),
        ) == Err::<(Seq<Words>, Seq<(Setting, Words)>), Fault>(Fault::NotCommandList {
            key: "startup"@,
        }),
        !(lookup(entries, "startup"@) matches Some(value) && values_of(value) is None) && (lookup(entries, "startup-each-run"@) matches Some(value) && values_of(value) is None) ==> resolution(
            reading,
            Some(name),
        ) == Err::<(Seq<Words>, Seq<(Setting, Words)>), Fault>(Fault::NotCommandList {
            key: "startup-each-run"@,
        }),
        !(lookup(entries, "startup"@) matches Some(value) && values_of(value) is None) && !(lookup(entries, "startup-each-run"@) matches Some(value) && values_of(value) is None) && (lookup(entries, "teardown-each-run"@) matches Some(value) && values_of(value) is None) ==> resolution(
            reading,
            Some(name),
        ) == Err::<(Seq<Words>, Seq<(Setting, Words)>), Fault>(Fault::NotCommandList {
            key: "teardown-each-run"@,
        }),
        !(lookup(entries, "startup"@) matches Some(value) && values_of(value) is None) && !(lookup(entries, "startup-each-run"@) matches Some(value) && values_of(value) is None) && !(lookup(entries, "teardown-each-run"@) matches Some(value) && values_of(value) is None) && (lookup(entries, "teardown"@) matches Some(value) && values_of(value) is None) ==> resolution(
            reading,
            Some(name),
        ) == Err::<(Seq<Words>, Seq<(Setting, Words)>), Fault>(Fault::NotCommandList {
            key: "teardown"@,
        }),
        !(lookup(entries, "startup"@) matches Some(value) && values_of(value) is None) && !(lookup(entries, "startup-each-run"@) matches Some(value) && values_of(value) is None) && !(lookup(entries, "teardown-each-run"@) matches Some(value) && values_of(value) is None) && !(lookup(entries, "teardown"@) matches Some(value) && values_of(value) is None) ==> match resolution(reading, Some(name)) {
            Ok(_) => forall|key: Seq<char>|
                #![trigger lookup(entries, key)]
                #![trigger lookup(reading.top, key)]
                key != "startup"@ && key != "startup-each-run"@ && key != "teardown-each-run"@ && key
                    != "teardown"@ ==> match (lookup(entries, key), lookup(reading.top, key)) {
                    (Some(value), _) => assignment(key, value) is Ok,
                    (None, Some(value)) => assignment(key, value) is Ok,
                    (None, None) => true,
                },
            Err(fault) => exists|key: Seq<char>, value: Tree|
                {
                    &&& #[trigger] assignment(key, value) == Err::<(Setting, Words), Fault>(fault)
                    &&& lookup(entries, key) == Some(value) || lookup(reading.top, key) == Some(
                        value,
                    )
                },
        },
{
    hook_keys_differ();
    let keys = benchmark_keys();
    assert(keys[0] == "startup"@ && keys[1] == "startup-each-run"@ && keys[2]
        == "teardown-each-run"@ && keys[3] == "teardown"@);
    taken_reads(entries, keys, 4);
    options_are_no_hooks(Setting::Env);
    these_are_the_options(Setting::Env);
    if let Ok((commands, own)) = taken(entries, keys, 4) {
        assert(command_of(entries, keys[0]) == Some(commands[0]));
        assert(command_of(entries, keys[1]) == Some(commands[1]));
        assert(command_of(entries, keys[2]) == Some(commands[2]));
        assert(command_of(entries, keys[3]) == Some(commands[3]));
        lookup_is_keyed(reading.benchmarks, name);
        assert(keyed_inside(Tree::Table(entries)));
        assert(keyed(entries));
        taken_leaves_no_key(entries, keys, 4);
        assert(lookup(own, "env"@) == lookup(entries, "env"@));
        let merged = extended(reading.top, merged_env(reading.top, own));
        entries_are_assigned_in_order(merged, merged.len());
        match assignments(merged, merged.len()) {
            Ok(_) => {
                assert forall|key: Seq<char>|
                    #![trigger lookup(entries, key)]
                    #![trigger lookup(reading.top, key)]
                    key != "startup"@ && key != "startup-each-run"@ && key != "teardown-each-run"@
                        && key != "teardown"@ implies match (
                    lookup(entries, key),
                    lookup(reading.top, key),
                ) {
                    (Some(value), _) => assignment(key, value) is Ok,
                    (None, Some(value)) => assignment(key, value) is Ok,
                    (None, None) => true,
                } by {
                    options_are_inherited(reading, name, entries, commands, own, key);
                    assert(lookup(own, key) == lookup(entries, key));
                    if lookup(merged, key) is Some {
                        let i = lookups_are_entries(merged, key);
                        assert(assignment(merged[i].0, merged[i].1) is Ok);
                    }
                }
            },
            Err(fault) => {
                let i = choose|i: int|
                    0 <= i < merged.len() && assignment((#[trigger] merged[i]).0, merged[i].1)
                        == Err::<(Setting, Words), Fault>(fault);
                let key = merged[i].0;
                options_are_inherited(reading, name, entries, commands, own, key);
                entries_are_looked_up(merged, i);
                if lookup(own, key) is Some {
                    assert(key != keys[0] && key != keys[1] && key != keys[2] && key != keys[3]);
                    assert(lookup(own, key) == lookup(entries, key));
                }
                assert(assignment(key, merged[i].1) == Err::<(Setting, Words), Fault>(fault));
            },
        }
    }
}

/// What options are given is told setting by setting, with the texts of their
/// values.
pub proof fn given_options_are_told_one_by_one(list: Seq<Assignment>, i: int)
    requires
        0 <= i < list.len(),
    ensures
        given(list).len() == list.len(),
        given(list)[i].0 == list[i].setting,
        given(list)[i].1.len() == list[i].values@.len(),
        forall|k: int|
            0 <= k < list[i].values@.len() ==> #[trigger] given(list)[i].1[k]
                == list[i].values@[k]@,
{
}

proof fn taking_keeps_places(entries: Entries, keys: Words, count: nat, i: int, j: int) -> (places: (
    int,
    int,
))
    requires
        taken(entries, keys, count) matches Ok((_, rest)) && 0 <= i < j < rest.len(),
    ensures
        0 <= places.0 < places.1 < entries.len(),
        entries[places.0] == taken(entries, keys, count)->Ok_0.1[i],
        entries[places.1] == taken(entries, keys, count)->Ok_0.1[j],
    decreases count,
{
    if count == 0 {
        (i, j)
    } else {
        let before = taken(entries, keys, (count - 1) as nat)->Ok_0.1;
        let (p, q) = without_keeps_places(before, keys[count - 1], i, j);
        taking_keeps_places(entries, keys, (count - 1) as nat, p, q)
    }
}

/// Options come in the order in which they are set: first those of the top
/// level, in its order, whether a benchmark sets them anew or not, and then those
/// that only the table of the benchmark sets, in its order.
pub proof fn options_come_in_the_order_of_the_levels(
    reading: Reading,
    name: Seq<char>,
    entries: Entries,
    commands: Seq<Words>,
    options: Seq<(Setting, Words)>,
    i: int,
    j: int,
)
    requires
        well_keyed(reading),
        lookup(reading.benchmarks, name) == Some(Tree::Table(entries)),
        resolution(reading, Some(name)) == Ok::<(Seq<Words>, Seq<(Setting, Words)>), Fault>(
            (commands, options),
        ),
        0 <= i < j < options.len(),
    ensures
        lookup(reading.top, options[j].0.name()) is Some ==> exists|p: int, q: int|
            {
                &&& 0 <= p < q < reading.top.len()
                &&& (#[trigger] reading.top[p]).0 == options[i].0.name()
                &&& (#[trigger] reading.top[q]).0 == options[j].0.name()
            },
        lookup(reading.top, options[i].0.name()) is None ==> exists|p: int, q: int|
            {
                &&& 0 <= p < q < entries.len()
                &&& (#[trigger] entries[p]).0 == options[i].0.name()
                &&& (#[trigger] entries[q]).0 == options[j].0.name()
            },
{
    let top = reading.top;
    let own = taken(entries, benchmark_keys(), 4)->Ok_0.1;
    let changed = merged_env(top, own);
    let merged = extended(top, changed);
    entries_are_assigned_in_order(merged, merged.len());
    extending_keeps_places(top, changed);
    let one = merged[i];
    let other = merged[j];
    an_entry_sets_the_option_of_its_name(one.0, one.1, options[i].0, options[i].1);
    an_entry_sets_the_option_of_its_name(other.0, other.1, options[j].0, options[j].1);
    if j < top.len() {
        assert(top[i].0 == one.0 && top[j].0 == other.0);
    }
    if i < top.len() {
        entries_are_looked_up(top, i);
        assert(top[i].0 == one.0);
    } else {
        let (p, q) = choose|p: int, q: int|
            {
                &&& 0 <= p < q < changed.len()
                &&& (#[trigger] changed[p]).0 == one.0
                &&& (#[trigger] changed[q]).0 == other.0
            };
        if let (Some(Tree::Table(base)), Some(Tree::Table(over))) = (
            lookup(top, "env"@),
            lookup(own, "env"@),
        ) {
            let env = Tree::Table(extended(base, over));
            with_keeps_places(own, "env"@, env, p);
            with_keeps_places(own, "env"@, env, q);
        }
        assert(own[p].0 == one.0 && own[q].0 == other.0);
        let (x, y) = taking_keeps_places(entries, benchmark_keys(), 4, p, q);
        assert(entries[x].0 == one.0 && entries[y].0 == other.0);
    }
}

/// The options of a run without a benchmark come in the order of the top level,
/// one for each of its entries.
pub proof fn options_come_in_the_order_of_the_top_level(
    reading: Reading,
    commands: Seq<Words>,
    options: Seq<(Setting, Words)>,
    i: int,
)
    requires
        resolution(reading, None) == Ok::<(Seq<Words>, Seq<(Setting, Words)>), Fault>(
            (commands, options),
        ),
        0 <= i < options.len(),
    ensures
        options.len() == reading.top.len(),
        options[i].0.name() == reading.top[i].0,
        values_of(reading.top[i].1) == Some(options[i].1),
{
    entries_are_assigned_in_order(reading.top, reading.top.len());
    an_entry_sets_the_option_of_its_name(
        reading.top[i].0,
        reading.top[i].1,
        options[i].0,
        options[i].1,
    );
}

} // verus!
