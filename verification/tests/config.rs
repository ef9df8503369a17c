use foil::arguments::{
    find_action, parse_draws, parse_env, parse_repetitions, parse_working_directory,
    selector_arguments, suite_seed, CountError, PathStyle, VariableError, OUTSIDE_WORKTREE,
};
use foil::config::{is_optional, reject_overrides, ConfigError, Configuration, Resolution};
use foil::posterior::Shrinkage;
use foil::scalar::Scalar;
use foil::setting::{Scope, Setting};
use foil::summary::Interval;

const REQUIRED: &str =
    "output-dir = 'bench'\nrepetitions = 12\ninterval = [0.5, 0.8]\ncommand = ['benchmark']\n";

const PREAMBLE: &str = "baseline = 'HEAD'\n\
    candidate = 'HEAD'\n\
    output-dir = 'bench'\n\
    repetitions = 10\n\
    draws = 1000\n\
    interval = [0.5, 0.8]\n\
    seed = 0\n";

const SUITE: &str = "baseline = 'HEAD'\n\
    candidate = 'HEAD'\n\
    output-dir = 'bench'\n\
    repetitions = 10\n\
    draws = 1000\n\
    interval = [0.5, 0.8]\n\
    seed = 0\n\
    \n\
    [benchmarks.first]\n\
    command = ['git', '--version']\n\
    \n\
    [benchmarks.second]\n\
    command = ['git', '--version']\n\
    \n\
    [benchmarks.third]\n\
    command = ['git', '--version']\n";

fn read(text: &str) -> Configuration {
    match Configuration::read(Some(text)) {
        Ok(configuration) => configuration,
        Err(error) => panic!("{}", error.message("foil.toml")),
    }
}

/// Reads and checks a configuration, then resolves what runs.
fn load(text: &str, selected: &[&str]) -> Result<Vec<(Option<String>, Resolution)>, ConfigError> {
    let configuration = Configuration::read(Some(text))?;
    configuration.validate()?;
    let selected = selected.iter().map(|name| name.to_string()).collect();
    configuration
        .runs(&selected)
        .into_iter()
        .map(|name| {
            let resolved = configuration.resolve(name.as_deref())?;
            Ok((name, resolved))
        })
        .collect()
}

fn failure(text: &str, selected: &[&str]) -> String {
    match load(text, selected) {
        Ok(_) => panic!("{text} was accepted"),
        Err(error) => error.message("foil.toml"),
    }
}

fn values(resolved: &Resolution, setting: Setting) -> Vec<String> {
    resolved
        .options
        .iter()
        .filter(|assignment| assignment.setting == setting)
        .flat_map(|assignment| assignment.values.clone())
        .collect()
}

fn arguments(given: &[&str]) -> Vec<Option<String>> {
    given.iter().map(|text| Some(text.to_string())).collect()
}

#[test]
fn unusable_configurations_are_reported() {
    for (contents, expected) in [
        (
            "output_dir = 'bench'",
            "sets `output_dir`, which is not an option",
        ),
        (
            "intervals = [0.5]",
            "sets `intervals`, which is not an option",
        ),
        ("config = 'other.toml'", "cannot set `config`"),
        ("interval = [[0.5, 0.8]]", "must set `interval` to a string"),
        ("seed = { value = 7 }", "must set `seed` to a string"),
        ("seed = 1979-05-27", "must set `seed` to a string"),
        ("interval = []", "sets `interval` to an empty list"),
        ("command = []", "sets `command` to an empty list"),
        (
            "baseline = ['a', 'b']",
            "sets `baseline` to 2 values, but it takes only one",
        ),
        ("draws =", "Failed to parse"),
    ] {
        let error = failure(contents, &[]);
        assert!(error.contains(expected), "{contents} gave {error}");
    }
}

#[test]
fn unusable_benchmarks_are_reported() {
    for (contents, selected, expected) in [
        ("benchmark = 'parse'", &[][..], "cannot set `benchmark`"),
        (
            "benchmarks = 1",
            &["parse"][..],
            "must set `benchmarks` to a table",
        ),
        (
            "[benchmarks]\nparse = 1",
            &["parse"][..],
            "must set benchmark `parse` to a table",
        ),
        (
            "[benchmarks.parse]\ncommand = ['echo']\n[benchmarks.parse.env]\nVAR = 1",
            &["parse"][..],
            "must set `env` to a string, number, boolean, list of those, or table of strings",
        ),
        (
            "[benchmarks.parse]\ncommand = ['echo']\nbogus = 1",
            &["parse"][..],
            "sets `bogus`, which is not an option",
        ),
    ] {
        let error = failure(contents, selected);
        assert!(error.contains(expected), "{contents} gave {error}");
    }

    let runs = load("[benchmarks.parse]\ncommand = ['echo']\nenv = 1", &["parse"])
        .ok()
        .unwrap();
    let variable = &values(&runs[0].1, Setting::Env)[0];
    let error = parse_env(variable).err().unwrap().message();
    assert!(error.contains("is not `KEY=VALUE`"), "{error}");
}

#[test]
fn a_malformed_benchmarks_table_is_always_rejected() {
    let error = failure("output-dir = 'bench'\nbenchmarks = 1\n", &[]);
    assert!(
        error.contains("must set `benchmarks` to a table"),
        "{error}"
    );
}

#[test]
fn suite_settings_cannot_be_overridden_by_a_benchmark() {
    for key in ["baseline", "candidate", "seed"] {
        let value = if key == "seed" { "1" } else { "'HEAD'" };
        let error = failure(
            &format!("[benchmarks.parse]\ncommand = ['git', '--version']\n{key} = {value}\n"),
            &[],
        );
        assert!(
            error.contains(&format!("cannot set suite-level `{key}`")),
            "{error}"
        );
    }
}

#[test]
fn an_unknown_benchmark_is_reported() {
    let error = failure("output-dir = 'bench'\n", &["nope"]);
    assert!(error.contains("has no benchmark named `nope`"), "{error}");
}

#[test]
fn removed_lifecycle_names_are_rejected() {
    for key in ["setup", "prepare", "startup", "teardown"] {
        let error = failure(&format!("{REQUIRED}{key} = ['git']\n"), &[]);
        assert!(
            error.contains(&format!("sets `{key}`, which is not an option")),
            "{error}"
        );
    }
}

#[test]
fn a_benchmarks_own_options_cannot_be_passed_as_arguments() {
    for (command, working_directory, env, key) in [
        (false, true, false, "working-directory"),
        (false, false, true, "env"),
        (true, false, false, "command"),
        (true, true, true, "command"),
    ] {
        let error = reject_overrides(Some("parse"), command, working_directory, env)
            .err()
            .unwrap()
            .message("foil.toml");
        assert!(
            error.contains(&format!(
                "`{key}` cannot be passed on the command line; set it in [benchmarks.parse] instead."
            )),
            "{error}"
        );
    }
    assert!(reject_overrides(Some("parse"), false, false, false).is_ok());
    assert!(reject_overrides(None, true, true, true).is_ok());
}

#[test]
fn an_environment_variable_name_cannot_be_empty() {
    let error = parse_env("=value").err().unwrap();
    assert!(matches!(error, VariableError::EmptyName));
    assert!(error
        .message()
        .contains("Environment variable name cannot be empty"));
}

#[test]
fn working_directory_cannot_escape_the_worktree() {
    for directory in ["/etc", "../outside"] {
        for style in [PathStyle::Unix, PathStyle::Windows] {
            assert!(parse_working_directory(directory, style).is_err());
        }
    }
    assert!(OUTSIDE_WORKTREE.contains("must be relative to the worktree root"));
}

#[test]
fn working_directories_follow_the_platform() {
    for directory in ["", ".", "sub", "sub/./inner", "sub/", "..sub", "sub../x"] {
        for style in [PathStyle::Unix, PathStyle::Windows] {
            assert_eq!(
                parse_working_directory(directory, style).ok().as_deref(),
                Some(directory)
            );
        }
    }
    for directory in ["a/..", "a/../b", "..", "/"] {
        for style in [PathStyle::Unix, PathStyle::Windows] {
            assert!(parse_working_directory(directory, style).is_err());
        }
    }
    for directory in ["C:", "c:x", "C:\\x", "\\x", "\\\\host\\share", "a\\..\\b"] {
        assert!(parse_working_directory(directory, PathStyle::Unix).is_ok());
        assert!(parse_working_directory(directory, PathStyle::Windows).is_err());
    }
}

#[test]
fn a_variable_splits_at_its_first_equals_sign() {
    assert_eq!(
        parse_env("KEY=VALUE").ok(),
        Some(("KEY".to_owned(), "VALUE".to_owned()))
    );
    assert_eq!(
        parse_env("K=a=b").ok(),
        Some(("K".to_owned(), "a=b".to_owned()))
    );
    assert_eq!(parse_env("K=").ok(), Some(("K".to_owned(), String::new())));
    assert_eq!(
        parse_env("KEY").err().unwrap().message(),
        "`KEY` is not `KEY=VALUE`."
    );
}

#[test]
fn configured_values_meet_the_same_bounds_as_arguments() {
    let runs = load("draws = 5\nrepetitions = 2\n", &[]).ok().unwrap();
    let draws = &values(&runs[0].1, Setting::Draws)[0];
    assert_eq!(
        parse_draws(draws).err().unwrap().of_draws(),
        "At least 1000 draws are required."
    );
    let repetitions = &values(&runs[0].1, Setting::Repetitions)[0];
    assert_eq!(
        parse_repetitions(repetitions)
            .err()
            .unwrap()
            .of_repetitions(),
        "At least 10 repetitions are required."
    );

    let runs = load("interval = 1.5\nshrinkage = -1\n", &[]).ok().unwrap();
    let width: f64 = values(&runs[0].1, Setting::Interval)[0].parse().unwrap();
    assert!(Interval::new(Scalar {
        bits: width.to_bits()
    })
    .is_err());
    let shrinkage: f64 = values(&runs[0].1, Setting::Shrinkage)[0].parse().unwrap();
    assert!(Shrinkage::new(Scalar {
        bits: shrinkage.to_bits()
    })
    .is_err());
}

#[test]
fn counts_are_positive_integers() {
    assert_eq!(parse_repetitions("10").ok(), Some(10));
    assert_eq!(parse_repetitions("+12").ok(), Some(12));
    assert_eq!(parse_draws("1000").ok(), Some(1000));
    assert!(matches!(parse_draws("999"), Err(CountError::TooFew)));
    for text in ["", "0", "-1", "1.5", "ten", "+", "99999999999999999999999"] {
        assert_eq!(
            parse_repetitions(text).err().unwrap().of_repetitions(),
            format!("`{text}` is not a positive integer.")
        );
    }
}

#[test]
fn a_benchmark_supplies_its_own_command() {
    let runs = load(
        &format!("{PREAMBLE}\n[benchmarks.parse]\ncommand = ['git', '--version']\n"),
        &["parse"],
    )
    .ok()
    .unwrap();
    assert_eq!(runs.len(), 1);
    assert_eq!(runs[0].0.as_deref(), Some("parse"));
    assert_eq!(
        values(&runs[0].1, Setting::Command),
        ["git", "--version"]
    );
    assert_eq!(values(&runs[0].1, Setting::Repetitions), ["10"]);
}

#[test]
fn a_benchmark_inherits_the_top_level_command() {
    let runs = load(
        &format!(
            "{PREAMBLE}command = ['git', '--version']\n\n[benchmarks.inherits]\ndraws = 2000\n"
        ),
        &["inherits"],
    )
    .ok()
    .unwrap();
    assert_eq!(
        values(&runs[0].1, Setting::Command),
        ["git", "--version"]
    );
    assert_eq!(values(&runs[0].1, Setting::Draws), ["2000"]);
}

#[test]
fn a_benchmarks_env_merges_with_the_top_level_env() {
    let runs = load(
        &format!(
            "{PREAMBLE}command = ['git', 'config', 'user.name']\n\
            \n\
            [env]\n\
            GIT_CONFIG_COUNT = '1'\n\
            GIT_CONFIG_KEY_0 = 'user.name'\n\
            GIT_CONFIG_VALUE_0 = 'top-level-env'\n\
            \n\
            [benchmarks.parse]\n\
            command = ['git', 'config', '--get-regexp', '^user.name$', '^benchmark-env$']\n\
            \n\
            [benchmarks.parse.env]\n\
            GIT_CONFIG_VALUE_0 = 'benchmark-env'\n"
        ),
        &["parse"],
    )
    .ok()
    .unwrap();
    assert_eq!(
        values(&runs[0].1, Setting::Env),
        [
            "GIT_CONFIG_COUNT=1",
            "GIT_CONFIG_KEY_0=user.name",
            "GIT_CONFIG_VALUE_0=benchmark-env"
        ]
    );
}

#[test]
fn an_env_that_is_no_table_is_replaced() {
    let runs = load(
        "env = ['A=1']\n[benchmarks.parse]\ncommand = ['x']\n[benchmarks.parse.env]\nB = '2'\n",
        &[],
    )
    .ok()
    .unwrap();
    assert_eq!(values(&runs[0].1, Setting::Env), ["B=2"]);
}

#[test]
fn a_benchmark_can_set_environment_variables() {
    let runs = load(
        &format!(
            "{PREAMBLE}\n\
            [benchmarks.parse]\n\
            command = ['git', 'config', '--get-regexp', '^user.name$', '^benchmark-env$']\n\
            \n\
            [benchmarks.parse.env]\n\
            GIT_CONFIG_COUNT = '1'\n\
            GIT_CONFIG_KEY_0 = 'user.name'\n\
            GIT_CONFIG_VALUE_0 = 'benchmark-env'\n"
        ),
        &["parse"],
    )
    .ok()
    .unwrap();
    assert_eq!(
        values(&runs[0].1, Setting::Env),
        [
            "GIT_CONFIG_COUNT=1",
            "GIT_CONFIG_KEY_0=user.name",
            "GIT_CONFIG_VALUE_0=benchmark-env"
        ]
    );
}

#[test]
fn scalars_are_written_as_in_toml() {
    let runs = load(
        "seed = 0x10\nisolate = true\nshrinkage = 2.5\ninterval = [0.5, '0.8', 1]\nbaseline = \"a\\nb\"\n",
        &[],
    )
    .ok()
    .unwrap();
    assert_eq!(values(&runs[0].1, Setting::Seed), ["16"]);
    assert_eq!(values(&runs[0].1, Setting::Isolate), ["true"]);
    assert_eq!(values(&runs[0].1, Setting::Shrinkage), ["2.5"]);
    assert_eq!(values(&runs[0].1, Setting::Interval), ["0.5", "0.8", "1"]);
    assert_eq!(values(&runs[0].1, Setting::Baseline), ["a\nb"]);
}

#[test]
fn lifecycle_hooks_are_toml_only_and_preserve_command_arguments() {
    let text = format!(
        "{PREAMBLE}suite-startup = []\n\
         suite-teardown = []\n\
         worktree-startup = ['git', '--version']\n\
         worktree-teardown = []\n\
         startup-each-run = []\n\
         teardown-each-run = []\n\
         [benchmarks.test]\n\
         startup = []\n\
         startup-each-run = []\n\
         teardown-each-run = []\n\
         teardown = []\n\
         command = ['git', '--version']\n"
    );
    let configuration = read(&text);
    assert_eq!(
        configuration.worktree_lifecycle().startup,
        ["git", "--version"]
    );
    assert!(configuration.suite_lifecycle().startup.is_empty());
    assert!(configuration.suite_lifecycle().startup_each_run.is_empty());
    let runs = load(&text, &[]).ok().unwrap();
    assert!(runs[0].1.lifecycle.startup_each_run.is_empty());
    for hook in [
        "suite-startup",
        "suite-teardown",
        "worktree-startup",
        "worktree-teardown",
        "startup",
        "startup-each-run",
        "teardown-each-run",
        "teardown",
    ] {
        assert_eq!(Setting::find(hook), None);
    }
}

#[test]
fn suite_and_benchmark_lifecycles_remain_distinct() {
    let text = format!(
        "{PREAMBLE}suite-startup = ['git', '--version']\n\
        suite-teardown = ['git', '--version']\n\
        startup-each-run = ['suite']\n\
        \n\
        [benchmarks.parse]\n\
        startup = ['git', 'config', '--file', 'marker.txt', 'startup.ran', 'benchmark-startup']\n\
        teardown = ['git', 'cat-file', '-p', 'absent-object']\n\
        startup-each-run = 'one word'\n\
        command = ['git']\n"
    );
    let configuration = read(&text);
    assert_eq!(configuration.suite_lifecycle().startup, ["git", "--version"]);
    assert_eq!(configuration.suite_lifecycle().startup_each_run, ["suite"]);
    let runs = load(&text, &[]).ok().unwrap();
    assert_eq!(
        runs[0].1.lifecycle.teardown,
        ["git", "cat-file", "-p", "absent-object"]
    );
    assert_eq!(runs[0].1.lifecycle.startup_each_run, ["one word"]);
}

#[test]
fn a_hook_has_to_be_a_command() {
    assert_eq!(
        failure("suite-teardown = [['git']]\n", &[]),
        "`suite-teardown` is not a command list."
    );
    assert_eq!(
        failure("[benchmarks.x]\nteardown = [1979-05-27]\ncommand = ['x']\n", &[]),
        "`teardown` is not a command list."
    );
    let error = failure("[benchmarks.x]\nworktree-startup = ['git']\n", &[]);
    assert_eq!(
        error,
        "foil.toml benchmark `x` cannot set suite-level `worktree-startup`."
    );
}

#[test]
fn the_first_fault_is_reported() {
    assert_eq!(
        failure("bogus = 1\nother = 1\n", &[]),
        "foil.toml sets `bogus`, which is not an option."
    );
    assert_eq!(
        failure("suite-startup = [[]]\nbogus = 1\n", &[]),
        "`suite-startup` is not a command list."
    );
    assert_eq!(
        failure("[benchmarks.a]\nbogus = 1\n[benchmarks.b]\nother = 1\n", &["b"]),
        "foil.toml sets `bogus`, which is not an option."
    );
    assert_eq!(
        failure("config = 'x'\n", &[]),
        "foil.toml cannot set `config`; `--config` is command-line-only."
    );
}

#[test]
fn every_named_benchmark_runs_by_default() {
    let runs = load(SUITE, &[]).ok().unwrap();
    let names: Vec<_> = runs.iter().map(|(name, _)| name.as_deref()).collect();
    assert_eq!(names, [Some("first"), Some("second"), Some("third")]);
}

#[test]
fn a_single_benchmark_argument_selects_a_subset() {
    let runs = load(SUITE, &["first", "third"]).ok().unwrap();
    let names: Vec<_> = runs.iter().map(|(name, _)| name.as_deref()).collect();
    assert_eq!(names, [Some("first"), Some("third")]);
    let runs = load(SUITE, &["third", "first"]).ok().unwrap();
    let names: Vec<_> = runs.iter().map(|(name, _)| name.as_deref()).collect();
    assert_eq!(names, [Some("third"), Some("first")]);
}

#[test]
fn benchmarks_run_in_declaration_order() {
    let runs = load(
        "baseline = 'HEAD'\n\
        candidate = 'HEAD'\n\
        output-dir = 'bench'\n\
        repetitions = 10\n\
        draws = 1000\n\
        interval = [0.5, 0.8]\n\
        \n\
        [benchmarks.zebra]\n\
        command = ['git', '--version']\n\
        \n\
        [benchmarks.apple]\n\
        command = ['git', '--version']\n",
        &[],
    )
    .ok()
    .unwrap();
    let names: Vec<_> = runs.iter().map(|(name, _)| name.as_deref()).collect();
    assert_eq!(names, [Some("zebra"), Some("apple")]);
}

#[test]
fn no_benchmarks_make_one_run_without_a_name() {
    let runs = load(&format!("{PREAMBLE}command = ['git']\n"), &[])
        .ok()
        .unwrap();
    assert_eq!(runs.len(), 1);
    assert_eq!(runs[0].0, None);
    let configuration = Configuration::read(None).ok().unwrap();
    assert!(configuration.validate().is_ok());
    assert_eq!(configuration.runs(&Vec::new()), [None]);
    assert!(configuration.resolve(None).ok().unwrap().options.is_empty());
}

#[test]
fn a_missing_configuration_matters_only_where_it_was_named() {
    assert!(is_optional(false, true));
    assert!(!is_optional(true, true));
    assert!(!is_optional(false, false));
    assert!(!is_optional(true, false));
}

#[test]
fn selectors_are_found_after_run_options() {
    let given = arguments(&[
        "foil",
        "--output-dir",
        "bench",
        "--config",
        "other.toml",
        "--draws",
        "1000",
        "--benchmark",
        "second",
    ]);
    assert_eq!(selector_arguments(&given), [0, 3, 4, 7, 8]);
}

#[test]
fn selectors_take_their_values() {
    let chosen = |given: &[&str]| selector_arguments(&arguments(given));
    assert_eq!(chosen(&["foil"]), [0]);
    assert_eq!(
        chosen(&["foil", "--benchmark", "a", "b", "--draws", "c", "--config", "d", "e"]),
        [0, 1, 2, 3, 6, 7]
    );
    assert_eq!(chosen(&["foil", "--config=x", "y"]), [0, 1]);
    assert_eq!(chosen(&["foil", "--benchmark=x", "y"]), [0, 1, 2]);
    assert_eq!(chosen(&["foil", "--config", "--benchmark", "a"]), [0, 1, 2, 3]);
    assert_eq!(chosen(&["foil", "--", "--config", "x"]), [0]);
    assert_eq!(chosen(&["foil", "--benchmark", "--", "x"]), [0, 1]);
    assert_eq!(chosen(&["foil", "--configure", "x"]), [0]);
    let mut given = arguments(&["foil", "--benchmark", "", "--config", ""]);
    given[2] = None;
    given[4] = None;
    given.push(None);
    assert_eq!(selector_arguments(&given), [0, 1, 2, 3, 4]);
}

#[test]
fn help_is_found_before_the_command() {
    let found = |given: &[&str]| find_action(&arguments(given));
    assert_eq!(found(&["foil", "--draws", "5", "--help"]), Some(3));
    for action in ["-h", "--help", "-V", "--version"] {
        assert_eq!(found(&["foil", action]), Some(1));
    }
    assert_eq!(found(&["--help"]), None);
    assert_eq!(found(&["foil", "--", "--help"]), None);
    assert_eq!(found(&["foil", "--helper"]), None);
    assert_eq!(find_action(&vec![Some("foil".to_owned()), None]), None);
}

#[test]
fn every_benchmark_uses_the_suite_seed() {
    assert_eq!(suite_seed(Some(7)), 7);
    let drawn: Vec<_> = (0..4).map(|_| suite_seed(None)).collect();
    assert!(drawn.windows(2).any(|pair| pair[0] != pair[1]), "{drawn:?}");
    for (_, resolved) in load(SUITE, &[]).ok().unwrap() {
        assert_eq!(values(&resolved, Setting::Seed), ["0"]);
    }
}

#[test]
fn options_are_found_by_their_keys() {
    for (setting, key, repeatable, scope) in [
        (Setting::Baseline, "baseline", false, Scope::Suite),
        (Setting::Candidate, "candidate", false, Scope::Suite),
        (Setting::Seed, "seed", false, Scope::Suite),
        (Setting::Isolate, "isolate", false, Scope::Run),
        (Setting::Shrinkage, "shrinkage", false, Scope::Run),
        (Setting::OutputDir, "output-dir", false, Scope::Run),
        (Setting::Repetitions, "repetitions", false, Scope::Run),
        (Setting::BlockSize, "block-size", false, Scope::Run),
        (Setting::Draws, "draws", false, Scope::Run),
        (Setting::Timeout, "timeout", false, Scope::Run),
        (Setting::Interval, "interval", true, Scope::Run),
        (Setting::WorkingDirectory, "working-directory", false, Scope::Run),
        (Setting::Env, "env", true, Scope::Run),
        (Setting::Command, "command", true, Scope::Run),
        (Setting::Config, "config", false, Scope::Selector),
        (Setting::Benchmark, "benchmark", true, Scope::Selector),
    ] {
        assert_eq!(setting.key(), key);
        assert_eq!(Setting::find(key), Some(setting));
        assert_eq!(setting.is_repeatable(), repeatable);
        assert_eq!(setting.scope(), scope);
    }
    assert_eq!(Setting::find("help"), None);
}
