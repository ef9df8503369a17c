use foil::command_line::command_line;
use foil::executable::{
    batch_rejected, child_path, embedded_nul, executable_forms, kind, not_found, not_on_path,
    resolve_application, resolve_bare, resolve_explicit, search_order, Bare, Explicit, Form, Kind,
    Part, Probe, Program, Script,
};
use foil::platform::{handle_outcome, milliseconds, HandleWait};
use foil::windows::{environment_block, Variable};

fn units(text: &str) -> Vec<u16> {
    text.encode_utf16().collect()
}

fn line(arguments: &[&str]) -> String {
    let given = arguments.iter().map(|argument| units(argument)).collect();
    let mut made = command_line(&given);
    assert_eq!(made.pop(), Some(0));
    String::from_utf16(&made).unwrap()
}

/// Splits a command line by the rules of the C runtime.
fn split(line: &str) -> Vec<String> {
    let mut arguments = Vec::new();
    let mut current = String::new();
    let (mut begun, mut open, mut slashes) = (false, false, 0);
    for character in line.chars() {
        match character {
            '\\' => {
                slashes += 1;
                begun = true;
                continue;
            }
            '"' => {
                current.push_str(&"\\".repeat(slashes / 2));
                if slashes % 2 == 1 {
                    current.push('"');
                } else {
                    open = !open;
                }
                begun = true;
            }
            ' ' | '\t' if !open => {
                current.push_str(&"\\".repeat(slashes));
                if begun {
                    arguments.push(std::mem::take(&mut current));
                    begun = false;
                }
            }
            other => {
                current.push_str(&"\\".repeat(slashes));
                current.push(other);
                begun = true;
            }
        }
        slashes = 0;
    }
    current.push_str(&"\\".repeat(slashes));
    if begun {
        arguments.push(current);
    }
    arguments
}

#[test]
fn arguments_are_quoted_where_they_have_to_be() {
    assert_eq!(line(&["git", "--version"]), "git --version");
    assert_eq!(line(&["a b"]), "\"a b\"");
    assert_eq!(line(&["", ""]), "\"\" \"\"");
    assert_eq!(line(&["a\tb", "c\\"]), "\"a\tb\" c\\");
    assert_eq!(line(&["say \"hi\""]), "\"say \\\"hi\\\"\"");
    assert_eq!(line(&["a\\\"b"]), "\"a\\\\\\\"b\"");
    assert_eq!(line(&["a b\\"]), "\"a b\\\\\"");
    assert_eq!(line(&["C:\\x\\y", "\\\\host"]), "C:\\x\\y \\\\host");
}

#[test]
fn a_process_reads_the_arguments_that_it_was_given() {
    let cases: [&[&str]; 8] = [
        &["git"],
        &["", "", "x"],
        &["a b", "c\td", "\"", "\\", "\\\\", "\\\"", "\"\\"],
        &["x\\ y", "x\\\\ y\\\\", "\\\\\\\"\\\\\\"],
        &["C:\\Program Files\\x.exe", "--flag=\"a b\"", "tail\\"],
        &[" ", "\t", "  x  "],
        &["ünï", "line\nbreak"],
        &["a\"b\"c", "\"\"", "\"a\" \"b\""],
    ];
    for arguments in cases {
        assert_eq!(split(&line(arguments)), arguments);
    }
}

fn variable(name: &str, value: &str, rank: usize) -> Variable {
    Variable {
        name: units(name),
        value: units(value),
        rank,
    }
}

fn block(existing: &[Variable], overrides: &[Variable]) -> Option<String> {
    environment_block(&existing.to_vec(), &overrides.to_vec())
        .map(|made| String::from_utf16(&made).unwrap())
}

#[test]
fn an_environment_without_overrides_is_inherited() {
    assert_eq!(block(&[variable("A", "1", 0)], &[]), None);
}

#[test]
fn overrides_replace_variables_and_keep_them_sorted() {
    let existing = [
        variable("Path", "old", 2),
        variable("A", "1", 0),
        variable("Z", "9", 3),
    ];
    assert_eq!(
        block(&existing, &[variable("PATH", "new", 2), variable("B", "2", 1)]).as_deref(),
        Some("A=1\0B=2\0PATH=new\0Z=9\0\0")
    );
    assert_eq!(
        block(&existing, &[variable("B", "2", 1), variable("b", "3", 1)]).as_deref(),
        Some("A=1\0b=3\0Path=old\0Z=9\0\0")
    );
    assert_eq!(
        block(&[], &[variable("X", "", 0)]).as_deref(),
        Some("X=\0\0")
    );
}

fn probe(executable: Kind, literal: Kind, bat: bool, cmd: bool) -> Probe {
    Probe {
        executable,
        literal,
        bat,
        cmd,
    }
}

#[test]
fn files_are_told_apart_by_their_extension() {
    assert_eq!(kind(false, Some("exe")), Kind::Missing);
    assert_eq!(kind(true, Some("exe")), Kind::Binary);
    assert_eq!(kind(true, None), Kind::Binary);
    assert_eq!(kind(true, Some("BAT")), Kind::Batch);
    assert_eq!(kind(true, Some("cmd")), Kind::Batch);
    assert_eq!(kind(true, Some("cmdx")), Kind::Binary);
    assert_eq!(
        executable_forms(false),
        [Form::Executable, Form::Literal]
    );
    assert_eq!(executable_forms(true), [Form::Literal]);
}

#[test]
fn an_explicit_path_prefers_the_completed_name() {
    let (binary, batch, missing) = (Kind::Binary, Kind::Batch, Kind::Missing);
    assert_eq!(
        resolve_explicit(false, probe(binary, binary, false, false)),
        Explicit::Run(Form::Executable)
    );
    assert_eq!(
        resolve_explicit(false, probe(missing, binary, false, false)),
        Explicit::Run(Form::Literal)
    );
    assert_eq!(
        resolve_explicit(false, probe(batch, binary, false, false)),
        Explicit::Batch(Form::Executable)
    );
    assert_eq!(
        resolve_explicit(true, probe(binary, batch, false, false)),
        Explicit::Batch(Form::Literal)
    );
    assert_eq!(
        resolve_explicit(true, probe(binary, missing, false, false)),
        Explicit::Missing
    );
}

#[test]
fn windows_uses_the_child_path() {
    let names = ["X", "Path", "Y", "PATH", "Z"];
    let names = names.iter().map(|name| name.to_string()).collect();
    assert_eq!(child_path(&names), Some(3));
    assert_eq!(child_path(&vec!["PATHS".to_owned()]), None);
    assert_eq!(
        search_order(vec!["child"], Some("own"), Some(("system", "root")), vec!["p", "q"]),
        ["child", "own", "system", "root", "p", "q"]
    );
    assert_eq!(search_order(vec![1], None, None, vec![2]), [1, 2]);
    let none = probe(Kind::Missing, Kind::Missing, false, false);
    let found = probe(Kind::Binary, Kind::Missing, false, false);
    assert_eq!(
        resolve_bare(false, &vec![none, found, found]),
        Bare::Run {
            directory: 1,
            form: Form::Executable
        }
    );
}

#[test]
fn windows_rejects_batch_files() {
    let none = probe(Kind::Missing, Kind::Missing, false, false);
    let bat = probe(Kind::Missing, Kind::Missing, true, true);
    let cmd = probe(Kind::Missing, Kind::Batch, false, true);
    let found = probe(Kind::Missing, Kind::Binary, false, false);
    assert_eq!(
        resolve_bare(false, &vec![none, cmd, bat]),
        Bare::Batch {
            directory: 1,
            script: Script::Cmd
        }
    );
    assert_eq!(
        resolve_bare(false, &vec![bat, cmd]),
        Bare::Batch {
            directory: 0,
            script: Script::Bat
        }
    );
    assert_eq!(
        resolve_bare(true, &vec![bat, cmd, found]),
        Bare::Run {
            directory: 2,
            form: Form::Literal
        }
    );
    assert_eq!(resolve_bare(true, &vec![none]), Bare::Missing);
    let text = batch_rejected("script.cmd");
    assert!(text.starts_with("`script.cmd` is a batch file; "), "{text}");
    assert!(text.ends_with("e.g. `-- cmd /c script.cmd ...`."), "{text}");
}

#[test]
fn programs_that_are_not_found_are_named() {
    assert_eq!(
        not_found("x", &vec!["C:\\x.exe".to_owned(), "C:\\x".to_owned()]),
        "Could not find the benchmark program `x`. Tried: `C:\\x.exe`, `C:\\x`."
    );
    assert_eq!(
        not_on_path("x"),
        "Could not find the benchmark program `x` on the search path."
    );
    assert_eq!(resolve_application(false, 3, true), Program::Unnamed);
    assert_eq!(
        resolve_application(true, 2, true),
        Program::Explicit { absolute: true }
    );
    assert_eq!(resolve_application(true, 1, false), Program::Bare);
}

#[test]
fn embedded_zeros_are_found_in_order() {
    let clean = units("x");
    let bad = vec![1, 0];
    let environment = |key: &Vec<u16>, value: &Vec<u16>| vec![(key.clone(), value.clone())];
    assert_eq!(
        embedded_nul(&clean, &vec![clean.clone()], &clean, &environment(&clean, &clean)),
        None
    );
    assert_eq!(
        embedded_nul(&bad, &vec![bad.clone()], &clean, &Vec::new()),
        Some(Part::Program)
    );
    assert_eq!(
        embedded_nul(&clean, &vec![clean.clone(), bad.clone()], &bad, &Vec::new()),
        Some(Part::Argument)
    );
    assert_eq!(
        embedded_nul(&clean, &Vec::new(), &bad, &environment(&bad, &bad)),
        Some(Part::WorkingDirectory)
    );
    assert_eq!(
        embedded_nul(&clean, &Vec::new(), &clean, &environment(&bad, &bad)),
        Some(Part::EnvironmentKey)
    );
    assert_eq!(
        embedded_nul(&clean, &Vec::new(), &clean, &environment(&clean, &bad)),
        Some(Part::EnvironmentValue)
    );
    assert_eq!(
        Part::EnvironmentKey.message(),
        "environment key contains an embedded NUL"
    );
    assert_eq!(Part::Program.message(), "program contains an embedded NUL");
    assert_eq!(Part::Argument.message(), "argument contains an embedded NUL");
    assert_eq!(
        Part::WorkingDirectory.message(),
        "working directory contains an embedded NUL"
    );
    assert_eq!(
        Part::EnvironmentValue.message(),
        "environment value contains an embedded NUL"
    );
}

#[test]
fn waits_are_rounded_up_to_milliseconds() {
    assert_eq!(milliseconds(None), u32::MAX);
    assert_eq!(milliseconds(Some(0)), 0);
    assert_eq!(milliseconds(Some(1)), 1);
    assert_eq!(milliseconds(Some(1_000_000)), 1);
    assert_eq!(milliseconds(Some(1_000_001)), 2);
    assert_eq!(milliseconds(Some(u128::MAX)), u32::MAX - 1);
    assert_eq!(
        milliseconds(Some(4_294_967_294 * 1_000_000)),
        u32::MAX - 1
    );
    assert_eq!(
        milliseconds(Some(4_294_967_293 * 1_000_000)),
        u32::MAX - 2
    );
}

#[test]
fn handle_waits_are_told_apart() {
    assert_eq!(handle_outcome(0, true), HandleWait::Exited);
    assert_eq!(handle_outcome(1, true), HandleWait::Interrupted);
    assert_eq!(handle_outcome(258, true), HandleWait::TimedOut);
    assert_eq!(handle_outcome(258, false), HandleWait::Again);
    assert_eq!(handle_outcome(u32::MAX, false), HandleWait::Failed);
    assert_eq!(handle_outcome(128, false), HandleWait::Unexpected);
}
