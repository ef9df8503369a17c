use foil::config::{BenchmarkLifecycle, SuiteLifecycle, WorktreeLifecycle};
use foil::execution::{Entry, Execution, Role};
use foil::hooks::{hook, invocation, place, Place};
use foil::lifecycle::{
    display_output, display_tails, failure_message, tail_window, watch, Tail, Watch, OUTPUT_LIMIT,
};
use foil::repetition::{RunOrder, Side};
use foil::suite::{suite_plan, Artifact, BenchmarkPlan, Task};

fn benchmark(isolated: bool, repetitions: usize) -> BenchmarkPlan {
    BenchmarkPlan::new(0, isolated, repetitions, 4)
}

struct Outcome {
    done: Vec<Task>,
    result: Result<(), String>,
    reported: Vec<String>,
}

/// Carries out the plan of a suite in which some tasks fail.
fn carry_out(benchmarks: &Vec<BenchmarkPlan>, fails: impl Fn(Task) -> bool) -> Outcome {
    let mut execution = Execution::new(suite_plan(benchmarks));
    let mut done = Vec::new();
    let mut reported = Vec::new();
    while let Some(task) = execution.next() {
        done.push(task);
        let outcome = if fails(task) {
            Err(task.failure().unwrap_or_else(|| format!("{task:?}")))
        } else {
            Ok(())
        };
        reported.extend(execution.answer(outcome));
    }
    Outcome {
        done,
        result: execution.outcome(),
        reported,
    }
}

fn hooks_of(done: &[Task]) -> Vec<String> {
    done.iter()
        .filter_map(|task| match task {
            Task::SuiteStartup => Some("suite-startup"),
            Task::SuiteTeardown => Some("suite-teardown"),
            Task::WorktreeStartup { .. } => Some("worktree-startup"),
            Task::WorktreeTeardown { .. } => Some("worktree-teardown"),
            Task::Startup { .. } => Some("benchmark-startup"),
            Task::Teardown { .. } => Some("benchmark-teardown"),
            Task::Measure { .. } => Some("benchmark-work"),
            _ => None,
        })
        .map(str::to_owned)
        .collect()
}

#[test]
fn lifecycle_scopes_run_in_ownership_order() {
    let outcome = carry_out(&vec![benchmark(false, 10)], |_| false);
    let mut expected = vec!["suite-startup"];
    expected.extend(["worktree-startup"; 2]);
    expected.extend(["benchmark-startup"; 2]);
    expected.extend(["benchmark-work"; 20]);
    expected.extend(["benchmark-teardown"; 2]);
    expected.extend(["worktree-teardown"; 2]);
    expected.push("suite-teardown");
    assert_eq!(hooks_of(&outcome.done), expected);
    assert_eq!(outcome.result, Ok(()));
    assert!(outcome.reported.is_empty());
}

#[test]
fn worktree_hooks_follow_shared_and_isolated_ownership() {
    for (isolated, expected) in [(false, 2), (true, 4)] {
        let outcome = carry_out(
            &vec![benchmark(isolated, 10), benchmark(isolated, 10)],
            |_| false,
        );
        let count = |name: &str| {
            hooks_of(&outcome.done)
                .iter()
                .filter(|hook| *hook == name)
                .count()
        };
        assert_eq!(count("worktree-startup"), expected);
        assert_eq!(count("worktree-teardown"), expected);
    }
}

#[test]
fn worktrees_are_shared_unless_isolation_is_requested() {
    let created = |benchmarks: Vec<BenchmarkPlan>| -> Vec<Option<usize>> {
        carry_out(&benchmarks, |_| false)
            .done
            .iter()
            .filter_map(|task| match task {
                Task::CreateWorktrees { owner } => Some(*owner),
                _ => None,
            })
            .collect()
    };
    assert_eq!(created(vec![benchmark(false, 2), benchmark(false, 2)]), [None]);
    assert_eq!(
        created(vec![benchmark(true, 2), benchmark(true, 2)]),
        [Some(0), Some(1)]
    );
    assert_eq!(
        created(vec![benchmark(true, 2), benchmark(false, 2), benchmark(false, 2)]),
        [None, Some(0)]
    );
}

#[test]
fn a_failing_benchmark_startup_stops_before_the_measured_runs() {
    let outcome = carry_out(&vec![benchmark(false, 10)], |task| {
        matches!(task, Task::Startup { .. })
    });
    assert_eq!(
        outcome.result,
        Err("The baseline startup failed.".to_owned())
    );
    assert!(outcome
        .done
        .iter()
        .any(|task| matches!(task, Task::WriteConfig { .. })));
    assert!(!outcome
        .done
        .iter()
        .any(|task| matches!(task, Task::OpenLogs { .. })));
    let hooks = hooks_of(&outcome.done);
    assert!(hooks.contains(&"benchmark-teardown".to_owned()));
    assert!(!hooks.contains(&"benchmark-work".to_owned()));
}

#[test]
fn candidate_startup_does_not_run_when_baseline_startup_fails() {
    let outcome = carry_out(&vec![benchmark(false, 10)], |task| {
        matches!(task, Task::Startup { side: Side::Baseline, .. })
    });
    assert_eq!(
        outcome.result,
        Err("The baseline startup failed.".to_owned())
    );
    assert!(!outcome.done.contains(&Task::Startup {
        benchmark: 0,
        side: Side::Candidate
    }));
}

#[test]
fn candidate_teardown_runs_after_baseline_teardown_fails() {
    let outcome = carry_out(&vec![benchmark(false, 10)], |task| {
        matches!(task, Task::Teardown { side: Side::Baseline, .. })
    });
    assert_eq!(
        outcome.result,
        Err("The baseline teardown failed.".to_owned())
    );
    assert!(outcome.done.contains(&Task::Teardown {
        benchmark: 0,
        side: Side::Candidate
    }));
    assert!(!outcome.done.contains(&Task::Analyze { benchmark: 0 }));
}

#[test]
fn teardown_runs_after_the_measured_runs() {
    let outcome = carry_out(&vec![benchmark(false, 10)], |task| {
        matches!(task, Task::Teardown { .. })
    });
    assert_eq!(
        outcome.result,
        Err("The baseline teardown failed.".to_owned())
    );
    assert_eq!(outcome.reported, ["The candidate teardown failed."]);
    let measured = |task: &&Task| matches!(task, Task::Measure { .. });
    assert_eq!(outcome.done.iter().filter(measured).count(), 20);
    let recorded = |task: &&Task| matches!(task, Task::Record { .. });
    assert_eq!(outcome.done.iter().filter(recorded).count(), 10);
}

#[test]
fn teardown_still_runs_when_a_benchmark_fails() {
    let outcome = carry_out(&vec![benchmark(false, 10)], |task| {
        matches!(task, Task::Measure { .. })
    });
    assert!(outcome.result.unwrap_err().contains("Measure"));
    assert!(hooks_of(&outcome.done).contains(&"benchmark-teardown".to_owned()));
}

#[test]
fn a_teardown_failure_is_reported_alongside_a_benchmark_failure() {
    let outcome = carry_out(&vec![benchmark(false, 10)], |task| {
        matches!(task, Task::Measure { .. } | Task::Teardown { .. })
    });
    assert!(outcome.result.unwrap_err().contains("Measure"));
    assert_eq!(
        outcome.reported,
        [
            "The candidate teardown failed.",
            "The baseline teardown failed."
        ]
    );
}

#[test]
fn worktree_teardown_runs_after_benchmark_failure() {
    let outcome = carry_out(&vec![benchmark(false, 10)], |task| {
        matches!(task, Task::Measure { .. })
    });
    let teardowns = hooks_of(&outcome.done)
        .into_iter()
        .filter(|hook| hook == "worktree-teardown")
        .count();
    assert_eq!(teardowns, 2);
}

#[test]
fn each_run_teardowns_run_after_a_failed_benchmark() {
    let outcome = carry_out(&vec![benchmark(false, 10)], |task| {
        matches!(task, Task::Measure { .. })
    });
    let first = outcome
        .done
        .iter()
        .position(|task| matches!(task, Task::Measure { .. }))
        .unwrap();
    assert!(matches!(outcome.done[first + 1], Task::TeardownEachRun { .. }));
    assert!(matches!(
        outcome.done[first + 2],
        Task::SuiteTeardownEachRun { .. }
    ));
}

#[test]
fn suite_and_benchmark_each_run_startups_compose() {
    let outcome = carry_out(&vec![benchmark(false, 10)], |_| false);
    let first = outcome
        .done
        .iter()
        .position(|task| matches!(task, Task::Measure { .. }))
        .unwrap();
    assert!(matches!(
        outcome.done[first - 3],
        Task::SuiteStartupEachRun { .. }
    ));
    assert!(matches!(outcome.done[first - 2], Task::StartupEachRun { .. }));
    assert!(matches!(outcome.done[first - 1], Task::CheckInterrupt));
}

#[test]
fn a_failed_suite_hook_of_a_run_leaves_the_benchmarks_hooks_alone() {
    let outcome = carry_out(&vec![benchmark(false, 10)], |task| {
        matches!(task, Task::SuiteStartupEachRun { .. })
    });
    assert!(!outcome
        .done
        .iter()
        .any(|task| matches!(task, Task::StartupEachRun { .. } | Task::TeardownEachRun { .. })));
    assert!(outcome
        .done
        .iter()
        .any(|task| matches!(task, Task::SuiteTeardownEachRun { .. })));
}

#[test]
fn an_empty_benchmark_lifecycle_does_not_clear_the_suite_lifecycle() {
    let outcome = carry_out(&vec![benchmark(false, 10)], |task| task == Task::SuiteStartup);
    assert_eq!(outcome.result, Err("The suite startup failed.".to_owned()));
    assert!(outcome.done.contains(&Task::WriteConfig { benchmark: 0 }));
    assert!(outcome.done.contains(&Task::SuiteTeardown));
    assert!(outcome.done.contains(&Task::CloseSession));
    assert!(!outcome.done.contains(&Task::InspectWorkingTree));
}

#[test]
fn stale_outputs_are_removed_for_every_selected_benchmark() {
    let outcome = carry_out(&vec![benchmark(false, 10), benchmark(true, 10)], |task| {
        matches!(task, Task::Startup { .. } | Task::RemoveOutput { benchmark: 0, .. })
    });
    for benchmark in 0..2 {
        for artifact in [
            Artifact::Config,
            Artifact::Log,
            Artifact::Measurements,
            Artifact::Posterior,
            Artifact::Report,
        ] {
            assert!(outcome.done.contains(&Task::RemoveOutput {
                benchmark,
                artifact
            }));
        }
    }
    assert_eq!(outcome.done.len(), 10);
    assert_eq!(outcome.reported.len(), 4);
    assert_eq!(
        [
            Artifact::Config.name(),
            Artifact::Log.name(),
            Artifact::Measurements.name(),
            Artifact::Posterior.name(),
            Artifact::Report.name()
        ],
        [
            "config.json",
            "benchmark.log",
            "measurements.csv",
            "posterior.csv",
            "report.txt"
        ]
    );
}

#[test]
fn a_generated_output_that_cannot_be_removed_is_fatal() {
    let stuck = Task::RemoveOutput {
        benchmark: 0,
        artifact: Artifact::Posterior,
    };
    let outcome = carry_out(&vec![benchmark(false, 10)], |task| task == stuck);
    assert_eq!(outcome.result, Err(format!("{stuck:?}")));
    assert!(outcome.done.contains(&Task::RemoveOutput {
        benchmark: 0,
        artifact: Artifact::Report
    }));
    assert_eq!(outcome.done.len(), 5);
}

#[test]
fn an_interrupted_suite_ends_with_its_teardown() {
    let outcome = carry_out(&vec![benchmark(false, 10)], |task| task == Task::CheckInterrupt);
    assert_eq!(outcome.result, Err("CheckInterrupt".to_owned()));
    let end = outcome.done.len();
    assert_eq!(outcome.done[end - 2..], [Task::SuiteTeardown, Task::CloseSession]);
    assert!(outcome
        .done
        .contains(&Task::RemoveWorktrees { owner: None }));
}

#[test]
fn a_session_that_did_not_open_is_not_closed() {
    let outcome = carry_out(&vec![benchmark(false, 10)], |task| task == Task::OpenSession);
    assert_eq!(outcome.done.last(), Some(&Task::OpenSession));
}

#[test]
fn worktrees_that_were_not_created_are_not_removed() {
    let outcome = carry_out(&vec![benchmark(true, 10)], |task| {
        matches!(task, Task::CreateWorktrees { .. })
    });
    assert!(!outcome.done.iter().any(|task| matches!(
        task,
        Task::RemoveWorktrees { .. } | Task::WorktreeTeardown { .. }
    )));
    assert!(outcome.done.contains(&Task::SuiteTeardown));
}

#[test]
fn both_sides_of_each_repetition_run_in_its_order() {
    let orders = vec![RunOrder::CandidateFirst, RunOrder::BaselineFirst];
    let outcome = carry_out(
        &vec![BenchmarkPlan {
            isolated: false,
            orders,
        }],
        |_| false,
    );
    let sides: Vec<_> = outcome
        .done
        .iter()
        .filter_map(|task| match task {
            Task::Measure {
                repetition, side, ..
            } => Some((*repetition, *side)),
            _ => None,
        })
        .collect();
    assert_eq!(
        sides,
        [
            (0, Side::Candidate),
            (0, Side::Baseline),
            (1, Side::Baseline),
            (1, Side::Candidate)
        ]
    );
}

#[test]
fn an_execution_keeps_its_first_failure() {
    let plan = vec![
        Entry {
            task: 0,
            role: Role::Work,
        },
        Entry {
            task: 1,
            role: Role::Work,
        },
        Entry {
            task: 2,
            role: Role::Cleanup {
                opened: 2,
                held: false,
            },
        },
        Entry {
            task: 3,
            role: Role::Cleanup {
                opened: 1,
                held: true,
            },
        },
        Entry {
            task: 4,
            role: Role::Cleanup {
                opened: 1,
                held: false,
            },
        },
        Entry {
            task: 5,
            role: Role::Work,
        },
    ];
    let run = |failing: &[i32]| {
        let mut execution = Execution::new(plan.clone());
        let mut done = Vec::new();
        let mut reported = Vec::new();
        while let Some(task) = execution.next() {
            done.push(task);
            reported.extend(execution.answer(if failing.contains(&task) {
                Err(task)
            } else {
                Ok(())
            }));
        }
        (done, execution.outcome(), reported)
    };
    assert_eq!(run(&[]), (vec![0, 1, 2, 3, 4, 5], Ok(()), vec![]));
    assert_eq!(run(&[0]), (vec![0], Err(0), vec![]));
    assert_eq!(run(&[1]), (vec![0, 1, 3, 4], Err(1), vec![]));
    assert_eq!(run(&[2]), (vec![0, 1, 2, 3, 4], Err(2), vec![]));
    assert_eq!(run(&[3, 4]), (vec![0, 1, 2, 3, 4], Err(3), vec![4]));
    assert_eq!(run(&[1, 3, 4]), (vec![0, 1, 3, 4], Err(1), vec![4, 3]));
    assert_eq!(run(&[3]), (vec![0, 1, 2, 3, 4], Err(3), vec![]));
}

fn words(list: &[&str]) -> Vec<String> {
    list.iter().map(|word| word.to_string()).collect()
}

#[test]
fn hooks_run_where_they_belong() {
    let suite = SuiteLifecycle {
        startup: words(&["a", "b"]),
        startup_each_run: words(&["c"]),
        teardown_each_run: words(&[]),
        teardown: words(&["d"]),
    };
    let worktree = WorktreeLifecycle {
        startup: words(&["e"]),
        teardown: words(&["f"]),
    };
    let own = BenchmarkLifecycle {
        startup: words(&["g"]),
        startup_each_run: words(&["h"]),
        teardown_each_run: words(&["i"]),
        teardown: words(&["j", "k"]),
    };
    let benchmarks = vec![own];
    let program = |task| hook(task, &suite, &worktree, &benchmarks).map(|made| made.program);
    let side = Side::Candidate;
    let (benchmark_number, repetition) = (0, 3);
    assert_eq!(program(Task::SuiteStartup).as_deref(), Some("a"));
    assert_eq!(program(Task::SuiteTeardown).as_deref(), Some("d"));
    assert_eq!(
        program(Task::WorktreeStartup { owner: None, side }).as_deref(),
        Some("e")
    );
    assert_eq!(
        program(Task::WorktreeTeardown { owner: None, side }).as_deref(),
        Some("f")
    );
    assert_eq!(
        program(Task::SuiteTeardownEachRun {
            benchmark: benchmark_number,
            repetition,
            side
        }),
        None
    );
    assert_eq!(
        program(Task::StartupEachRun {
            benchmark: benchmark_number,
            repetition,
            side
        })
        .as_deref(),
        Some("h")
    );
    assert_eq!(program(Task::CheckInterrupt), None);
    let plans = vec![benchmark(true, 2)];
    assert_eq!(place(Task::SuiteStartup, &plans), Some(Place::Checkout));
    assert_eq!(
        place(
            Task::Measure {
                benchmark: 0,
                repetition,
                side
            },
            &plans
        ),
        Some(Place::Worktree {
            owner: Some(0),
            side,
            benchmark: Some(0)
        })
    );
    assert_eq!(
        place(
            Task::SuiteStartupEachRun {
                benchmark: 0,
                repetition,
                side
            },
            &vec![benchmark(false, 2)]
        ),
        Some(Place::Worktree {
            owner: None,
            side,
            benchmark: None
        })
    );
    assert_eq!(place(Task::CloseSession, &plans), None);
    let made = invocation(&words(&["x", "y", "z"])).unwrap();
    assert_eq!((made.program.as_str(), made.arguments), ("x", words(&["y", "z"])));
    assert!(invocation(&Vec::new()).is_none());
}

#[test]
fn benchmark_startup_runs_in_each_worktree_before_the_measured_runs() {
    let none = || Vec::new();
    let suite = SuiteLifecycle {
        startup: none(),
        startup_each_run: none(),
        teardown_each_run: none(),
        teardown: none(),
    };
    let worktree = WorktreeLifecycle {
        startup: none(),
        teardown: none(),
    };
    let own = vec![BenchmarkLifecycle {
        startup: words(&["git", "config", "--file", "marker.txt", "startup.ran", "yes"]),
        startup_each_run: none(),
        teardown_each_run: none(),
        teardown: none(),
    }];
    for isolated in [false, true] {
        let plans = vec![benchmark(isolated, 10)];
        let outcome = carry_out(&plans, |_| false);
        assert_eq!(outcome.result, Ok(()));
        let mut started = Vec::new();
        let mut measured = 0;
        for &task in &outcome.done {
            if let Some(made) = hook(task, &suite, &worktree, &own) {
                assert_eq!(made.program, "git");
                assert_eq!(made.arguments[0], "config");
                assert_eq!(measured, 0, "{task:?} came after a measured run");
                started.push(place(task, &plans));
            } else if matches!(task, Task::Measure { .. }) {
                assert!(started.contains(&place(task, &plans)), "{task:?}");
                measured += 1;
            }
        }
        let owner = if isolated { Some(0) } else { None };
        let expected: Vec<_> = [Side::Baseline, Side::Candidate]
            .into_iter()
            .map(|side| {
                Some(Place::Worktree {
                    owner,
                    side,
                    benchmark: Some(0),
                })
            })
            .collect();
        assert_eq!(started, expected);
        assert_eq!(measured, 20);
    }
}

#[test]
fn a_teardown_hook_runs_where_the_startup_hook_of_its_side_ran() {
    let plans = vec![benchmark(true, 2)];
    for side in [Side::Baseline, Side::Candidate] {
        let (benchmark, repetition, owner) = (0, 1, Some(0));
        for (startup, teardown) in [
            (
                Task::Startup { benchmark, side },
                Task::Teardown { benchmark, side },
            ),
            (
                Task::WorktreeStartup { owner, side },
                Task::WorktreeTeardown { owner, side },
            ),
            (
                Task::StartupEachRun {
                    benchmark,
                    repetition,
                    side,
                },
                Task::TeardownEachRun {
                    benchmark,
                    repetition,
                    side,
                },
            ),
        ] {
            assert!(place(startup, &plans).is_some());
            assert_eq!(place(startup, &plans), place(teardown, &plans));
        }
    }
}

#[test]
fn only_teardown_hooks_are_protected() {
    let side = Side::Baseline;
    assert!(Task::SuiteTeardown.is_protected());
    assert!(Task::WorktreeTeardown { owner: None, side }.is_protected());
    assert!(Task::Teardown { benchmark: 0, side }.is_protected());
    assert!(!Task::SuiteStartup.is_protected());
    assert!(!Task::Measure {
        benchmark: 0,
        repetition: 0,
        side
    }
    .is_protected());
    assert!(!Task::CloseSession.is_protected());
}

#[test]
fn failing_hooks_are_named() {
    let side = Side::Candidate;
    let (benchmark, repetition, owner) = (0, 0, None);
    for (task, text) in [
        (Task::SuiteStartup, "The suite startup failed."),
        (Task::SuiteTeardown, "The suite teardown failed."),
        (
            Task::WorktreeStartup { owner, side },
            "The candidate worktree startup failed.",
        ),
        (
            Task::WorktreeTeardown { owner, side },
            "The candidate worktree teardown failed.",
        ),
        (Task::Startup { benchmark, side }, "The candidate startup failed."),
        (
            Task::Teardown { benchmark, side },
            "The candidate teardown failed.",
        ),
        (
            Task::StartupEachRun {
                benchmark,
                repetition,
                side,
            },
            "The candidate benchmark startup-each-run failed.",
        ),
        (
            Task::TeardownEachRun {
                benchmark,
                repetition,
                side,
            },
            "The candidate benchmark teardown-each-run failed.",
        ),
        (
            Task::SuiteStartupEachRun {
                benchmark,
                repetition,
                side,
            },
            "The candidate suite startup-each-run failed.",
        ),
        (
            Task::SuiteTeardownEachRun {
                benchmark,
                repetition,
                side,
            },
            "The candidate suite teardown-each-run failed.",
        ),
    ] {
        assert_eq!(task.failure().as_deref(), Some(text));
    }
    assert_eq!(Task::OpenSession.failure(), None);
}

#[test]
fn tails_keep_only_the_last_output_limit_bytes() {
    assert_eq!(OUTPUT_LIMIT, 64 * 1024);
    assert_eq!(tail_window(OUTPUT_LIMIT), (0, false));
    assert_eq!(tail_window(OUTPUT_LIMIT + 1), (1, true));
    assert_eq!(tail_window(0), (0, false));
    assert_eq!(tail_window(3 * OUTPUT_LIMIT), (2 * OUTPUT_LIMIT, true));
}

#[test]
fn a_failing_command_reports_output_from_both_streams() {
    let stdout = Tail {
        bytes: b"OUT-LINE\n".to_vec(),
        dropped: false,
    };
    let stderr = Tail {
        bytes: b"ERR-LINE\n".to_vec(),
        dropped: false,
    };
    let tails = display_tails("probe", &stdout, &stderr);
    let text =
        failure_message(Watch::Failed, "\"sh\"", "exit code: 7", "", &tails).unwrap();
    assert!(text.contains("failed with exit code: 7"), "{text}");
    assert!(text.contains("[probe stdout]\nOUT-LINE"), "{text}");
    assert!(text.contains("[probe stderr]\nERR-LINE"), "{text}");
    assert_eq!(
        text,
        "\"sh\" failed with exit code: 7.\n[probe stdout]\nOUT-LINE\n[probe stderr]\nERR-LINE"
    );
}

#[test]
fn streams_are_shown_where_they_hold_something() {
    let nothing = Tail {
        bytes: Vec::new(),
        dropped: false,
    };
    let cut = Tail {
        bytes: vec![b'x', 0xff, b' ', b'\n'],
        dropped: true,
    };
    assert_eq!(display_tails("p", &nothing, &nothing), "");
    assert_eq!(
        display_tails("p", &nothing, &cut),
        "\n[p stderr]\nx\u{fffd}\n[...truncated...]"
    );
    assert_eq!(
        display_output("p", &b"one\r\n".to_vec(), &Vec::new()),
        "\n[p stdout]\none"
    );
}

#[test]
fn a_watched_command_ends_in_one_way() {
    assert_eq!(watch(Some(true), true, true), Watch::Succeeded);
    assert_eq!(watch(Some(false), true, true), Watch::Failed);
    assert_eq!(watch(None, true, true), Watch::Interrupted);
    assert_eq!(watch(None, false, true), Watch::TimedOut);
    assert_eq!(watch(None, false, false), Watch::Running);
    assert_eq!(
        failure_message(Watch::TimedOut, "\"x\"", "", "200ms", "").as_deref(),
        Some("\"x\" timed out after 200ms.")
    );
    assert_eq!(
        failure_message(Watch::Interrupted, "\"x\"", "", "", "").as_deref(),
        Some("Interrupted.")
    );
    assert_eq!(failure_message(Watch::Succeeded, "", "", "", ""), None);
}
