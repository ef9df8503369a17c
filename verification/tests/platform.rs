use foil::platform::{
    combine_cleanup, combine_errors, current_cgroup, group_end, is_emptied, is_group_gone,
    is_terminated, on_interrupt, populated, ready, session_name, Events, EventsError, GroupEnd,
    GroupKill, InterruptAction, Problem, Ready, Wait, WaitStep, Waiting, INTERRUPTED_STATUS,
};

fn problem(kind: u8, text: &str) -> Result<(), Problem<u8>> {
    Err(Problem {
        kind,
        text: text.to_owned(),
    })
}

fn shown(result: Result<(), Problem<u8>>) -> Option<(u8, String)> {
    result.err().map(|problem| (problem.kind, problem.text))
}

#[test]
fn direct_exit_wins_and_consumes_a_pending_interrupt() {
    assert_eq!(
        ready(true, true),
        Ready {
            drain: true,
            outcome: Some(Wait::Exited)
        }
    );
    let mut waiting = Waiting::new(false);
    waiting.answer(Events::Found {
        count: 2,
        exited: true,
        interrupted: true,
    });
    assert_eq!(
        waiting.step(),
        WaitStep::End {
            drain: true,
            wait: Wait::Exited
        }
    );
    let mut next = Waiting::new(false);
    next.answer(Events::Found {
        count: 0,
        exited: false,
        interrupted: false,
    });
    assert_eq!(
        next.step(),
        WaitStep::End {
            drain: false,
            wait: Wait::TimedOut
        }
    );
}

#[test]
fn esrch_exit_consumes_a_pending_interrupt() {
    let mut waiting = Waiting::new(true);
    assert_eq!(waiting.step(), WaitStep::Register);
    waiting.answer(Events::Signal);
    assert_eq!(waiting.step(), WaitStep::Register);
    waiting.answer(Events::NoProcess);
    assert_eq!(
        waiting.step(),
        WaitStep::End {
            drain: true,
            wait: Wait::Exited
        }
    );
}

#[test]
fn a_wait_goes_on_until_something_happens() {
    let mut waiting = Waiting::new(true);
    waiting.answer(Events::Found {
        count: 0,
        exited: false,
        interrupted: false,
    });
    assert_eq!(waiting.step(), WaitStep::Poll);
    waiting.answer(Events::Signal);
    waiting.answer(Events::Found {
        count: 1,
        exited: false,
        interrupted: false,
    });
    assert_eq!(waiting.step(), WaitStep::Poll);
    waiting.answer(Events::Found {
        count: 1,
        exited: false,
        interrupted: true,
    });
    assert_eq!(
        waiting.step(),
        WaitStep::End {
            drain: true,
            wait: Wait::Interrupted
        }
    );
    let mut failing = Waiting::new(false);
    failing.answer(Events::NoProcess);
    assert_eq!(failing.step(), WaitStep::Fail);
    let mut failing = Waiting::new(true);
    failing.answer(Events::Failed);
    assert_eq!(failing.step(), WaitStep::Fail);
}

#[test]
fn an_interrupt_does_not_poison_later_workloads() {
    assert_eq!(
        ready(false, true),
        Ready {
            drain: true,
            outcome: Some(Wait::Interrupted)
        }
    );
    assert_eq!(
        ready(true, false),
        Ready {
            drain: false,
            outcome: Some(Wait::Exited)
        }
    );
    assert_eq!(
        ready(false, false),
        Ready {
            drain: false,
            outcome: None
        }
    );
}

#[test]
fn shutdown_failures_are_returned() {
    assert_eq!(shown(combine_errors(Ok(()), Ok(()))), None);
    assert_eq!(
        shown(combine_errors(problem(1, "a"), Ok(()))),
        Some((1, "a".to_owned()))
    );
    assert_eq!(
        shown(combine_errors(Ok(()), problem(2, "b"))),
        Some((2, "b".to_owned()))
    );
    assert_eq!(
        shown(combine_errors(problem(1, "a"), problem(2, "b"))),
        Some((1, "a; additionally: b".to_owned()))
    );
}

#[test]
fn every_step_of_a_cleanup_counts() {
    assert_eq!(shown(combine_cleanup(Ok(()), None, Ok(()))), None);
    assert_eq!(
        shown(combine_cleanup(
            problem(1, "kill"),
            Some(problem(2, "fallback")),
            problem(3, "wait")
        )),
        Some((
            1,
            "kill; additionally: fallback; additionally: wait".to_owned()
        ))
    );
    assert_eq!(
        shown(combine_cleanup(problem(1, "kill"), Some(Ok(())), Ok(()))),
        Some((1, "kill".to_owned()))
    );
    assert_eq!(
        shown(combine_cleanup(Ok(()), None, problem(3, "wait"))),
        Some((3, "wait".to_owned()))
    );
}

#[test]
fn only_a_process_that_is_sure_to_end_is_waited_for() {
    assert!(is_terminated(true, None));
    assert!(is_terminated(false, Some(true)));
    assert!(!is_terminated(false, Some(false)));
    assert!(!is_terminated(false, None));
}

#[test]
fn fast_natural_exits_do_not_fail_group_cleanup() {
    assert_eq!(
        group_end(GroupKill::NoSuchGroup, true),
        GroupEnd::Exited { kill_again: false }
    );
    assert_eq!(
        group_end(GroupKill::NotPermitted, true),
        GroupEnd::Exited { kill_again: true }
    );
    assert_eq!(
        group_end(GroupKill::NoSuchGroup, false),
        GroupEnd::Disappeared
    );
    assert_eq!(group_end(GroupKill::NotPermitted, false), GroupEnd::Failed);
    assert_eq!(group_end(GroupKill::Killed, true), GroupEnd::Killed);
    assert_eq!(group_end(GroupKill::Failed, true), GroupEnd::Failed);
    assert!(is_group_gone(GroupKill::NoSuchGroup));
    assert!(is_group_gone(GroupKill::Killed));
    assert!(!is_group_gone(GroupKill::NotPermitted));
}

#[test]
fn the_events_of_a_control_group_are_read() {
    assert_eq!(populated("populated 0\nfrozen 0\n"), Ok(false));
    assert_eq!(populated("frozen 0\npopulated 1\n"), Ok(true));
    assert_eq!(populated("populated 1\npopulated 0\n"), Ok(true));
    assert_eq!(populated("frozen 0\n"), Err(EventsError::NoField));
    assert_eq!(populated("populated 2\n"), Err(EventsError::InvalidField));
    assert_eq!(populated("populated  0\n"), Err(EventsError::InvalidField));
    assert_eq!(
        EventsError::NoField.message(),
        "cgroup.events has no populated field"
    );
    assert_eq!(
        EventsError::InvalidField.message(),
        "cgroup.events has an invalid populated field"
    );
    assert!(is_emptied("frozen 0\npopulated 0\n"));
    assert!(!is_emptied("populated 1\n"));
    assert!(!is_emptied("populated 01\n"));
    assert!(!is_emptied(""));
}

#[test]
fn the_control_group_of_this_process_is_read() {
    assert_eq!(
        current_cgroup("1:name=systemd:/x\n0::/user.slice/a\n").as_deref(),
        Some("user.slice/a")
    );
    assert_eq!(current_cgroup("0::/\n").as_deref(), Some(""));
    assert_eq!(current_cgroup("0:://a\n").as_deref(), Some("a"));
    assert_eq!(current_cgroup("2:cpu:/\n"), None);
}

#[test]
fn session_names_are_distinct() {
    assert_eq!(session_name(12, 3), "foil-12-3");
    assert_ne!(session_name(1, 23), session_name(12, 3));
    assert_eq!(
        session_name(7, u64::MAX),
        format!("foil-7-{}", u64::MAX)
    );
}

#[test]
fn the_second_interrupt_exits_with_status_130() {
    assert_eq!(on_interrupt(false), InterruptAction::Wake);
    assert_eq!(
        on_interrupt(true),
        InterruptAction::Exit { status: 130 }
    );
    assert_eq!(INTERRUPTED_STATUS, 130);
}
