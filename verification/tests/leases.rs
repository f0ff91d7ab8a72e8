//! The daemon's leases, from the first request to the last token.

use busybee::classify::{default_table, Class};
use busybee::config::StaticDefault;
use busybee::env::EnvMap;
use busybee::exit_code::TaskResult;
use busybee::leases::{
    completion, Effect, Ending, Leases, Recorded, Settings, Step, KILLED, KILL_GRACE_MS,
};
use busybee::protocol::{LeaseEvent, LeaseRequest};
use busybee::recovery::Record;
use busybee::scheduler::Params;
use busybee::status::{Task, TaskStatus};

const PARAMS: Params = Params {
    pool_size: 4,
    max_concurrent: 4,
};

fn settings() -> Settings {
    Settings {
        fifo: "/state/jobserver-1".into(),
        drain_deadline_ms: 2000,
        table: default_table(),
        static_default: StaticDefault::Fair,
    }
}

fn fresh(params: Params) -> Leases {
    let (leases, effects) = Leases::new(params, settings(), vec![], vec![], 0, 0);
    assert_eq!(effects, [Effect::Persist]);
    leases
}

/// What is recorded for a static lease that drained `cores_held` tokens.
fn held(id: u64, task: usize, cores_held: u32) -> Record {
    Record {
        id,
        label: "make".into(),
        argv: vec!["make".into()],
        class: Class::Static,
        cores_held,
        pueue_task_id: Some(task),
        started_at_unix_ms: 0,
        submitted_at_unix_ms: None,
        fifo: None,
        killing: false,
    }
}

fn torn_down(id: u64, task: usize, cores_held: u32) -> Record {
    let mut record = held(id, task, cores_held);
    record.killing = true;
    record
}

fn request(argv: &[&str]) -> LeaseRequest {
    LeaseRequest {
        argv: argv.iter().map(|a| a.to_string()).collect(),
        cwd: "/tmp".into(),
        env: EnvMap::new(),
        label: None,
        class_override: None,
        cores_wanted: None,
        detached: false,
    }
}

fn task(id: usize, status: TaskStatus) -> Task {
    Task {
        id,
        group: "busybee".into(),
        label: None,
        command: "sleep 1".into(),
        path: "/tmp".into(),
        status,
        created_at_ns: 0,
    }
}

/// Lets the machine run until it has nothing left to do. Drains get every
/// token that is asked for, and submissions become tasks from `first_task` on.
fn settle(leases: &mut Leases, now_ms: u64, first_task: usize) -> Vec<Effect> {
    let mut effects = Vec::new();
    let mut next = first_task;
    loop {
        match leases.step(now_ms) {
            Step::Idle => return effects,
            Step::Do(more) => effects.extend(more),
            Step::Drain { tokens, .. } => {
                effects.extend(leases.drained(tokens, now_ms));
                match leases.recorded(Ok(()), now_ms as i64 * 1_000_000) {
                    Recorded::Idle => {}
                    Recorded::Submit(_) => {
                        effects.extend(leases.submitted(Ok(next)));
                        next += 1;
                    }
                    Recorded::Failed(more) => effects.extend(more),
                }
            }
        }
    }
}

/// Submits a request and lets it run as far as it gets.
fn submit(
    leases: &mut Leases,
    request: LeaseRequest,
    now_ms: u64,
    task: usize,
) -> (u64, Vec<Effect>) {
    assert!(leases.can_enter());
    let (id, mut effects) = leases.enter(request, now_ms);
    effects.extend(leases.announce(id));
    effects.extend(settle(leases, now_ms, task));
    (id, effects)
}

fn released(effects: &[Effect]) -> u32 {
    effects
        .iter()
        .map(|e| match e {
            Effect::Release { tokens } => *tokens,
            _ => 0,
        })
        .sum()
}

fn told(effects: &[Effect], lease: u64) -> Vec<&LeaseEvent> {
    effects
        .iter()
        .filter_map(|e| match e {
            Effect::Send { lease: to, event } if *to == lease => Some(event),
            _ => None,
        })
        .collect()
}

/// The position that a lease is told first.
fn queued(effects: &[Effect], lease: u64) -> Option<usize> {
    told(effects, lease).into_iter().find_map(|e| match e {
        LeaseEvent::Queued { ahead, .. } => Some(*ahead),
        _ => None,
    })
}

/// What a lease is told of its admission: class, cores, pool size and peers.
fn admitted(effects: &[Effect], lease: u64) -> Option<(String, u32, u32, usize)> {
    told(effects, lease).into_iter().find_map(|e| match e {
        LeaseEvent::Admitted {
            class,
            cores,
            pool_size,
            peers,
            ..
        } => Some((class.clone(), *cores, *pool_size, *peers)),
        _ => None,
    })
}

/// The first notice that a lease is told.
fn notice(effects: &[Effect], lease: u64) -> &str {
    told(effects, lease)
        .into_iter()
        .find_map(|e| match e {
            LeaseEvent::Notice { text } => Some(text.as_str()),
            _ => None,
        })
        .expect("a notice")
}

/// The exit code that a lease is told.
fn finished(effects: &[Effect], lease: u64) -> Option<i32> {
    told(effects, lease).into_iter().find_map(|e| match e {
        LeaseEvent::Finished { exit_code, .. } => Some(*exit_code),
        _ => None,
    })
}

#[test]
fn a_running_task_has_not_completed() {
    assert_eq!(completion(&[task(1, TaskStatus::Running)], 1), None);
}

#[test]
fn a_finished_task_carries_its_exit_code() {
    let done = task(1, TaskStatus::Done(TaskResult::Failed(7)));
    assert_eq!(completion(&[done], 1), Some(Ending::Exited(7)));
}

/// An admission held back while an earlier task is torn down has no task
/// of its own, and its client has not been told it is running. `busybee
/// status` must not say otherwise.
#[test]
fn an_admission_held_back_is_reported_as_queued() {
    let (mut leases, _) = Leases::new(PARAMS, settings(), vec![], vec![torn_down(5, 9, 0)], 0, 0);

    submit(&mut leases, request(&["cargo", "build"]), 0, 1);

    let status = leases.status(4, 0);
    assert_eq!(status.leases.len(), 1, "leases were {:?}", status.leases);
    assert_eq!(status.leases[0].state, "queued");
    assert_eq!(status.leases[0].pueue_task_id, None);
    assert_eq!(status.leases[0].ahead, Some(0));
}

/// A task being torn down when pueued goes is as unaccountable as a running
/// one, and its tokens go back the same way. Clearing the teardown without
/// them would leave the pool short by that many for good.
#[test]
fn losing_pueued_returns_the_tokens_of_a_teardown_in_flight() {
    let (mut leases, _) = Leases::new(PARAMS, settings(), vec![], vec![torn_down(5, 9, 3)], 0, 0);
    assert_eq!(leases.held(), 3);

    let mut effects = leases.lost(&"gone".to_string());
    effects.extend(settle(&mut leases, 0, 1));

    assert_eq!(released(&effects), 3, "the teardown's tokens never came back");
    assert!(effects.contains(&Effect::Persist));
    assert!(!leases.holding());
    assert!(leases.records().is_empty());
}

/// A teardown is on the books until pueued confirms the task gone, so a
/// daemon restarted inside the grace period finds it and finishes it
/// instead of admitting beside a task that ignored SIGTERM.
#[test]
fn a_teardown_in_flight_is_recorded_until_pueued_confirms_it_gone() {
    let (mut leases, _) = Leases::new(PARAMS, settings(), vec![], vec![torn_down(5, 9, 0)], 0, 0);

    let records = leases.records();
    assert_eq!(records.len(), 1, "records were {records:?}");
    assert_eq!((records[0].id, records[0].pueue_task_id), (5, Some(9)));
    assert!(records[0].killing, "the teardown was recorded as a lease");

    leases.polled(&[task(9, TaskStatus::Done(TaskResult::Killed))], 10);
    settle(&mut leases, 10, 1);
    assert!(leases.records().is_empty());
}

/// A recovered teardown holds admissions back like one of this daemon's
/// own, and its tokens are withheld from the pool until it is confirmed.
#[test]
fn a_recovered_teardown_holds_admissions_back() {
    let (mut leases, _) = Leases::new(PARAMS, settings(), vec![], vec![torn_down(5, 9, 0)], 0, 0);

    assert!(leases.holding(), "the recovered teardown holds nothing back");
    let records = leases.records();
    assert_eq!(records.len(), 1, "records were {records:?}");
    assert_eq!(records[0].pueue_task_id, Some(9));
    assert!(records[0].killing, "task 9 is not being torn down");
    let (id, _) = leases.enter(request(&["make"]), 0);
    assert_eq!(id, 6, "ids must carry on from after the teardown's");
}

/// A pool that shrank under running tasks starts empty, and what the tasks
/// return beyond its size is not put back: the fifo never holds more
/// tokens than the pool has.
#[test]
fn a_recovered_pool_never_grows_past_its_size() {
    // A lease holding 6 of a pool of 4: all four withheld, two owed.
    let (mut leases, _) = Leases::new(PARAMS, settings(), vec![held(5, 9, 6)], vec![], 2, 0);
    assert_eq!(leases.debt(), 2);

    let mut effects = leases.polled(&[task(9, TaskStatus::Done(TaskResult::Success))], 10);
    effects.extend(settle(&mut leases, 10, 1));

    assert_eq!(released(&effects), 4, "the pool grew past its size");
    assert_eq!(leases.debt(), 0);
}

#[test]
fn a_task_that_vanished_ends_the_lease_with_a_notice() {
    assert_eq!(completion(&[], 7), Some(Ending::Vanished(7)));

    let (mut leases, _) = Leases::new(PARAMS, settings(), vec![held(5, 7, 0)], vec![], 0, 0);
    // Nobody is told of an orphan's end, so the lease here has a client.
    let (id, _) = submit(&mut leases, request(&["make"]), 0, 8);
    let mut effects = leases.polled(&[task(7, TaskStatus::Running)], 10);
    effects.extend(settle(&mut leases, 10, 9));
    let told = told(&effects, id);
    assert!(
        told.iter()
            .any(|e| matches!(e, LeaseEvent::Notice { text } if text.contains('8'))),
        "the notice must name the task: {told:?}"
    );
    assert!(told.contains(&&LeaseEvent::Finished { id, exit_code: 1 }));
}

#[test]
fn a_jobserver_lease_is_started_at_once_and_ends_with_its_task() {
    let mut leases = fresh(PARAMS);
    let (id, effects) = submit(&mut leases, request(&["make"]), 0, 3);
    assert_eq!(id, 1);
    assert!(told(&effects, id).contains(&&LeaseEvent::Admitted {
        id,
        pueue_task_id: 3,
        class: "jobserver".into(),
        cores: 4,
        pool_size: 4,
        peers: 0,
    }));
    assert!(leases.wants_poll());
    assert_eq!(leases.held(), 0);

    let mut effects = leases.polled(&[task(3, TaskStatus::Done(TaskResult::Failed(7)))], 10);
    effects.extend(settle(&mut leases, 10, 4));
    assert!(told(&effects, id).contains(&&LeaseEvent::Finished { id, exit_code: 7 }));
    assert!(leases.records().is_empty());
}

#[test]
fn a_static_lease_holds_its_cores_and_hands_them_back() {
    let mut leases = fresh(PARAMS);
    let mut wanted = request(&["xcodebuild"]);
    wanted.cores_wanted = Some(3);
    let (id, _) = submit(&mut leases, wanted, 0, 3);
    assert_eq!(leases.held(), 3);
    assert_eq!(leases.excess(2), 1);
    assert_eq!(leases.excess(1), 0);
    let status = leases.status(1, 5);
    assert_eq!((status.pool_size, status.free, status.held), (4, 1, 3));
    assert_eq!(status.leases[0].state, "running");
    assert_eq!(status.leases[0].cores, 3);
    assert_eq!(status.leases[0].pueue_task_id, Some(3));
    assert_eq!(status.leases[0].id, id);

    let mut effects = leases.polled(&[task(3, TaskStatus::Done(TaskResult::Success))], 10);
    effects.extend(settle(&mut leases, 10, 4));
    assert_eq!(released(&effects), 3);
    assert_eq!(leases.held(), 0);
}

#[test]
fn a_task_is_told_its_lease_and_its_share() {
    let mut leases = fresh(PARAMS);
    let mut wanted = request(&["xcodebuild", "build"]);
    wanted.cores_wanted = Some(3);
    let (id, _) = leases.enter(wanted, 0);
    leases.announce(id);
    let spec = loop {
        match leases.step(0) {
            Step::Idle => panic!("nothing was submitted"),
            Step::Do(_) => {}
            Step::Drain { tokens, deadline_ms } => {
                assert_eq!((tokens, deadline_ms), (3, 2000));
                leases.drained(tokens, 0);
                match leases.recorded(Ok(()), 0) {
                    Recorded::Submit(spec) => break spec,
                    other => panic!("expected a submission, got {other:?}"),
                }
            }
        }
    };
    assert_eq!(spec.command, "xcodebuild build -jobs 2");
    assert!(spec.start_immediately);
    assert_eq!(
        spec.env.get("BUSYBEE_LEASE").map(String::as_str),
        Some(id.to_string().as_str())
    );
    assert_eq!(
        spec.env.get("BUSYBEE_CORES").map(String::as_str),
        Some("3")
    );
}

#[test]
fn a_second_exclusive_lease_waits_for_the_first() {
    let mut leases = fresh(PARAMS);
    let (first, _) = submit(&mut leases, request(&["my-bench"]), 0, 3);
    let (second, effects) = submit(&mut leases, request(&["my-bench"]), 0, 4);
    assert!(told(&effects, second).contains(&&LeaseEvent::Queued {
        id: second,
        ahead: 1
    }));
    let mut effects = leases.polled(&[task(3, TaskStatus::Done(TaskResult::Success))], 10);
    effects.extend(settle(&mut leases, 10, 4));
    assert!(told(&effects, first).contains(&&LeaseEvent::Finished {
        id: first,
        exit_code: 0
    }));
    assert!(told(&effects, second)
        .iter()
        .any(|e| matches!(e, LeaseEvent::Admitted { pueue_task_id: 4, .. })));
}

/// A drain that collects nothing is not a failure. The second static lease starts on
/// the implicit token, told so, and told it holds one core, rather than waiting for the
/// first to finish or running ungoverned.
#[test]
fn an_empty_drain_starts_on_the_implicit_token_and_says_so() {
    let params = Params {
        pool_size: 1,
        max_concurrent: 4,
    };
    let mut leases = fresh(params);
    let mut wanted = request(&["sh", "-c", "sleep 2"]);
    wanted.class_override = Some(Class::Static);
    let (first, effects) = submit(&mut leases, wanted, 0, 3);
    assert_eq!(queued(&effects, first), Some(0));
    assert_eq!(admitted(&effects, first), Some(("static".into(), 1, 1, 0)));
    assert_eq!(leases.held(), 1);

    let mut wanted = request(&["sh", "-c", "echo $BUSYBEE_CORES > cores.txt"]);
    wanted.class_override = Some(Class::Static);
    let (second, mut effects) = leases.enter(wanted, 1);
    effects.extend(leases.announce(second));
    let mut cores = None;
    loop {
        match leases.step(1) {
            Step::Idle => break,
            Step::Do(more) => effects.extend(more),
            Step::Drain { .. } => {
                effects.extend(leases.drained(0, 1));
                if let Recorded::Submit(spec) = leases.recorded(Ok(()), 1) {
                    cores = spec.env.get("BUSYBEE_CORES").cloned();
                    effects.extend(leases.submitted(Ok(4)));
                }
            }
        }
    }
    assert_eq!(queued(&effects, second), Some(1));
    let text = notice(&effects, second);
    assert!(
        text.contains("implicit"),
        "the notice must say the task runs on the implicit token, got {text:?}"
    );
    assert_eq!(admitted(&effects, second), Some(("static".into(), 1, 1, 1)));
    assert_eq!(cores.as_deref(), Some("1"));

    let list = [
        task(3, TaskStatus::Running),
        task(4, TaskStatus::Done(TaskResult::Success)),
    ];
    let mut effects = leases.polled(&list, 2);
    effects.extend(settle(&mut leases, 2, 5));
    assert_eq!(finished(&effects, second), Some(0));
    // The first lease still holds the only token; the second held none.
    assert_eq!(released(&effects), 0);
    assert_eq!(leases.status(0, 2).held, 1);

    let mut effects = leases.polled(&[task(3, TaskStatus::Done(TaskResult::Success))], 3);
    effects.extend(settle(&mut leases, 3, 5));
    assert_eq!(finished(&effects, first), Some(0));
    assert_eq!(released(&effects), 1);
}

/// Tokens were drained for a task that then could not be submitted. The lease ends with
/// the reason at once; the tokens go back once a poll has settled whether pueued started
/// the task anyway, or pueued has been given up on.
#[test]
fn a_rejected_submission_returns_the_drained_tokens() {
    for given_up in [false, true] {
        let mut leases = fresh(Params {
            pool_size: 2,
            max_concurrent: 4,
        });
        let mut wanted = request(&["sh", "-c", "true"]);
        wanted.class_override = Some(Class::Static);
        wanted.cores_wanted = Some(2);
        let (id, mut effects) = leases.enter(wanted, 0);
        effects.extend(leases.announce(id));
        loop {
            match leases.step(0) {
                Step::Idle => break,
                Step::Do(more) => effects.extend(more),
                Step::Drain { tokens, .. } => {
                    effects.extend(leases.drained(tokens, 0));
                    if let Recorded::Submit(_) = leases.recorded(Ok(()), 0) {
                        effects.extend(leases.submitted(Err("pueue is full".into())));
                    }
                }
            }
        }
        assert_eq!(queued(&effects, id), Some(0));
        let text = notice(&effects, id);
        assert!(text.contains("could not start"), "got {text:?}");
        assert!(text.contains("pueue is full"), "got {text:?}");
        assert_eq!(finished(&effects, id), Some(1));

        // The lease is gone, but the tokens drained for it are still out.
        let gone = leases.status(0, 1);
        assert!(gone.leases.is_empty(), "status was {gone:?}");
        assert_eq!(gone.free + gone.held, 2, "status was {gone:?}");

        let mut effects = if given_up {
            leases.lost(&"gone".to_string())
        } else {
            leases.polled(&[], 10)
        };
        effects.extend(settle(&mut leases, 10, 4));
        assert_eq!(released(&effects), 2, "the drained tokens never came back");
        assert_eq!(leases.held(), 0);
    }
}

/// A grant that the record cannot carry is one a restarted daemon would never find, and
/// would seed the pool with again beside the task still running on it. So the task does
/// not start: the tokens go back, and the client hears why.
#[test]
fn a_grant_that_cannot_be_recorded_is_not_started() {
    let mut leases = fresh(Params {
        pool_size: 2,
        max_concurrent: 4,
    });
    let mut wanted = request(&["sh", "-c", "touch ran"]);
    wanted.class_override = Some(Class::Static);
    wanted.cores_wanted = Some(2);
    let (id, mut effects) = leases.enter(wanted, 0);
    effects.extend(leases.announce(id));
    loop {
        match leases.step(0) {
            Step::Idle => break,
            Step::Do(more) => effects.extend(more),
            Step::Drain { tokens, .. } => {
                assert_eq!(tokens, 2);
                effects.extend(leases.drained(tokens, 0));
                match leases.recorded(Err("read-only".into()), 0) {
                    Recorded::Failed(more) => effects.extend(more),
                    other => panic!("started without a record: {other:?}"),
                }
            }
        }
    }
    assert_eq!(queued(&effects, id), Some(0));
    let text = notice(&effects, id);
    assert!(text.contains("record"), "got {text:?}");
    assert!(text.contains("read-only"), "got {text:?}");
    assert_eq!(finished(&effects, id), Some(1));

    assert_eq!(released(&effects), 2);
    let after = leases.status(2, 1);
    assert!(after.leases.is_empty(), "status was {after:?}");
    assert_eq!((after.free, after.held), (2, 0), "status was {after:?}");
}

#[test]
fn a_cancelled_lease_is_torn_down_and_killed_after_its_grace() {
    let mut leases = fresh(PARAMS);
    let mut wanted = request(&["xcodebuild"]);
    wanted.cores_wanted = Some(3);
    let (id, _) = submit(&mut leases, wanted, 0, 3);

    assert!(leases.cancel(id));
    assert!(!leases.cancel(99));
    let effects = settle(&mut leases, 100, 4);
    assert!(effects.contains(&Effect::Terminate { task: 3 }));
    assert!(told(&effects, id).contains(&&LeaseEvent::Finished {
        id,
        exit_code: KILLED
    }));
    assert_eq!(released(&effects), 0, "the task still runs on its tokens");
    assert_eq!(leases.held(), 3);
    assert!(leases.records()[0].killing);

    let early = leases.polled(&[task(3, TaskStatus::Running)], 100 + KILL_GRACE_MS - 1);
    assert!(!early.contains(&Effect::Kill { task: 3 }));
    let late = leases.polled(&[task(3, TaskStatus::Running)], 100 + KILL_GRACE_MS);
    assert!(late.contains(&Effect::Kill { task: 3 }));
    leases.escalated(3);
    let again = leases.polled(&[task(3, TaskStatus::Running)], 200 + KILL_GRACE_MS);
    assert!(!again.contains(&Effect::Kill { task: 3 }));

    let mut gone = leases.polled(
        &[task(3, TaskStatus::Done(TaskResult::Killed))],
        300 + KILL_GRACE_MS,
    );
    gone.extend(settle(&mut leases, 300 + KILL_GRACE_MS, 4));
    assert_eq!(released(&gone), 3);
    assert_eq!(leases.held(), 0);
}

/// Connection = lease: a client that hangs up while queued never runs.
#[test]
fn a_client_that_hangs_up_while_queued_loses_its_lease() {
    let mut leases = fresh(PARAMS);
    let (first, effects) = submit(&mut leases, request(&["sh", "-c", "sleep 30"]), 0, 3);
    assert_eq!(queued(&effects, first), Some(0));
    assert!(admitted(&effects, first).is_some());

    let (second, effects) = submit(&mut leases, request(&["sh", "-c", "sleep 30"]), 0, 4);
    assert_eq!(queued(&effects, second), Some(1));
    assert_eq!(admitted(&effects, second), None);
    leases.hangup(second);
    let effects = settle(&mut leases, 0, 4);
    assert!(told(&effects, second).is_empty(), "effects were {effects:?}");

    // The running lease is untouched: only the one that hung up went.
    let left = leases.status(0, 0).leases;
    assert_eq!(left.len(), 1, "leases were {left:?}");
    assert_eq!(left[0].id, first);
    assert_eq!(left[0].pueue_task_id, Some(3));
}

#[test]
fn a_request_that_could_not_be_answered_leaves_nothing_behind() {
    let mut leases = fresh(PARAMS);
    let (id, _) = leases.enter(request(&["make"]), 0);
    leases.withdraw(id);
    settle(&mut leases, 0, 1);
    assert!(leases.status(4, 0).leases.is_empty());
    assert!(leases.records().is_empty());
}

#[test]
fn a_pool_that_grows_or_shrinks_moves_tokens() {
    let mut leases = fresh(PARAMS);
    let grown = leases.set_params(Params {
        pool_size: 6,
        max_concurrent: 4,
    });
    assert!(grown.contains(&Effect::Release { tokens: 2 }), "{grown:?}");
    let shrunk = leases.set_params(Params {
        pool_size: 3,
        max_concurrent: 4,
    });
    assert!(shrunk.contains(&Effect::Withdraw { tokens: 3 }), "{shrunk:?}");
    leases.withdrawn(2);
    assert_eq!(leases.debt(), 1);
    assert_eq!(leases.params().pool_size, 3);
}

#[test]
fn losing_pueued_ends_every_running_lease() {
    let mut leases = fresh(PARAMS);
    let mut wanted = request(&["xcodebuild"]);
    wanted.cores_wanted = Some(2);
    let (id, _) = submit(&mut leases, wanted, 0, 3);
    let mut effects = leases.lost(&"connection refused".to_string());
    effects.extend(settle(&mut leases, 0, 4));
    assert_eq!(released(&effects), 2);
    let told = told(&effects, id);
    assert!(
        told.iter().any(
            |e| matches!(e, LeaseEvent::Notice { text } if text.contains("connection refused"))
        ),
        "told {told:?}"
    );
    assert!(told.contains(&&LeaseEvent::Finished { id, exit_code: 1 }));
    assert!(!leases.wants_poll());
}

#[test]
fn an_adopted_lease_is_an_orphan_that_keeps_its_cores() {
    let mut adopted = held(5, 9, 3);
    adopted.fifo = Some("/state/jobserver-0".into());
    let (mut leases, _) = Leases::new(PARAMS, settings(), vec![adopted], vec![], 0, 0);
    let status = leases.status(1, 10);
    assert_eq!(status.leases[0].state, "orphaned");
    assert_eq!(status.held, 3);

    let mut effects = leases.polled(&[task(9, TaskStatus::Done(TaskResult::Success))], 20);
    effects.extend(settle(&mut leases, 20, 1));
    assert_eq!(released(&effects), 3);
    assert!(
        effects.contains(&Effect::Unlink {
            path: "/state/jobserver-0".into()
        }),
        "effects were {effects:?}"
    );
    assert!(told(&effects, 5).is_empty());
}

/// What is free and what is held make up the pool at every point of a run, and no two
/// leases have one task.
#[test]
fn free_and_held_tokens_make_up_the_pool_over_a_run() {
    let mut leases = fresh(PARAMS);
    let mut free = PARAMS.pool_size;

    let mut wanted = request(&["xcodebuild"]);
    wanted.cores_wanted = Some(3);
    let (first, effects) = submit(&mut leases, wanted, 0, 7);
    free = free + released(&effects) - leases.held();
    let running = leases.held();
    assert!(running > 0, "nothing was drained");
    assert_eq!(free + leases.held(), PARAMS.pool_size);

    submit(&mut leases, request(&["cargo", "build"]), 1, 8);
    assert_eq!(leases.held(), running, "a jobserver lease drained tokens");
    let tasks: Vec<Option<usize>> = leases.records().iter().map(|r| r.pueue_task_id).collect();
    assert_eq!(tasks, [Some(7), Some(8)]);

    // Cancelled, its task keeps the tokens until pueued has it gone.
    leases.cancel(first);
    let effects = settle(&mut leases, 2, 9);
    assert_eq!(released(&effects), 0);
    assert_eq!(free + leases.held(), PARAMS.pool_size);

    let list = [
        task(7, TaskStatus::Done(TaskResult::Killed)),
        task(8, TaskStatus::Running),
    ];
    let mut effects = leases.polled(&list, 3);
    effects.extend(settle(&mut leases, 3, 9));
    free += released(&effects);
    assert_eq!(leases.held(), 0);
    assert_eq!(free, PARAMS.pool_size);
}
