//! What a restarted daemon takes back.

use busybee::classify::Class;
use busybee::exit_code::TaskResult;
use busybee::recovery::{
    cores_recorded, fifo_pid, file_name, orphan, process_to_ask, reconcile, recover, referenced,
    seeding, stale_fifo, Record, Seeding,
};
use busybee::status::{Task, TaskStatus};

fn record(id: u64, pueue_task_id: Option<usize>) -> Record {
    Record {
        id,
        label: format!("task {id}"),
        argv: vec!["sleep".into(), "5".into()],
        class: Class::Exclusive,
        cores_held: 0,
        pueue_task_id,
        started_at_unix_ms: 0,
        submitted_at_unix_ms: None,
        fifo: None,
        killing: false,
    }
}

fn task(id: usize, status: TaskStatus) -> Task {
    Task {
        id,
        group: "busybee".into(),
        label: None,
        command: "sleep 5".into(),
        path: "/tmp".into(),
        status,
        created_at_ns: 0,
    }
}

fn labelled(id: usize, label: &str, created_at_ns: i64) -> Task {
    Task {
        id,
        group: "busybee".into(),
        label: Some(label.into()),
        command: "sleep 1".into(),
        path: "/tmp".into(),
        status: TaskStatus::Running,
        created_at_ns,
    }
}

fn done() -> TaskStatus {
    TaskStatus::Done(TaskResult::Success)
}

/// Only a task pueued still reports running is on the machine; every
/// other record is over, each for a reason the log can say.
#[test]
fn only_records_whose_task_is_running_are_adopted() {
    let state = vec![task(1, TaskStatus::Running), task(2, done())];
    let records = vec![
        record(10, Some(1)),
        record(11, Some(2)),
        record(12, Some(3)),
        record(13, None),
    ];

    let reconciled = reconcile(records, &state);

    assert_eq!(
        reconciled.adopted.iter().map(|r| r.id).collect::<Vec<_>>(),
        vec![10]
    );
    let dropped: Vec<(u64, &str)> = reconciled
        .dropped
        .iter()
        .map(|(r, reason)| (r.id, reason.as_str()))
        .collect();
    assert_eq!(dropped.len(), 3, "dropped {dropped:?}");
    assert!(dropped[0].1.contains("finished"), "{:?}", dropped[0]);
    assert!(dropped[1].1.contains("gone"), "{:?}", dropped[1]);
    assert!(dropped[2].1.contains("never admitted"), "{:?}", dropped[2]);
}

/// A teardown the previous daemon did not see through is not a lease to
/// take back: the task is on its way out, not on the books. It is
/// resumed while pueued still reports the task, and over once it does
/// not.
#[test]
fn a_teardown_in_flight_is_resumed_not_adopted() {
    let state = vec![task(1, TaskStatus::Running), task(2, done())];
    let mut ignoring = record(10, Some(1));
    ignoring.killing = true;
    let mut finished = record(11, Some(2));
    finished.killing = true;

    let reconciled = reconcile(vec![ignoring, finished], &state);

    assert!(reconciled.adopted.is_empty(), "adopted a teardown");
    assert_eq!(
        reconciled.killing.iter().map(|r| r.id).collect::<Vec<_>>(),
        vec![10]
    );
    assert_eq!(reconciled.dropped.len(), 1);
    assert_eq!(reconciled.dropped[0].0.id, 11);
    assert!(
        reconciled.dropped[0].1.contains("torn down"),
        "{:?}",
        reconciled.dropped[0].1
    );
}

#[test]
fn only_jobserver_files_carry_a_pid() {
    assert_eq!(fifo_pid("/state/jobserver-4242"), Some(4242));
    assert_eq!(fifo_pid("/state/jobserver-x"), None);
    assert_eq!(fifo_pid("/state/bzbd.sock"), None);
}

/// Our own pid is the one live pid a leftover fifo must not be kept for:
/// the fifo predates this process and ours is about to be created at
/// the same path.
#[test]
fn liveness_is_asked_of_every_process_but_this_one() {
    assert_eq!(process_to_ask(77, 4242), Some(77));
    assert_eq!(process_to_ask(4242, 4242), None);
    assert_eq!(process_to_ask(0, 4242), None);
    assert_eq!(process_to_ask(i32::MAX as u32, 4242), Some(i32::MAX));
    assert_eq!(process_to_ask(u32::MAX, 4242), None);
}

/// A submission whose answer was lost may still have started a task, and
/// `start_immediately` means it is already running. Nothing accounts for
/// it, so the poll has to find it.
#[test]
fn an_unanswered_submission_finds_the_task_pueued_started() {
    let state = vec![labelled(4, "cargo build", 1000)];
    assert_eq!(orphan(&state, "cargo build", 1000, &[]), Some(4));
}

/// The task a live lease is watching is accounted for, even when its label
/// is the same: two sessions building the same project is the ordinary
/// case, and killing the other one would be the bug this guards against.
#[test]
fn a_task_a_lease_holds_is_not_an_orphan() {
    let state = vec![labelled(4, "cargo build", 1000)];
    assert_eq!(orphan(&state, "cargo build", 1000, &[4]), None);
}

/// Nor is one that predates the submission: it cannot be the task the
/// submission would have created.
#[test]
fn a_task_older_than_the_submission_is_not_an_orphan() {
    let state = vec![labelled(4, "cargo build", 0)];
    assert_eq!(orphan(&state, "cargo build", 1000, &[]), None);
}

#[test]
fn a_record_killed_in_its_submission_is_matched_by_label() {
    let mut pending = record(10, None);
    pending.label = "cargo build".into();
    pending.submitted_at_unix_ms = Some(1000);
    let mut late = record(11, None);
    late.label = "cargo build".into();
    late.submitted_at_unix_ms = Some(1000);

    let reconciled = reconcile(vec![pending, late], &[labelled(4, "cargo build", 1_000_000_500)]);

    assert_eq!(reconciled.adopted.len(), 1);
    assert_eq!(reconciled.adopted[0].id, 10);
    assert_eq!(reconciled.adopted[0].pueue_task_id, Some(4));
    assert_eq!(reconciled.dropped.len(), 1);
    assert_eq!(reconciled.dropped[0].0.id, 11);

    let mut early = record(12, None);
    early.label = "cargo build".into();
    early.submitted_at_unix_ms = Some(1000);
    let reconciled = reconcile(vec![early], &[labelled(4, "cargo build", 999_999_999)]);
    assert!(reconciled.adopted.is_empty());
}

#[test]
fn a_task_created_earlier_in_the_same_millisecond_is_not_an_orphan() {
    let state = vec![labelled(4, "cargo build", 1_000_000_100)];
    assert_eq!(orphan(&state, "cargo build", 1_000_000_200, &[]), None);
    assert_eq!(orphan(&state, "cargo build", 1_000_000_100, &[]), Some(4));
}

#[test]
fn a_recovered_pool_is_seeded_with_what_is_not_held() {
    assert_eq!(seeding(3, 8), Seeding { take: 3, debt: 0 });
    assert_eq!(seeding(6, 4), Seeding { take: 4, debt: 2 });
    let mut one = record(1, Some(1));
    one.cores_held = 3;
    let mut two = record(2, Some(2));
    two.cores_held = 4;
    assert_eq!(cores_recorded(&[one, two]), 7);
}

#[test]
fn recovering_seeds_for_adopted_and_torn_down_alike() {
    let mut running = record(1, Some(1));
    running.cores_held = 3;
    let mut leaving = record(2, Some(2));
    leaving.cores_held = 2;
    leaving.killing = true;
    let mut over = record(3, Some(3));
    over.cores_held = 8;
    let tasks = vec![
        task(1, TaskStatus::Running),
        task(2, TaskStatus::Running),
        task(3, done()),
    ];

    let recovered = recover(vec![running, leaving, over], &tasks, 4);

    assert_eq!(recovered.adopted.len(), 1);
    assert_eq!(recovered.killing.len(), 1);
    assert_eq!(recovered.dropped.len(), 1);
    assert_eq!(recovered.seeding, Seeding { take: 4, debt: 1 });
}

#[test]
fn a_fifo_is_stale_when_nothing_refers_to_it() {
    let mut adopted = record(1, Some(1));
    adopted.fifo = Some("/state/jobserver-7".into());
    assert!(referenced(&[adopted], "/state/jobserver-7"));
    let mut adopted = record(1, Some(1));
    adopted.fifo = Some("/state/jobserver-7".into());
    assert!(!stale_fifo("/state/jobserver-7", false, &[adopted], &[]));
    assert!(stale_fifo("/state/jobserver-8", false, &[], &[]));
    assert!(!stale_fifo("/state/jobserver-8", true, &[], &[]));
    assert!(!stale_fifo("/state/bzbd.sock", false, &[], &[]));
}

#[test]
fn a_file_name_follows_the_last_slash() {
    assert_eq!(file_name("/state/jobserver-7").as_deref(), Some("jobserver-7"));
    assert_eq!(file_name("/"), None);
}
