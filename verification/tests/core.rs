//! The parts that every command goes through.

use std::io::Write;

use busybee::daemon::{leases_path, log_path, pid_path, socket_path, state_dir, Places};
use busybee::enqueue::{build_add_request, shell_escape_join, TaskSpec, BUSYBEE_GROUP};
use busybee::env::{color_envs, EnvMap};
use busybee::errors::{exit_code_for, BusybeeError};
use busybee::exit_code::{task_result_to_exit_code, TaskResult};
use busybee::log::{decompress_snappy_frames, log_chunk, new_output, LogReply};
use busybee::nest::{passthrough_line, passthrough_parent};
use busybee::protocol::LeaseView;
use busybee::pueue::{
    added_task, connect_step, group_created, group_step, io, signal_delivered, ConnectStep,
    GroupStep, Reply, SPAWN_DEADLINE_MS,
};
use busybee::status::{count_ahead, find_task, QueueSnapshot, Task, TaskStatus};
use busybee::version_parse::parse_describe;
use busybee::wait::{QueueLines, HEARTBEAT_TICKS};

fn m(pairs: &[(&str, &str)]) -> EnvMap {
    EnvMap::from_pairs(
        pairs
            .iter()
            .map(|(k, v)| (k.to_string(), v.to_string()))
            .collect(),
    )
}

fn words(argv: &[&str]) -> Vec<String> {
    argv.iter().map(|s| s.to_string()).collect()
}

// Submitting to pueued.

fn spec(command: &str) -> TaskSpec {
    TaskSpec {
        command: command.into(),
        cwd: "/tmp".into(),
        env: m(&[("NO_COLOR", "1")]),
        label: Some("test".into()),
        start_immediately: false,
    }
}

#[test]
fn build_add_request_sets_group_and_envs() {
    let msg = build_add_request(spec("echo hi"));
    assert_eq!(msg.group, BUSYBEE_GROUP);
    assert_eq!(msg.command, "echo hi");
    assert_eq!(msg.label.as_deref(), Some("test"));
    assert!(!msg.envs.contains_key("NO_COLOR"));
    assert_eq!(msg.envs.get("FORCE_COLOR").map(String::as_str), Some("1"));
    assert!(!msg.start_immediately);
}

/// Admitted tasks must not wait for pueue's dispatcher, which the
/// `busybee` group's `parallel_tasks = 0` has switched off anyway.
#[test]
fn build_add_request_carries_start_immediately() {
    let mut spec = spec("echo hi");
    spec.start_immediately = true;
    assert!(build_add_request(spec).start_immediately);
}

#[test]
fn join_simple_words_is_passthrough() {
    assert_eq!(shell_escape_join(&words(&["echo", "hi"])), "echo hi");
}

#[test]
fn join_quotes_args_with_spaces() {
    assert_eq!(
        shell_escape_join(&words(&["echo", "hello world"])),
        "echo 'hello world'"
    );
}

#[test]
fn join_escapes_single_quotes() {
    assert_eq!(
        shell_escape_join(&words(&["echo", "it's"])),
        r#"echo 'it'\''s'"#
    );
}

#[test]
fn join_quotes_what_a_shell_would_split_or_expand() {
    assert_eq!(shell_escape_join(&words(&["echo", ""])), "echo ''");
    assert_eq!(shell_escape_join(&words(&["echo", "$HOME"])), "echo '$HOME'");
    assert_eq!(shell_escape_join(&words(&["a;b"])), "'a;b'");
    assert_eq!(shell_escape_join(&[]), "");
}

#[test]
fn the_group_is_created_or_put_back_to_no_dispatching() {
    assert_eq!(group_step(None), GroupStep::Create);
    assert_eq!(group_step(Some(0)), GroupStep::Keep);
    assert_eq!(group_step(Some(1)), GroupStep::Enforce);
}

#[test]
fn another_client_may_have_created_the_group() {
    assert_eq!(group_created(Reply::Success("done".into())), Ok(()));
    assert_eq!(
        group_created(Reply::Failure("Group \"busybee\" Already Exists".into())),
        Ok(())
    );
    assert!(group_created(Reply::Failure("disk full".into())).is_err());
    assert!(group_created(Reply::Other("nonsense".into())).is_err());
}

#[test]
fn only_an_added_task_is_a_submission() {
    assert_eq!(added_task(Reply::Added(7, "added 7".into())), Ok(7));
    assert_eq!(
        added_task(Reply::Failure("no such group".into())),
        Err(BusybeeError::EnqueueRejected("no such group".into()))
    );
    assert_eq!(
        added_task(Reply::Success("Success(\"done\")".into())),
        Err(BusybeeError::UnexpectedResponse("Success(\"done\")".into()))
    );
}

#[test]
fn a_signal_pueued_refused_is_an_error() {
    assert_eq!(signal_delivered(Reply::Success("done".into())), Ok(()));
    assert!(signal_delivered(Reply::Failure("no such task".into())).is_err());
    assert_eq!(
        signal_delivered(Reply::Added(7, "AddedTask(7)".into())),
        Err(BusybeeError::UnexpectedResponse("AddedTask(7)".into()))
    );
}

#[test]
fn a_transport_error_names_pueue_lib() {
    assert_eq!(
        io("broken pipe"),
        BusybeeError::Other("pueue-lib io: broken pipe".into())
    );
}

#[test]
fn connecting_gives_up_at_the_deadline() {
    assert_eq!(connect_step(true, 0), ConnectStep::Connected);
    assert_eq!(connect_step(false, 0), ConnectStep::Retry);
    assert_eq!(connect_step(true, SPAWN_DEADLINE_MS), ConnectStep::Connected);
    assert_eq!(connect_step(false, SPAWN_DEADLINE_MS), ConnectStep::GiveUp);
}

// The environment.

#[test]
fn injects_color_force_vars() {
    let out = color_envs(EnvMap::new());
    assert_eq!(out.get("CLICOLOR_FORCE").map(String::as_str), Some("1"));
    assert_eq!(out.get("FORCE_COLOR").map(String::as_str), Some("1"));
    assert_eq!(
        out.get("CARGO_TERM_COLOR").map(String::as_str),
        Some("always")
    );
}

#[test]
fn removes_no_color_if_present() {
    let out = color_envs(m(&[("NO_COLOR", "1")]));
    assert!(!out.contains_key("NO_COLOR"));
}

#[test]
fn preserves_other_envs() {
    let out = color_envs(m(&[("PATH", "/usr/bin"), ("HOME", "/Users/x")]));
    assert_eq!(out.get("PATH").map(String::as_str), Some("/usr/bin"));
    assert_eq!(out.get("HOME").map(String::as_str), Some("/Users/x"));
}

#[test]
fn overrides_existing_color_vars() {
    let out = color_envs(m(&[("FORCE_COLOR", "0")]));
    assert_eq!(out.get("FORCE_COLOR").map(String::as_str), Some("1"));
}

#[test]
fn the_last_assignment_of_a_variable_wins() {
    let mut env = m(&[("A", "1"), ("A", "2")]);
    assert_eq!(env.get("A").map(String::as_str), Some("2"));
    env.insert("A".into(), "3".into());
    assert_eq!(env.duplicate().get("A").map(String::as_str), Some("3"));
    env.remove("A");
    assert_eq!(env.get("A"), None);
}

// Errors.

#[test]
fn daemon_unreachable_maps_to_exit_2() {
    let e = BusybeeError::DaemonUnreachable {
        context: "no socket".into(),
    };
    assert_eq!(exit_code_for(&e), 2);
}

/// The variant covers both daemons, so the context names which one failed
/// and the wording must not contradict it.
#[test]
fn daemon_unreachable_shows_the_context_verbatim() {
    let e = BusybeeError::DaemonUnreachable {
        context: "cannot connect to bzbd at /tmp/bzbd.sock".into(),
    };
    assert_eq!(e.message(), "cannot connect to bzbd at /tmp/bzbd.sock");
}

#[test]
fn other_maps_to_exit_1() {
    let e = BusybeeError::Other("oops".into());
    assert_eq!(exit_code_for(&e), 1);
}

#[test]
fn success_is_zero() {
    assert_eq!(task_result_to_exit_code(&TaskResult::Success), 0);
}

#[test]
fn failed_passes_through_code() {
    assert_eq!(task_result_to_exit_code(&TaskResult::Failed(7)), 7);
    assert_eq!(task_result_to_exit_code(&TaskResult::Failed(1)), 1);
}

#[test]
fn killed_is_130() {
    assert_eq!(task_result_to_exit_code(&TaskResult::Killed), 130);
}

#[test]
fn failed_to_spawn_is_127() {
    let r = TaskResult::FailedToSpawn("nope".into());
    assert_eq!(task_result_to_exit_code(&r), 127);
}

#[test]
fn errored_is_one() {
    assert_eq!(task_result_to_exit_code(&TaskResult::Errored), 1);
}

#[test]
fn dependency_failed_is_one() {
    assert_eq!(task_result_to_exit_code(&TaskResult::DependencyFailed), 1);
}

// Logs.

fn encode(plain: &[u8]) -> Vec<u8> {
    let mut out = Vec::new();
    {
        let mut enc = snap::write::FrameEncoder::new(&mut out);
        enc.write_all(plain).unwrap();
        enc.flush().unwrap();
    }
    out
}

#[test]
fn decompress_empty_is_empty() {
    assert_eq!(decompress_snappy_frames(&[]).unwrap(), Vec::<u8>::new());
}

#[test]
fn decompress_round_trips_repetitive_input() {
    let plain: Vec<u8> = b"createWriterForAudioFileFormat\n".repeat(200);
    let compressed = encode(&plain);
    assert!(compressed.windows(6).any(|w| w == b"sNaPpY"));
    assert_eq!(decompress_snappy_frames(&compressed).unwrap(), plain);
}

#[test]
fn a_log_that_is_not_compressed_is_an_error() {
    let err = decompress_snappy_frames(b"plain text").expect_err("not a frame");
    assert!(!err.message().is_empty());
}

#[test]
fn each_poll_of_a_log_brings_what_is_new() {
    assert_eq!(new_output(b"hello", 0), (b"hello".to_vec(), 5));
    assert_eq!(new_output(b"hello world", 5), (b" world".to_vec(), 11));
    assert_eq!(new_output(b"hello", 5), (Vec::new(), 5));
}

#[test]
fn a_log_reply_is_decompressed_and_cut() {
    let reply = LogReply::Log(Some(encode(b"hello world")));
    assert_eq!(log_chunk(reply, 6), Ok((b"world".to_vec(), 11)));
    assert_eq!(log_chunk(LogReply::Log(None), 3), Ok((Vec::new(), 3)));
    assert_eq!(log_chunk(LogReply::Failure, 3), Ok((Vec::new(), 3)));
    assert_eq!(
        log_chunk(LogReply::Other("nonsense".into()), 3),
        Err(BusybeeError::UnexpectedResponse("nonsense".into()))
    );
    let garbage = log_chunk(LogReply::Log(Some(b"garbage".to_vec())), 3);
    assert!(
        matches!(&garbage, Err(BusybeeError::Other(m)) if m.starts_with("snappy decode: ")),
        "got {garbage:?}"
    );
}

// Nesting.

fn lease(id: u64, state: &str) -> LeaseView {
    LeaseView {
        id,
        label: String::new(),
        tool: "true".into(),
        class: "none".into(),
        cores: 0,
        state: state.into(),
        elapsed_ms: 0,
        ahead: None,
        pueue_task_id: None,
    }
}

#[test]
fn no_marker_submits_normally() {
    let leases = [lease(1, "running")];
    assert_eq!(passthrough_parent(None, &leases), None);
    assert_eq!(passthrough_parent(Some(""), &leases), None);
    assert_eq!(passthrough_parent(Some("nope"), &leases), None);
}

#[test]
fn a_running_parent_passes_through() {
    let leases = [lease(3, "running"), lease(4, "queued")];
    assert_eq!(passthrough_parent(Some("3"), &leases), Some(3));
}

/// An adopted lease is still on the machine; a child inside it would
/// deadlock the same way as under a connected parent.
#[test]
fn an_orphaned_parent_passes_through() {
    assert_eq!(
        passthrough_parent(Some("7"), &[lease(7, "orphaned")]),
        Some(7)
    );
}

#[test]
fn a_queued_lease_is_not_a_parent_we_can_be_inside() {
    assert_eq!(passthrough_parent(Some("4"), &[lease(4, "queued")]), None);
}

#[test]
fn a_stale_id_does_not_disable_gating() {
    assert_eq!(passthrough_parent(Some("99"), &[lease(1, "running")]), None);
    assert_eq!(passthrough_parent(Some("1"), &[]), None);
}

#[test]
fn the_passthrough_line_matches_the_output_contract() {
    assert_eq!(
        passthrough_line(3),
        "busybee: nested under lease 3, passing through"
    );
}

// pueued's tasks.

fn queued(id: usize, group: &str) -> Task {
    Task {
        id,
        group: group.into(),
        label: None,
        command: "echo hi".into(),
        path: "/tmp".into(),
        status: TaskStatus::Queued("Queued".into()),
        created_at_ns: 0,
    }
}

fn running(id: usize, group: &str) -> Task {
    let mut t = queued(id, group);
    t.status = TaskStatus::Running;
    t
}

#[test]
fn count_ahead_is_zero_when_first() {
    let tasks = [queued(1, "busybee"), queued(2, "busybee")];
    assert_eq!(count_ahead(&tasks, 1, "busybee"), 0);
}

#[test]
fn count_ahead_counts_lower_queued_ids_same_group() {
    let tasks = [
        queued(1, "busybee"),
        queued(2, "busybee"),
        queued(3, "busybee"),
    ];
    assert_eq!(count_ahead(&tasks, 3, "busybee"), 2);
}

#[test]
fn count_ahead_ignores_other_groups() {
    let tasks = [queued(1, "default"), queued(2, "busybee")];
    assert_eq!(count_ahead(&tasks, 2, "busybee"), 0);
}

#[test]
fn count_ahead_ignores_running_tasks() {
    let tasks = [running(1, "busybee"), queued(2, "busybee")];
    assert_eq!(count_ahead(&tasks, 2, "busybee"), 0);
}

#[test]
fn snapshot_separates_running_and_queued() {
    let tasks = [
        running(1, "busybee"),
        queued(2, "busybee"),
        queued(3, "busybee"),
    ];
    let snap = QueueSnapshot::from_tasks(&tasks, "busybee");
    assert_eq!(snap.running.as_ref().map(|v| v.id), Some(1));
    assert_eq!(snap.queued.len(), 2);
    assert_eq!(snap.queued[0].id, 2); // sorted by id
}

#[test]
fn snapshot_carries_task_cwd() {
    let mut t = running(1, "busybee");
    t.command = "cmake --build".into();
    t.path = "/tmp/work".into();
    let tasks = [t];
    let snap = QueueSnapshot::from_tasks(&tasks, "busybee");
    assert_eq!(snap.running.as_ref().unwrap().path, "/tmp/work");
}

#[test]
fn the_queue_is_sorted_however_the_tasks_come() {
    let tasks = [
        queued(9, "busybee"),
        queued(3, "busybee"),
        queued(5, "default"),
        queued(4, "busybee"),
    ];
    let snap = QueueSnapshot::from_tasks(&tasks, "busybee");
    let ids: Vec<usize> = snap.queued.iter().map(|t| t.id).collect();
    assert_eq!(ids, [3, 4, 9]);
    assert!(snap.running.is_none());
}

#[test]
fn a_task_is_found_by_its_id() {
    let tasks = [queued(9, "busybee"), queued(3, "busybee")];
    assert_eq!(find_task(&tasks, 3).map(|t| t.id), Some(3));
    assert!(find_task(&tasks, 4).is_none());
}

// Waiting.

#[test]
fn the_first_queued_event_announces_the_position() {
    assert_eq!(
        QueueLines::new().queued(2).as_deref(),
        Some("queued (2 ahead)")
    );
}

#[test]
fn a_queue_position_that_moved_is_reported() {
    let mut lines = QueueLines::new();
    lines.queued(2);
    assert_eq!(lines.queued(1).as_deref(), Some("1 ahead…"));
    assert_eq!(lines.queued(0).as_deref(), Some("0 ahead…"));
}

/// bzbd re-notifies every waiting lease whenever the queue changes, so a
/// lease whose own position did not move would otherwise repeat itself.
#[test]
fn a_queue_position_that_did_not_move_stays_quiet() {
    let mut lines = QueueLines::new();
    lines.queued(2);
    assert_eq!(lines.queued(2), None);
}

#[test]
fn a_quiet_queue_says_so_every_thirty_ticks() {
    let mut lines = QueueLines::new();
    lines.queued(3);
    for tick in 1..HEARTBEAT_TICKS {
        assert_eq!(lines.tick(tick), None, "spoke up at tick {tick}");
    }
    assert_eq!(
        lines.tick(HEARTBEAT_TICKS).as_deref(),
        Some("still queued (3 ahead)")
    );
    for tick in HEARTBEAT_TICKS + 1..2 * HEARTBEAT_TICKS {
        assert_eq!(lines.tick(tick), None, "spoke up at tick {tick}");
    }
    assert_eq!(
        lines.tick(2 * HEARTBEAT_TICKS).as_deref(),
        Some("still queued (3 ahead)")
    );
}

/// A position that keeps moving is already reporting itself.
#[test]
fn movement_postpones_the_heartbeat() {
    let mut lines = QueueLines::new();
    lines.queued(3);
    for tick in 1..HEARTBEAT_TICKS {
        lines.tick(tick);
    }
    lines.queued(2);
    assert_eq!(lines.tick(HEARTBEAT_TICKS), None);
}

/// Before the first event there is no position to report, and claiming one
/// would put a number on the screen that bzbd never said.
#[test]
fn nothing_is_said_before_the_first_queued_event() {
    let mut lines = QueueLines::new();
    for tick in 1..=2 * HEARTBEAT_TICKS {
        assert_eq!(lines.tick(tick), None, "spoke up at tick {tick}");
    }
}

// Versions.

#[test]
fn at_tag_has_zero_distance() {
    assert_eq!(parse_describe("0.1.0-0-gabcdef1").as_deref(), Some("0.1.0"));
}

#[test]
fn adds_commit_distance_to_patch() {
    assert_eq!(parse_describe("0.1.0-5-gabcdef1").as_deref(), Some("0.1.5"));
}

#[test]
fn accepts_v_prefix() {
    assert_eq!(
        parse_describe("v0.2.3-4-gabcdef1").as_deref(),
        Some("0.2.7")
    );
}

#[test]
fn preserves_nonzero_patch_from_tag() {
    assert_eq!(
        parse_describe("1.4.7-3-gabcdef1").as_deref(),
        Some("1.4.10")
    );
}

#[test]
fn rejects_non_numeric_tag() {
    assert!(parse_describe("release-5-gabcdef1").is_none());
}

#[test]
fn rejects_malformed_input() {
    assert!(parse_describe("").is_none());
    assert!(parse_describe("just-a-string").is_none());
}

// Where the daemon keeps its files.

fn places(state: Option<&str>, xdg: Option<&str>, home: Option<&str>) -> Places {
    Places {
        state_dir: state.map(str::to_string),
        xdg_state_home: xdg.map(str::to_string),
        home: home.map(str::to_string),
    }
}

#[test]
fn state_dir_prefers_the_override_then_xdg() {
    assert_eq!(
        state_dir(&places(Some("/tmp/override"), Some("/tmp/xdg"), None)),
        Ok("/tmp/override".to_string())
    );
    assert_eq!(
        state_dir(&places(None, Some("/tmp/xdg"), None)),
        Ok("/tmp/xdg/busybee".to_string())
    );
}

#[test]
fn the_files_stand_in_the_state_directory() {
    let p = places(Some("/s"), None, None);
    assert_eq!(socket_path(&p), Ok("/s/bzbd.sock".to_string()));
    assert_eq!(pid_path(&p), Ok("/s/bzbd.pid".to_string()));
    assert_eq!(log_path(&p), Ok("/s/bzbd.log".to_string()));
    assert_eq!(leases_path(&p), Ok("/s/leases.json".to_string()));
    assert_eq!(
        state_dir(&places(None, None, Some("/home/someone"))),
        Ok("/home/someone/.local/state/busybee".to_string())
    );
    assert!(state_dir(&places(None, None, None)).is_err());
    assert!(state_dir(&places(Some("relative"), None, Some("/home/x"))).is_err());
}
