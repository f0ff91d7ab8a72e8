//! What the client prints and returns.

use busybee::classify::Class;
use busybee::cli::{missing_command_line, Cli, Command, ConfigAction, Mode};
use busybee::client::{
    cancelled, detached, exit_line, finished, format_elapsed, lease_request, others, reloaded,
    running_line, signal_event, status_of, Deed, Detached, Heard, Session, SignalEvent, CANCELLED,
};
use busybee::env::EnvMap;
use busybee::errors::BusybeeError;
use busybee::protocol::{LeaseEvent, LeaseView, Response, StatusReply};
use busybee::report::{approx_in_use, cores, elapsed, printable, render, row};

fn words(argv: &[&str]) -> Vec<String> {
    argv.iter().map(|s| s.to_string()).collect()
}

fn cli(cmd: &[&str]) -> Cli {
    Cli {
        name: None,
        detach: false,
        class: None,
        cores: None,
        command: None,
        cmd: words(cmd),
    }
}

fn subcommand(command: Command) -> Cli {
    let mut cli = cli(&[]);
    cli.command = Some(command);
    cli
}

#[test]
fn blocking_mode_with_trailing_command() {
    let cli = cli(&["echo", "hi"]);
    assert_eq!(cli.mode(), Mode::Blocking);
    assert_eq!(cli.cmd, vec!["echo", "hi"]);
    assert_eq!(cli.name, None);
    assert!(!cli.detach);
}

#[test]
fn name_is_captured() {
    let mut cli = cli(&["cargo", "build"]);
    cli.name = Some("my build".into());
    assert_eq!(cli.mode(), Mode::Blocking);
    let request = lease_request(
        cli.cmd,
        "/tmp".into(),
        EnvMap::new(),
        cli.name,
        cli.class,
        cli.cores,
        cli.detach,
    );
    assert_eq!(request.label.as_deref(), Some("my build"));
    assert_eq!(request.argv, vec!["cargo", "build"]);
}

#[test]
fn detach_mode() {
    let mut cli = cli(&["echo", "hi"]);
    cli.detach = true;
    assert_eq!(cli.mode(), Mode::Detach);
    assert!(cli.detach);
}

#[test]
fn monitor_subcommand() {
    assert_eq!(subcommand(Command::Monitor).mode(), Mode::Monitor);
}

#[test]
fn status_subcommand_defaults_to_the_human_table() {
    assert_eq!(
        subcommand(Command::Status { json: false }).mode(),
        Mode::Status { json: false }
    );
    assert_eq!(
        subcommand(Command::Status { json: true }).mode(),
        Mode::Status { json: true }
    );
}

#[test]
fn cancel_subcommand_takes_a_lease_id() {
    assert_eq!(
        subcommand(Command::Cancel { lease: 7 }).mode(),
        Mode::Cancel(7)
    );
}

#[test]
fn class_and_cores_are_captured() {
    let mut cli = cli(&["xcodebuild"]);
    cli.class = Some(Class::Static);
    cli.cores = Some(2);
    assert_eq!(cli.mode(), Mode::Blocking);
    let request = lease_request(
        cli.cmd,
        "/tmp".into(),
        EnvMap::new(),
        cli.name,
        cli.class,
        cli.cores,
        cli.detach,
    );
    assert_eq!(request.class_override, Some(Class::Static));
    assert_eq!(request.cores_wanted, Some(2));
    assert_eq!(request.argv, vec!["xcodebuild"]);
    assert!(!request.detached);
}

/// The class vocabulary is closed, so a typo is refused rather than
/// silently ignored on the way to the daemon.
#[test]
fn cli_an_unknown_class_is_refused() {
    let parsed = Class::parse("statik");
    assert!(parsed.is_err(), "an unknown class was accepted");
}

/// Neither flag is required: `busybee -- <cmd>` stays the whole API.
#[test]
fn class_and_cores_default_to_unset() {
    let cli = cli(&["make"]);
    assert_eq!(cli.mode(), Mode::Blocking);
    let request = lease_request(
        cli.cmd,
        "/tmp".into(),
        EnvMap::new(),
        cli.name,
        cli.class,
        cli.cores,
        cli.detach,
    );
    assert_eq!(request.class_override, None);
    assert_eq!(request.cores_wanted, None);
}

#[test]
fn config_subcommands() {
    assert_eq!(
        subcommand(Command::Config {
            action: ConfigAction::Show
        })
        .mode(),
        Mode::Config(ConfigAction::Show)
    );
    assert_eq!(
        subcommand(Command::Config {
            action: ConfigAction::Reload
        })
        .mode(),
        Mode::Config(ConfigAction::Reload)
    );
}

#[test]
fn no_args_is_missing_command() {
    assert_eq!(cli(&[]).mode(), Mode::MissingCommand);
    let mut detached = cli(&[]);
    detached.detach = true;
    assert_eq!(detached.mode(), Mode::MissingCommand);
    assert!(missing_command_line("busybee").contains("busybee"));
}

#[test]
fn hyphen_values_in_user_cmd_are_preserved() {
    let argv = ["cmake", "--build", "build", "--target", "x"];
    let cli = cli(&argv);
    assert_eq!(cli.mode(), Mode::Blocking);
    assert_eq!(cli.cmd, argv);
}

#[test]
fn format_elapsed_under_a_minute() {
    assert_eq!(format_elapsed(7), "7s");
    assert_eq!(format_elapsed(59), "59s");
}

#[test]
fn format_elapsed_minutes_and_hours() {
    assert_eq!(format_elapsed(60), "1m00s");
    assert_eq!(format_elapsed(2 * 60 + 14), "2m14s");
    assert_eq!(format_elapsed(3600), "1h00m");
    assert_eq!(format_elapsed(3600 + 23 * 60 + 5), "1h23m");
}

#[test]
fn exit_line_includes_elapsed_when_started() {
    let line = exit_line(0, Some(134));
    assert_eq!(line, "busybee: command exited 0 (elapsed 2m14s)");
}

#[test]
fn exit_line_omits_elapsed_when_never_started() {
    assert_eq!(exit_line(130, None), "busybee: command exited 130");
    assert_eq!(exit_line(-1, None), "busybee: command exited -1");
}

/// Both shapes are those of the client's output contract.
#[test]
fn the_running_line_matches_the_output_contract() {
    assert_eq!(
        running_line("cmake", "jobserver", 9, 18, 1),
        "running — cmake, jobserver, sharing 18-token pool with 1 other task"
    );
    assert_eq!(
        running_line("xcodebuild", "static", 9, 18, 2),
        "running — xcodebuild, static, holding 9/18 cores (2 other tasks active)"
    );
}

/// The one running task has no peers, and the line still has to read like
/// a sentence.
#[test]
fn a_task_running_alone_reports_no_peers() {
    assert_eq!(
        running_line("make", "none", 8, 8, 0),
        "running — make, none, holding 8/8 cores (0 other tasks active)"
    );
    assert_eq!(others(1), "1 other task");
}

#[test]
fn first_signal_is_soft_second_is_hard() {
    assert_eq!(signal_event(0), SignalEvent::SoftCancel);
    assert_eq!(signal_event(1), SignalEvent::HardKill);
}

fn said(deeds: &[Deed]) -> Vec<&str> {
    deeds
        .iter()
        .filter_map(|d| match d {
            Deed::Say(text) => Some(text.as_str()),
            _ => None,
        })
        .collect()
}

fn exits(deeds: &[Deed]) -> Vec<i32> {
    deeds
        .iter()
        .filter_map(|d| match d {
            Deed::Exit(code) => Some(*code),
            _ => None,
        })
        .collect()
}

#[test]
fn a_session_follows_its_lease_to_the_exit_code() {
    let mut session = Session::new("make".into());
    let queued = session.heard(Heard::Event(LeaseEvent::Queued { id: 1, ahead: 2 }), 0);
    assert!(said(&queued).iter().any(|l| l.contains("queued (2 ahead)")));
    let notice = session.heard(
        Heard::Event(LeaseEvent::Notice {
            text: "-j8 is ignored".into(),
        }),
        0,
    );
    assert!(said(&notice).iter().any(|l| l.contains("-j8 is ignored")));
    let admitted = session.heard(
        Heard::Event(LeaseEvent::Admitted {
            id: 1,
            pueue_task_id: 3,
            class: "jobserver".into(),
            cores: 0,
            pool_size: 18,
            peers: 0,
        }),
        1000,
    );
    assert!(admitted.iter().any(|d| matches!(d, Deed::Follow(3))));
    let end = session.heard(
        Heard::Event(LeaseEvent::Finished {
            id: 1,
            exit_code: 7,
        }),
        135_000,
    );
    assert_eq!(exits(&end), [7]);
    assert!(end.iter().any(|d| matches!(d, Deed::Sweep)));
    assert!(
        said(&end).contains(&"busybee: command exited 7 (elapsed 2m14s)"),
        "deeds were {end:?}"
    );
}

#[test]
fn a_stream_that_ends_early_is_an_error() {
    let mut session = Session::new("make".into());
    let end = session.heard(Heard::End, 0);
    assert!(
        end.iter().any(|d| matches!(d, Deed::Fail(_))),
        "deeds were {end:?}"
    );
    assert!(exits(&end).is_empty());
    let mut session = Session::new("make".into());
    let failed = session.heard(Heard::Failed(BusybeeError::Other("reset".into())), 0);
    assert!(failed
        .iter()
        .any(|d| matches!(d, Deed::Fail(e) if e.message().contains("reset"))));
    let mut session = Session::new("make".into());
    let refused = session.heard(Heard::Failed(BusybeeError::Rejected("full".into())), 0);
    assert!(
        matches!(&refused[..], [Deed::Fail(BusybeeError::Rejected(m))] if m == "full"),
        "{refused:?}"
    );
}

#[test]
fn a_signal_hangs_up_and_exits_with_the_cancel_code() {
    let session = Session::new("make".into());
    let soft = session.signalled(SignalEvent::SoftCancel, 0);
    assert!(soft.iter().any(|d| matches!(d, Deed::Hangup)), "{soft:?}");
    assert!(said(&soft).contains(&"busybee: command exited 130"), "{soft:?}");
    assert_eq!(exits(&soft), [CANCELLED]);
    let hard = session.signalled(SignalEvent::HardKill, 0);
    assert!(said(&hard).is_empty(), "{hard:?}");
    assert_eq!(exits(&hard), [CANCELLED]);
}

#[test]
fn a_quiet_session_speaks_up() {
    let mut session = Session::new("make".into());
    session.heard(Heard::Event(LeaseEvent::Queued { id: 1, ahead: 2 }), 0);
    let mut lines = Vec::new();
    for _ in 0..30 {
        for deed in session.ticked() {
            if let Deed::Say(text) = deed {
                lines.push(text);
            }
        }
    }
    assert_eq!(lines.len(), 1, "lines were {lines:?}");
    assert!(lines[0].contains("still queued (2 ahead)"));
}

#[test]
fn a_detached_client_reports_its_lease_and_leaves() {
    assert!(matches!(
        detached(Some(LeaseEvent::Queued { id: 4, ahead: 1 })),
        Detached::Done(line) if line.contains('4')
    ));
    assert!(matches!(
        detached(Some(LeaseEvent::Notice { text: "careful".into() })),
        Detached::Note(line) if line.contains("careful")
    ));
    assert!(matches!(detached(None), Detached::Fail(_)));
}

#[test]
fn only_a_finished_event_ends_a_lease() {
    assert!(finished(&LeaseEvent::Finished {
        id: 1,
        exit_code: 0
    }));
    assert!(!finished(&LeaseEvent::Queued { id: 1, ahead: 0 }));
}

#[test]
fn each_answer_is_read_for_its_own_request() {
    assert!(cancelled(7, Response::Ack, "").is_ok_and(|line| line.contains('7')));
    assert!(cancelled(
        7,
        Response::Error {
            message: "no lease 7".into()
        },
        ""
    )
    .is_err_and(|e| e.contains("no lease 7")));
    assert!(cancelled(
        7,
        Response::Pong {
            version: "0.4.0".into(),
            pid: 1
        },
        "Pong"
    )
    .is_err_and(|e| e.contains("Pong")));
    assert!(reloaded(
        Response::ConfigReloaded {
            pool_size: 18,
            max_concurrent: 4,
            drain_deadline_ms: 2000
        },
        ""
    )
    .is_ok_and(|line| line.contains("18")));
    assert!(reloaded(
        Response::Error {
            message: "line 2".into()
        },
        ""
    )
    .is_err_and(|e| e.contains("line 2")));
    assert!(status_of(Response::Status(reply()), "").is_ok_and(|r| r.pool_size == 18));
    assert!(status_of(Response::Ack, "Ack").is_err_and(|e| e.contains("Ack")));
}

fn reply() -> StatusReply {
    StatusReply {
        pool_size: 18,
        free: 6,
        held: 9,
        leases: vec![LeaseView {
            id: 41,
            label: "ui build".into(),
            tool: "xcodebuild".into(),
            class: "static".into(),
            cores: 9,
            state: "running".into(),
            elapsed_ms: 132_000,
            ahead: None,
            pueue_task_id: Some(3),
        }],
    }
}

/// A label is whatever the caller passed to `--name`, so it can carry a
/// newline or an escape sequence. One lease is still one row, and the
/// terminal above the table is still the caller's.
#[test]
fn a_control_character_in_a_label_cannot_break_the_table() {
    let mut reply = reply();
    reply.leases[0].label = "ui build\nfailed\u{1b}[2K".into();

    let rendered = render(&reply);

    assert_eq!(rendered.lines().count(), 2, "rendered {rendered:?}");
    assert!(!rendered.contains('\u{1b}'), "rendered {rendered:?}");
    assert!(
        rendered.contains(r"ui build\nfailed\u{1b}[2K"),
        "rendered {rendered:?}"
    );
}

/// The pool and the fifo are sampled separately, so the three numbers can
/// cross. A wrapped subtraction would report four billion tokens in use.
#[test]
fn approx_in_use_clamps_at_zero() {
    let drifted = StatusReply {
        pool_size: 8,
        free: 8,
        held: 4,
        leases: vec![],
    };
    assert_eq!(approx_in_use(&drifted), 0);
    assert_eq!(approx_in_use(&reply()), 3);
}

#[test]
fn a_row_says_what_its_lease_is_doing() {
    let reply = reply();
    let line = row(&reply.leases[0]);
    for part in ["#41", "xcodebuild", "static", "holding 9", "2m12s", "ui build"] {
        assert!(line.contains(part), "{part} is missing from {line:?}");
    }
    assert_eq!(cores(&reply.leases[0]), "holding 9");
    assert_eq!(elapsed(132_999), "2m12s");
    assert_eq!(printable("tab\there"), r"tab\there");
    assert_eq!(printable("plain — ünïcode"), "plain — ünïcode");
}
