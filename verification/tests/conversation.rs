//! The lines between the client and the daemon.

use busybee::config::Config;
use busybee::conversation::{
    cancel_reply, fault_reply, greet, greeted, line_text, next_event, parse_args, pong, reload,
    turn, undecodable, Fault, Frame, Greeting, Lines, Turn,
};
use busybee::env::EnvMap;
use busybee::errors::BusybeeError;
use busybee::protocol::{
    Hello, LeaseEvent, LeaseRequest, Request, Response, MAX_LINE_BYTES, PROTOCOL_VERSION,
};

fn message(response: Response) -> String {
    match response {
        Response::Error { message } => message,
        other => panic!("expected an error, got {other:?}"),
    }
}

#[test]
fn foreground_is_off_unless_asked_for() {
    assert!(!parse_args(&[]).unwrap());
    assert!(parse_args(&["--foreground".to_string()]).unwrap());
}

#[test]
fn an_unknown_argument_is_fatal() {
    let err = parse_args(&["--nope".to_string()]).unwrap_err();
    assert!(err.contains("--nope"), "message was {err}");
}

#[test]
fn lines_are_cut_at_newlines_however_they_arrive() {
    let mut lines = Lines::new();
    assert_eq!(lines.next(), Frame::Wait);
    lines.feed(b"{\"hel");
    assert_eq!(lines.next(), Frame::Wait);
    assert!(lines.unterminated());
    lines.feed(b"lo\":1}\nnext\n");
    assert_eq!(lines.next(), Frame::Line(b"{\"hello\":1}".to_vec()));
    assert_eq!(lines.next(), Frame::Line(b"next".to_vec()));
    assert_eq!(lines.next(), Frame::Wait);
    assert!(!lines.unterminated());
}

#[test]
fn an_oversized_hello_is_rejected_instead_of_buffered() {
    let mut lines = Lines::new();
    lines.feed(&vec![b'x'; MAX_LINE_BYTES + 1]);
    assert_eq!(lines.next(), Frame::TooLong);
    let text = message(fault_reply(Fault::TooLong));
    assert!(
        text.contains(&MAX_LINE_BYTES.to_string()),
        "message was {text:?}"
    );
}

#[test]
fn an_oversized_request_is_rejected_instead_of_buffered() {
    let mut lines = Lines::new();
    lines.feed(b"{\"hello\":1}\n");
    assert!(matches!(lines.next(), Frame::Line(_)));
    lines.feed(&vec![b'x'; 2 * MAX_LINE_BYTES]);
    assert_eq!(lines.next(), Frame::TooLong);
}

#[test]
fn a_line_at_the_limit_is_read() {
    let mut lines = Lines::new();
    let mut line = vec![b'x'; MAX_LINE_BYTES - 1];
    line.push(b'\n');
    lines.feed(&line);
    assert!(matches!(lines.next(), Frame::Line(l) if l.len() == MAX_LINE_BYTES - 1));
}

#[test]
fn the_error_for_an_undecodable_request_stays_within_the_line_limit() {
    let text = message(undecodable(&"\u{7f}".repeat(60_000), "expected value"));
    assert!(text.contains("expected value"), "message was {text:?}");
    assert!(text.len() < MAX_LINE_BYTES, "the answer has {} bytes", text.len());
}

#[test]
fn the_error_for_an_unknown_request_variant_stays_within_the_line_limit() {
    let name = "n".repeat(60_000);
    let err = format!("unknown variant `{name}`");
    let text = message(undecodable("\"x\"", &err));
    assert!(text.len() < MAX_LINE_BYTES, "the answer has {} bytes", text.len());
}

#[test]
fn a_request_that_is_not_utf8_gets_an_error_rather_than_a_dropped_connection() {
    assert_eq!(line_text(b"ping".to_vec()), Ok("ping".to_string()));
    assert_eq!(
        line_text("\u{e9}t\u{e9}".as_bytes().to_vec()),
        Ok("\u{e9}t\u{e9}".to_string())
    );
    assert_eq!(line_text(b"\xff\xfe not utf-8".to_vec()), Err(Fault::NotUtf8));
    let text = message(fault_reply(Fault::NotUtf8));
    assert!(text.contains("utf-8"), "message was {text:?}");
}

#[test]
fn an_unterminated_hello_is_refused_instead_of_answered() {
    let mut lines = Lines::new();
    lines.feed(b"{\"hello\":1}");
    assert_eq!(lines.next(), Frame::Wait);
    assert!(lines.unterminated());
    assert!(!message(fault_reply(Fault::Unterminated)).is_empty());
}

#[test]
fn a_protocol_version_mismatch_gets_an_error_and_the_connection_closes() {
    assert!(matches!(
        greet(Ok(Hello {
            hello: PROTOCOL_VERSION
        })),
        Greeting::Welcome
    ));
    let Greeting::Refuse(answer) = greet(Ok(Hello { hello: 99 })) else {
        panic!("another protocol was welcomed");
    };
    let text = message(answer);
    assert!(text.contains("99"), "message was {text:?}");
    assert!(
        text.contains(&PROTOCOL_VERSION.to_string()),
        "message was {text:?}"
    );
    assert!(matches!(
        greet(Err("not a hello".into())),
        Greeting::Refuse(Response::Error { message }) if message.contains("not a hello")
    ));
}

#[test]
fn cancelling_an_unknown_lease_is_an_error() {
    assert!(matches!(cancel_reply(7, true), Response::Ack));
    assert!(message(cancel_reply(7, false)).contains('7'));
}

fn config(text: &str) -> Config {
    Config::parse(text, "/c.toml", &Ok(8)).expect("parse")
}

#[test]
fn a_malformed_file_is_refused_on_reload_and_the_running_config_stays() {
    let broken = Config::parse("pool_size = 6\nmax_concurent = 2\n", "/c.toml", &Ok(8));
    let (kept, answer) = reload(config("pool_size = 4\n"), broken);
    let message = message(answer);
    assert!(message.contains("line 2"), "message was {message:?}");
    assert!(message.contains("pool_size 4"), "message was {message:?}");
    // Still on the old pool: fixing only the typo must reload the file that was
    // being refused.
    assert_eq!(kept, config("pool_size = 4\n"));
    let (taken, _) = reload(kept, Ok(config("pool_size = 6\n")));
    assert_eq!(taken.pool_size, 6);
}

#[test]
fn a_reload_request_picks_up_the_rewritten_file() {
    let (taken, answer) = reload(config("pool_size = 5\n"), Ok(config("pool_size = 6\n")));
    assert_eq!(taken.pool_size, 6);
    assert!(matches!(
        answer,
        Response::ConfigReloaded {
            pool_size: 6,
            max_concurrent: 4,
            drain_deadline_ms: 2000
        }
    ));
}

#[test]
fn events_yields_streamed_events_until_the_daemon_closes() {
    let queued = Response::Event(LeaseEvent::Queued { id: 4, ahead: 1 });
    assert!(matches!(
        next_event(Some(queued), ""),
        Ok(Some(LeaseEvent::Queued { id: 4, ahead: 1 }))
    ));
    assert!(matches!(next_event(None, ""), Ok(None)));
    assert!(matches!(
        next_event(
            Some(Response::Error {
                message: "shutting down".into()
            }),
            ""
        ),
        Err(BusybeeError::Rejected(m)) if m.contains("shutting down")
    ));
    assert!(matches!(
        next_event(Some(Response::Ack), "Ack"),
        Err(BusybeeError::Protocol(m)) if m.contains("Ack")
    ));
}

#[test]
fn a_greeting_is_answered_with_a_pong() {
    let pong = Response::Pong {
        version: "0.4.0".into(),
        pid: 1,
    };
    assert_eq!(greeted(Some(pong), ""), Ok(()));
    assert!(greeted(
        Some(Response::Error {
            message: "no".into()
        }),
        ""
    )
    .is_err());
    assert!(greeted(Some(Response::Ack), "Ack").is_err());
    assert!(greeted(None, "").is_err());
}

#[test]
fn ping_reports_the_crate_version_and_the_daemon_pid() {
    let answer = turn("\"Ping\"", Ok(Request::Ping), "0.4.0", 7);
    assert!(matches!(
        answer,
        Turn::Reply(Response::Pong { version, pid: 7 }) if version == "0.4.0"
    ));
    assert!(matches!(pong("0.4.0", 7), Response::Pong { pid: 7, .. }));
}

#[test]
fn each_request_is_taken_for_what_it_is() {
    assert!(matches!(turn("", Ok(Request::Status), "", 1), Turn::Status));
    assert!(matches!(
        turn("", Ok(Request::Cancel { lease: 7 }), "", 1),
        Turn::Cancel(7)
    ));
    assert!(matches!(turn("", Ok(Request::ConfigReload), "", 1), Turn::Reload));
    let request = LeaseRequest {
        argv: vec!["make".into()],
        cwd: "/tmp".into(),
        env: EnvMap::new(),
        label: None,
        class_override: None,
        cores_wanted: None,
        detached: false,
    };
    assert!(matches!(
        turn("", Ok(Request::Submit(request)), "", 1),
        Turn::Submit(lease) if lease.argv == ["make"]
    ));
    assert!(matches!(
        turn("nonsense", Err("expected value".into()), "", 1),
        Turn::Reply(Response::Error { message })
            if message.contains("nonsense") && message.contains("expected value")
    ));
}

#[test]
fn a_carriage_return_before_the_newline_is_no_part_of_the_line() {
    let mut lines = Lines::new();
    lines.feed(b"ping\r\n\r\na\rb\n\r\r\n");
    assert_eq!(lines.next(), Frame::Line(b"ping".to_vec()));
    assert_eq!(lines.next(), Frame::Line(Vec::new()));
    assert_eq!(lines.next(), Frame::Line(b"a\rb".to_vec()));
    assert_eq!(lines.next(), Frame::Line(b"\r".to_vec()));
    assert_eq!(lines.next(), Frame::Wait);
    assert!(!lines.unterminated());
}

#[test]
fn the_answer_to_a_first_line_that_is_no_greeting_fits_in_a_line() {
    let Greeting::Refuse(answer) = greet(Err("\u{1}".repeat(MAX_LINE_BYTES))) else {
        panic!("welcomed");
    };
    let text = message(answer);
    let wire = 21 + text.chars().map(|c| if c < ' ' { 6 } else { c.len_utf8() + 1 }).sum::<usize>() + 4;
    assert!(wire <= MAX_LINE_BYTES, "{wire} bytes");
    assert!(text.ends_with('…'));
}
