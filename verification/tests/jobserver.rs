//! The pool of tokens in the fifo, and what the builds of the tests are made of.

use busybee::harness::{
    makefile, ninja_file, parse_sample, peak, pueue_config, skip_reason, tool_version, Sample,
};
use busybee::jobserver::{excess, fifo_path, makeflags_value, Drain, Next, Read, MAX_POOL};

#[test]
fn create_rejects_dir_makeflags_cannot_carry() {
    // MAKEFLAGS is split on whitespace, so make would open only "fifo:<prefix>".
    assert!(fifo_path("/tmp/with space", 7, 4).is_err());
    assert!(fifo_path("/tmp/with\ttab", 7, 4).is_err());
    assert_eq!(
        fifo_path("/tmp/state", 7, 4),
        Ok("/tmp/state/jobserver-7".to_string())
    );
}

#[test]
fn create_rejects_a_pool_the_pipe_cannot_hold() {
    // Every token must fit in the pipe at once; 4096 is the smallest capacity
    // on the supported platforms, so one more is an error, not a panic.
    let err = fifo_path("/tmp/state", 7, 4097).expect_err("larger than the pipe");
    assert!(err.contains("4097"), "{err}");
    assert!(fifo_path("/tmp/state", 7, MAX_POOL).is_ok());
}

#[test]
fn make_is_pointed_at_the_fifo() {
    assert_eq!(
        makeflags_value("/run/js"),
        "--jobserver-auth=fifo:/run/js"
    );
}

#[test]
fn a_drain_of_nothing_is_over_at_once() {
    let (drain, next) = Drain::start(0);
    assert_eq!((drain.wanted, drain.got), (0, 0));
    assert_eq!(next, Next::Done(0));
}

#[test]
fn a_drain_collects_until_it_has_enough() {
    let (mut drain, next) = Drain::start(4);
    assert_eq!(next, Next::Read(4));
    assert_eq!(drain.read(Read::Got(3), 1_000_000), Next::Read(1));
    assert_eq!(drain.read(Read::Interrupted, 1_000_000), Next::Read(1));
    assert_eq!(
        drain.read(Read::WouldBlock, 1_500),
        Next::Poll {
            timeout_ms: 2,
            tokens: 1
        }
    );
    assert_eq!(drain.read(Read::Got(1), 0), Next::Done(4));
}

#[test]
fn a_drain_ends_short_at_its_deadline() {
    let (mut drain, _) = Drain::start(4);
    assert_eq!(drain.read(Read::Got(1), 1_000_000), Next::Read(3));
    assert_eq!(drain.read(Read::WouldBlock, 0), Next::Done(1));
}

#[test]
fn a_fifo_nobody_writes_to_is_broken() {
    let (mut drain, _) = Drain::start(4);
    assert_eq!(drain.read(Read::Eof, 1_000_000), Next::Broken);
}

#[test]
fn tokens_beyond_the_expected_are_excess() {
    assert_eq!(excess(6, 4), 2);
    assert_eq!(excess(4, 4), 0);
    assert_eq!(excess(1, 4), 0);
}

#[test]
fn the_highest_count_is_the_peak() {
    let sample = |total| Sample {
        name: "x".into(),
        total,
        own: 1,
    };
    assert_eq!(peak(&[sample(2), sample(5), sample(3)]), 5);
}

#[test]
fn a_build_file_has_a_target_per_job() {
    assert!(makefile(0, "0.2").starts_with("COUNTER_NAME ?= a\nTARGETS := \n.PHONY: "));
    assert!(makefile(1, "0.2").contains("\nTARGETS := t1\n"));
    assert!(makefile(3, "0.2").contains("\nTARGETS := t1 t2 t3\n"));
    assert!(ninja_file(0, "0.2").ends_with("build run: phony\ndefault run\n"));
    let text = makefile(2, "0.2");
    assert!(text.contains("0.2"), "makefile was {text}");
    let text = ninja_file(2, "0.2");
    assert!(text.contains("0.2"), "ninja file was {text}");
}

#[test]
fn an_old_tool_is_skipped() {
    assert_eq!(tool_version("GNU Make 4.4.1\nBuilt for x"), Some((4, 4)));
    assert_eq!(tool_version("1.13.0"), Some((1, 13)));
    assert_eq!(skip_reason("make", Some((4, 4)), (4, 4)), None);
    assert!(skip_reason("make", Some((3, 81)), (4, 4)).is_some_and(|r| r.contains("make")));
    assert!(skip_reason("ninja", None, (1, 13)).is_some());
    assert!(parse_sample("x", "not a sample").is_none());
}

#[test]
fn the_daemon_under_test_keeps_to_its_own_directory() {
    let text = pueue_config("/tmp/p", "/tmp/p/pueue.sock");
    assert!(text.contains("/tmp/p/pueue.sock"), "config was {text}");
}
