//! What the monitor draws.

use busybee::cpu::{parse_stat, usage_percent, usages, CoreSample};
use busybee::gauge::{
    perimeter, pick_size, shade_for_distance, size_at, usage_color, Cell, Color, CompactGauge,
    Rect, SizeVariant,
};
use busybee::panel::{
    compose_line, line_parts, marquee_window, primary_for, truncate, StatusPanel,
    MARQUEE_SEPARATOR, MARQUEE_STEP_MS,
};
use busybee::pool::{
    absent, legend as legend_of, segments, Poll, Pool, PoolGauge, PoolView, FREE, HELD, IN_USE,
};
use busybee::protocol::{LeaseView, StatusReply};
use busybee::status::{QueueSnapshot, TaskView};
use busybee::table::LeaseTable;

fn reply() -> StatusReply {
    StatusReply {
        pool_size: 18,
        free: 6,
        held: 9,
        leases: vec![],
    }
}

fn idle() -> StatusReply {
    StatusReply {
        pool_size: 18,
        free: 18,
        held: 0,
        leases: vec![],
    }
}

fn legend(view: &PoolView) -> String {
    PoolGauge { view }.lines(60).1
}

/// A poll that fails against a live daemon loses one sample. Clearing the
/// view for it would blank the panel every time a status request is late.
#[test]
fn a_failed_poll_keeps_the_last_view_and_marks_it_stale() {
    let mut pool = Pool::default();
    pool.record(Poll::Reply(reply()), 1000);
    pool.record(Poll::Failed("connection reset".into()), 4000);

    let view = pool.shown(4000);
    assert!(matches!(
        view,
        PoolView::Known {
            stale_ms: Some(3000),
            ..
        }
    ));
    assert_eq!(
        legend(&view),
        "(stale 3s) · 18 tokens · 9 held · ~3 in use · 6 free"
    );
}

/// The next answer replaces the stale one.
#[test]
fn a_later_reply_clears_the_stale_marker() {
    let mut pool = Pool::default();
    pool.record(Poll::Reply(reply()), 0);
    pool.record(Poll::Failed("connection reset".into()), 0);
    pool.record(Poll::Reply(reply()), 1000);

    let view = pool.shown(1000);
    assert!(matches!(view, PoolView::Known { stale_ms: None, .. }));
    assert!(!legend(&view).contains("stale"));
}

/// A daemon that went away takes its pool with it: the leases it reported
/// are not on the machine any more, so showing them as stale would be
/// showing load that is over.
#[test]
fn a_daemon_that_went_away_clears_the_view() {
    let mut pool = Pool::default();
    pool.record(Poll::Reply(reply()), 0);
    pool.record(Poll::Absent, 1000);

    assert!(matches!(pool.shown(1000), PoolView::Absent));
}

/// A daemon that died leaves its tasks running under pueued and a record of
/// them in `leases.json`, so a socket nobody answers is only an idle pool
/// when that record is empty.
#[test]
fn leases_left_behind_by_a_dead_daemon_are_not_an_idle_pool() {
    assert!(matches!(absent(Ok(0)), Poll::Absent));

    let Poll::Crashed(reason) = absent(Ok(2)) else {
        panic!("a record of two leases is not an idle pool");
    };
    assert!(reason.contains('2'), "reason was {reason:?}");
}

/// The record is the only evidence of what a dead daemon left running, so
/// failing to read it is an unknown pool, not an idle one.
#[test]
fn an_unreadable_lease_record_is_reported_rather_than_ignored() {
    let Poll::Crashed(reason) = absent(Err("leases.json is not JSON".into())) else {
        panic!("an unreadable record is not an idle pool");
    };
    assert!(reason.contains("not JSON"), "reason was {reason:?}");
}

/// The pool of a daemon that crashed is unknown, not the pool it last
/// reported: the leases in that reply may have ended with it.
#[test]
fn a_crashed_daemon_replaces_the_last_view_with_the_reason() {
    let mut pool = Pool::default();
    pool.record(Poll::Reply(reply()), 0);
    pool.record(
        Poll::Crashed("bzbd is not running, but 2 leases are recorded".into()),
        1000,
    );

    assert!(matches!(
        pool.shown(1000),
        PoolView::Unreachable(reason) if reason.contains("2 leases")
    ));
}

/// With no reply to fall back on there is nothing to mark stale, and a
/// daemon that is not answering is not an idle pool.
#[test]
fn a_failure_before_any_reply_is_reported_as_unreachable() {
    let mut pool = Pool::default();
    pool.record(Poll::Failed("connection reset".into()), 0);

    assert!(matches!(pool.shown(0), PoolView::Unreachable(reason)
        if reason == "connection reset"));
}

#[test]
fn nothing_is_known_before_the_first_poll() {
    assert!(matches!(Pool::default().shown(0), PoolView::Pending));
}

// The processors.

#[test]
fn zero_total_delta_is_zero_usage() {
    let s = CoreSample {
        user: 10,
        system: 5,
        idle: 100,
        nice: 0,
    };
    assert_eq!(usage_percent(s, s), 0);
}

#[test]
fn half_active_half_idle_is_fifty() {
    let prev = CoreSample::default();
    let curr = CoreSample {
        user: 50,
        system: 0,
        idle: 50,
        nice: 0,
    };
    assert_eq!(usage_percent(prev, curr), 50);
    assert_eq!(curr.total(), 100);
    assert_eq!(curr.active(), 50);
    assert_eq!(usages(&[prev, curr], &[curr, curr]), [50, 0]);
}

#[test]
fn one_sample_is_read_per_processor() {
    let text = "cpu  10 0 10 80 0 0 0 0 0 0\n\
                cpu0 4 1 5 40 9 0 0 0 0 0\n\
                cpu1 6 2 5 40 9 0 0 0 0 0\n\
                intr 12345 0 0\n";
    assert_eq!(
        parse_stat(text),
        [
            CoreSample {
                user: 4,
                system: 5,
                idle: 40,
                nice: 1,
            },
            CoreSample {
                user: 6,
                system: 5,
                idle: 40,
                nice: 2,
            },
        ]
    );
}

// The gauges of the processors.

fn rect(width: u16, height: u16) -> Rect {
    Rect {
        x: 0,
        y: 0,
        width,
        height,
    }
}

fn gauge(usages: &[u8]) -> Vec<Cell> {
    CompactGauge {
        usages,
        skeleton: Color::DarkGray,
    }
    .cells(rect(9, 6))
}

#[test]
fn renders_zero_usage_as_all_skeleton() {
    // At 0% the entire perimeter should be '░'.
    let cells = gauge(&[0]);
    assert!(cells.iter().any(|c| c.ch == '░'));
    assert!(cells
        .iter()
        .filter(|c| c.ch == '░')
        .all(|c| c.color == Color::DarkGray));
}

#[test]
fn renders_centered_percent_text() {
    // Size 7x5 centers the text on the middle row.
    let cells = gauge(&[42]);
    let four = cells.iter().find(|c| c.ch == '4').expect("a '4'");
    let two = cells.iter().find(|c| c.ch == '2').expect("a '2'");
    assert_eq!((two.x, two.y), (four.x + 1, four.y));
}

#[test]
fn full_usage_fills_entire_perimeter_with_fg_color() {
    let cells = gauge(&[100]);
    let fg = usage_color(100); // Red
    for (cx, cy) in perimeter(SizeVariant { cols: 7, rows: 5 }) {
        let cell = cells
            .iter()
            .rev()
            .find(|c| c.x == 1 + cx && c.y == cy)
            .expect("a perimeter cell");
        assert_eq!(
            cell.color, fg,
            "perimeter cell at ({cx},{cy}) has wrong fg color"
        );
    }
}

#[test]
fn perimeter_normal_size_starts_at_bottom_center_and_closes_clockwise() {
    let p = perimeter(SizeVariant { cols: 7, rows: 5 });
    // Should start just left of center on the bottom row (col 2, row 4)
    assert_eq!(p.first(), Some(&(2, 4)));
    // Should end just right of center on the bottom row (col 4, row 4)
    assert_eq!(p.last(), Some(&(4, 4)));
    // No duplicates.
    let mut sorted = p.clone();
    sorted.sort();
    sorted.dedup();
    assert_eq!(sorted.len(), p.len());
}

#[test]
fn pick_size_prefers_largest_that_fits_n() {
    // Plenty of room for 4 large cells: 4 * (7+1) = 32 wide.
    let sz = pick_size(rect(40, 10), 4);
    assert_eq!(sz, size_at(0));
    assert_eq!(sz, SizeVariant { cols: 7, rows: 5 });
}

#[test]
fn pick_size_falls_back_to_smallest_when_cramped() {
    let sz = pick_size(rect(12, 6), 16);
    assert_eq!(sz, size_at(2));
}

#[test]
fn shades_go_dark_to_light_toward_edge() {
    assert_eq!(shade_for_distance(5), '█');
    assert_eq!(shade_for_distance(3), '█');
    assert_eq!(shade_for_distance(2), '▓');
    assert_eq!(shade_for_distance(1), '▒');
    assert_eq!(shade_for_distance(0), '░');
}

#[test]
fn usage_color_thresholds() {
    assert_eq!(usage_color(0), Color::Green);
    assert_eq!(usage_color(39), Color::Green);
    assert_eq!(usage_color(40), Color::Yellow);
    assert_eq!(usage_color(74), Color::Yellow);
    assert_eq!(usage_color(75), Color::Red);
    assert_eq!(usage_color(100), Color::Red);
}

#[test]
fn a_gauge_never_draws_outside_its_area() {
    let many = [50u8; 40];
    for (width, height) in [(1, 1), (3, 2), (9, 6), (20, 7), (80, 24)] {
        let area = Rect {
            x: 3,
            y: 2,
            width,
            height,
        };
        let cells = CompactGauge {
            usages: &many,
            skeleton: Color::DarkGray,
        }
        .cells(area);
        assert!(cells.iter().all(|c| c.x >= 3
            && c.y >= 2
            && c.x < 3 + width
            && c.y < 2 + height));
    }
}

// The table of leases.

fn lease(id: u64, state: &str, class: &str) -> LeaseView {
    LeaseView {
        id,
        label: format!("lease {id}"),
        tool: "cargo".into(),
        class: class.into(),
        cores: 9,
        state: state.into(),
        elapsed_ms: 132_000,
        ahead: if state == "queued" { Some(2) } else { None },
        pueue_task_id: if state == "running" { Some(3) } else { None },
    }
}

fn three() -> Vec<LeaseView> {
    let mut queued = lease(3, "queued", "jobserver");
    queued.label = "waiting build".into();
    let mut jobserver = lease(2, "running", "jobserver");
    jobserver.tool = "make".into();
    let mut xcode = lease(1, "running", "static");
    xcode.tool = "xcodebuild".into();
    // The daemon sends the queued lease last; the table must not depend on
    // that, so hand it over first.
    vec![queued, jobserver, xcode]
}

fn draw(leases: &[LeaseView]) -> Vec<String> {
    LeaseTable { leases }
        .rows()
        .iter()
        .map(|row| row.cells.join(" "))
        .collect()
}

#[test]
fn a_static_a_jobserver_and_a_queued_lease_each_get_a_row() {
    let lines = draw(&three());

    assert!(lines[0].contains("#2"), "rows were {lines:?}");
    assert!(lines[0].contains("make"), "rows were {lines:?}");
    assert!(lines[0].contains("using ~9"), "rows were {lines:?}");
    assert!(lines[1].contains("#1"), "rows were {lines:?}");
    assert!(lines[1].contains("xcodebuild"), "rows were {lines:?}");
    assert!(lines[1].contains("holding 9"), "rows were {lines:?}");
    assert!(lines[2].contains("#3"), "rows were {lines:?}");
    assert!(lines[2].contains("2 ahead"), "rows were {lines:?}");
    assert!(lines[2].contains("waiting build"), "rows were {lines:?}");
}

#[test]
fn running_leases_are_listed_before_queued_ones() {
    let lines = draw(&three());
    let states: Vec<&str> = lines
        .iter()
        .map(|line| {
            if line.contains("running") {
                "running"
            } else {
                "queued"
            }
        })
        .collect();
    assert_eq!(states, ["running", "running", "queued"]);
}

#[test]
fn every_row_carries_the_elapsed_time() {
    let lines = draw(&three());
    assert!(
        lines.iter().all(|line| line.contains("2m12s")),
        "rows were {lines:?}"
    );
}

/// A label is the caller's `--name` and a tool is the basename of whatever
/// they wrapped, so either can carry an escape sequence. Cells are one row
/// of a redrawn TUI; a raw escape in one would rewrite the rest of it.
#[test]
fn a_control_character_in_a_label_is_shown_as_its_escape() {
    let mut leases = vec![lease(1, "running", "static")];
    leases[0].label = "build\u{1b}[2K".into();

    let lines = draw(&leases);

    assert!(!lines[0].contains('\u{1b}'), "row was {:?}", lines[0]);
    assert!(
        lines[0].contains(r"build\u{1b}[2K"),
        "row was {:?}",
        lines[0]
    );
}

#[test]
fn no_leases_draws_nothing() {
    assert!(draw(&[]).is_empty());
}

// The bar of the pool.

fn bar(view: &PoolView, width: u16) -> (String, String) {
    PoolGauge { view }.lines(width)
}

fn known(reply: &StatusReply, stale_ms: Option<u64>) -> PoolView<'_> {
    PoolView::Known { reply, stale_ms }
}

#[test]
fn an_idle_pool_is_all_free_cells() {
    let reply = idle();
    let lines = bar(&known(&reply, None), 60);

    assert_eq!(lines.0.trim_end(), FREE.to_string().repeat(18));
    assert_eq!(
        lines.1.trim_end(),
        "18 tokens · 0 held · ~0 in use · 18 free"
    );
}

#[test]
fn held_in_use_and_free_share_the_bar() {
    let reply = reply();
    let lines = bar(&known(&reply, None), 60);

    let expected = format!(
        "{}{}{}",
        HELD.to_string().repeat(9),
        IN_USE.to_string().repeat(3),
        FREE.to_string().repeat(6)
    );
    assert_eq!(lines.0.trim_end(), expected);
    assert_eq!(
        lines.1.trim_end(),
        "18 tokens · 9 held · ~3 in use · 6 free"
    );
}

/// The estimate is an estimate wherever it appears.
#[test]
fn the_in_use_figure_is_marked_approximate() {
    let reply = reply();
    let lines = bar(&known(&reply, None), 60);
    assert!(lines.1.contains("~3 in use"), "legend was {:?}", lines.1);
}

/// A bar wider than the terminal would be cut off at the right edge, which
/// is where the free tokens are.
#[test]
fn a_pool_wider_than_the_terminal_is_scaled_into_it() {
    let reply = reply();
    let lines = bar(&known(&reply, None), 9);

    let drawn = lines.0.trim_end();
    assert_eq!(drawn.chars().count(), 9, "bar was {drawn:?}");
    assert!(drawn.contains(FREE), "bar was {drawn:?}");
    assert!(drawn.contains(HELD), "bar was {drawn:?}");
}

#[test]
fn a_stale_view_says_how_old_it_is() {
    let reply = reply();
    let lines = bar(&known(&reply, Some(3000)), 60);
    assert!(
        lines.1.trim_end().starts_with("(stale 3s)"),
        "legend was {:?}",
        lines.1
    );
    assert_eq!(legend_of(&reply, Some(3000)), lines.1);
}

/// The counts are variable-length, so a marker after them is the first
/// thing a narrow terminal clips, and clipping it turns a degraded poll
/// into numbers that read as current.
#[test]
fn a_narrow_terminal_clips_the_counts_before_the_stale_marker() {
    let reply = reply();
    let lines = bar(&known(&reply, Some(3000)), 12);
    let shown: String = lines.1.chars().take(12).collect();
    assert!(shown.contains("stale 3s"), "legend was {shown:?}");
}

/// Before the first poll comes back the monitor has not asked anyone
/// anything yet, and "idle" would be a claim about a pool it has not looked
/// at.
#[test]
fn a_pool_that_has_not_answered_yet_is_not_reported_as_idle() {
    let lines = bar(&PoolView::Pending, 60);
    assert_eq!(lines.0.trim_end(), "pool unknown (waiting for bzbd)");
    assert_eq!(lines.1.trim_end(), "");
}

#[test]
fn no_daemon_is_reported_as_an_idle_pool_with_the_reason() {
    let lines = bar(&PoolView::Absent, 60);
    assert_eq!(lines.0.trim_end(), "pool idle (daemon not running)");
    assert_eq!(lines.1.trim_end(), "");
}

/// A daemon that is there and silent is not an idle pool, and saying so
/// would be the silent fallback the design rules out.
#[test]
fn a_daemon_that_does_not_answer_is_not_reported_as_idle() {
    let lines = bar(&PoolView::Unreachable("connection reset"), 60);
    assert!(
        lines.0.starts_with("pool unknown:"),
        "line was {:?}",
        lines.0
    );
    assert!(
        lines.0.contains("connection reset"),
        "line was {:?}",
        lines.0
    );
}

#[test]
fn a_very_narrow_terminal_renders_without_panicking() {
    let reply = reply();
    for width in 1..=6 {
        bar(&known(&reply, None), width);
        bar(&PoolView::Absent, width);
        bar(&PoolView::Pending, width);
    }
}

/// Scaling the pool into a narrower bar must not round the free tokens
/// away: a bar that says the machine is full when six tokens are there for
/// the taking is the one reading the operator acts on.
#[test]
fn scaling_never_rounds_a_free_segment_to_nothing() {
    let reply = StatusReply {
        pool_size: 18,
        free: 2,
        held: 8,
        leases: vec![],
    };
    let (held, in_use, free) = segments(&reply, 10);
    assert_eq!(held + in_use + free, 10, "bar was {held}/{in_use}/{free}");
    assert!(free > 0, "bar was {held}/{in_use}/{free}");
}

/// The same holds for a single held token: a static lease keeping capacity
/// out of the pool is the reason the machine feels slow, and a bar that
/// scales it away leaves nothing on screen that says so.
#[test]
fn scaling_never_rounds_a_held_segment_to_nothing() {
    let reply = StatusReply {
        pool_size: 18,
        free: 1,
        held: 1,
        leases: vec![],
    };
    let (held, in_use, free) = segments(&reply, 10);
    assert_eq!(held + in_use + free, 10, "bar was {held}/{in_use}/{free}");
    assert!(held > 0, "bar was {held}/{in_use}/{free}");
    assert!(free > 0, "bar was {held}/{in_use}/{free}");
}

/// bzbd reports the fifo and the leases from separate samples, so the two
/// can cross; a wrapped subtraction would ask for four billion cells.
#[test]
fn drifted_counts_do_not_overflow_the_bar() {
    let drifted = StatusReply {
        pool_size: 8,
        free: 8,
        held: 4,
        leases: vec![],
    };
    assert_eq!(segments(&drifted, 80), (4, 0, 4));
}

// The line about the queue.

fn view(id: usize, label: Option<&str>, command: &str, path: &str) -> TaskView {
    TaskView {
        id,
        label: label.map(|s| s.into()),
        command: command.into(),
        path: path.into(),
    }
}

fn empty_snap() -> QueueSnapshot {
    QueueSnapshot {
        running: None,
        queued: vec![],
    }
}

fn running_snap(label: Option<&str>, command: &str, path: &str) -> QueueSnapshot {
    QueueSnapshot {
        running: Some(view(1, label, command, path)),
        queued: vec![view(2, None, "next", "/"), view(3, None, "next2", "/")],
    }
}

fn panel(snapshot: &QueueSnapshot, width: usize, elapsed_ms: u64) -> String {
    StatusPanel {
        snapshot,
        elapsed_ms,
    }
    .line(width)
}

#[test]
fn idle_empty_queue_shows_only_idle() {
    let line = panel(&empty_snap(), 40, 0);
    assert!(line.starts_with("Idle"));
    assert!(!line.contains("In Queue"));
}

#[test]
fn idle_with_queue_shows_count() {
    let snap = QueueSnapshot {
        running: None,
        queued: (0..3).map(|i| view(i, None, "x", "/")).collect(),
    };
    let line = panel(&snap, 40, 0);
    assert!(line.starts_with("Idle"));
    assert!(line.contains("In Queue: 3"));
}

#[test]
fn running_with_label_uses_label_as_primary() {
    let snap = running_snap(Some("my build"), "cmake --build", "/Users/bob/work/busybee");
    let line = panel(&snap, 60, 0);
    assert!(line.starts_with("Running: my build"));
    assert!(!line.contains("cmake --build"));
    assert!(line.contains("In Queue: 2"));
}

#[test]
fn running_without_label_uses_folder_and_command() {
    let snap = running_snap(None, "cmake --build", "/Users/bob/work/busybee");
    let line = panel(&snap, 60, 0);
    assert!(line.starts_with("Running: busybee: cmake --build"));
    assert!(line.contains("In Queue: 2"));
}

#[test]
fn empty_label_falls_back_to_folder_and_command() {
    let snap = running_snap(Some(""), "cmake --build", "/Users/bob/work/busybee");
    let line = panel(&snap, 60, 0);
    assert!(line.contains("busybee: cmake --build"));
}

#[test]
fn primary_fits_no_marquee_motion() {
    // At width 60 with short command, primary fits: the line should be stable
    // across time.
    let snap = running_snap(None, "ls", "/work/busybee");
    let a = panel(&snap, 60, 0);
    let b = panel(&snap, 60, 500);
    assert_eq!(a, b);
}

#[test]
fn primary_overflow_marquees_over_time() {
    let long_cmd = "cargo test --workspace --all-features -- --nocapture";
    let snap = running_snap(None, long_cmd, "/work/busybee");
    // Narrow enough that the primary cannot fit but budget > 3.
    let width = 40;
    let a = panel(&snap, width, 0);
    // Advance two steps to be safe against off-by-one.
    let b = panel(&snap, width, 250);
    assert_ne!(a, b, "line should have shifted after two marquee steps");
    assert!(a.contains("In Queue: 2"), "right-fixed stays visible");
    assert!(b.contains("In Queue: 2"));
    assert_eq!(2 * MARQUEE_STEP_MS, 250);
}

#[test]
fn narrow_width_falls_back_to_ellipsis() {
    let long_cmd = "cargo test --workspace";
    let snap = running_snap(None, long_cmd, "/work/busybee");
    // Tight width: "Running: " (9) + "  ·  In Queue: 2" (16) = 25.
    // Width 28 leaves budget 3: ellipsis fallback.
    let line = panel(&snap, 28, 0);
    assert!(line.contains("…"));
    assert!(line.contains("In Queue: 2"));
}

#[test]
fn path_without_file_name_falls_back_to_command_only() {
    let snap = running_snap(None, "ls", "/");
    let line = panel(&snap, 40, 0);
    // Root path has no file_name: primary is just the command.
    assert!(line.starts_with("Running: ls"));
    // No <folder>: ls pattern: check the remainder after "Running: " has no folder prefix.
    let remainder = &line["Running: ".len()..];
    assert!(
        !remainder.contains(": ls"),
        "no folder prefix when path is root"
    );
}

#[test]
fn marquee_at_offset_zero_starts_with_primary() {
    let out = marquee_window("abcdef", 4, 0);
    assert_eq!(out, "abcd");
}

#[test]
fn marquee_shifts_one_per_unit_offset() {
    let out = marquee_window("abcdef", 4, 1);
    assert_eq!(out, "bcde");
}

#[test]
fn marquee_wraps_through_separator_and_back_to_start() {
    // primary is 6 chars, separator is "   ·   " (7 chars), cycle is 13.
    let full = marquee_window("abcdef", 13, 0);
    assert_eq!(full, "abcdef   ·   ");
    // One cycle later we are back to offset 0.
    assert_eq!(marquee_window("abcdef", 4, 13), "abcd");
    // Offset just past the primary starts inside the separator.
    assert_eq!(marquee_window("abcdef", 4, 6), "   ·");
    assert_eq!(MARQUEE_SEPARATOR.chars().count(), 7);
}

#[test]
fn marquee_handles_multibyte_chars() {
    // Middle dot is one codepoint but multi-byte: must slice by chars.
    let out = marquee_window("α·β·γ", 3, 0);
    assert_eq!(out, "α·β");
}

#[test]
fn truncate_returns_empty_at_zero_max() {
    assert_eq!(truncate("hello", 0), "");
    assert_eq!(truncate("", 0), "");
}

#[test]
fn a_shortened_text_ends_in_an_ellipsis() {
    assert_eq!(truncate("hello", 5), "hello");
    assert_eq!(truncate("hello", 4), "hel…");
    assert_eq!(truncate("hello", 1), "…");
}

#[test]
fn a_line_is_made_of_its_three_parts() {
    let snap = running_snap(Some("my build"), "ls", "/");
    let (left, primary, right) = line_parts(&snap);
    assert_eq!(left, "Running: ");
    assert_eq!(primary.as_deref(), Some("my build"));
    assert_eq!(right, "  ·  In Queue: 2");
    assert_eq!(
        compose_line(&left, primary.as_deref(), &right, 40, 0),
        "Running: my build         ·  In Queue: 2"
    );
    assert_eq!(primary_for(&view(1, None, "ls", "/work/busybee")), "busybee: ls");
}

#[test]
fn the_bar_is_coloured_by_what_its_cells_stand_for() {
    let failed = PoolView::Unreachable("refused");
    let gauge = PoolGauge { view: &failed };
    assert_eq!(gauge.color_of('p'), Some(Color::Red));
    for view in [PoolView::Pending, PoolView::Absent] {
        assert_eq!(PoolGauge { view: &view }.color_of(HELD), None);
    }
    let reply = reply();
    let view = PoolView::Known {
        reply: &reply,
        stale_ms: None,
    };
    let gauge = PoolGauge { view: &view };
    assert_eq!(gauge.color_of(HELD), Some(Color::Cyan));
    assert_eq!(gauge.color_of(IN_USE), Some(Color::Yellow));
    assert_eq!(gauge.color_of(FREE), Some(Color::DarkGray));
    assert_eq!(gauge.color_of(' '), None);
}

#[test]
fn a_text_is_left_for_the_terminal_to_cut() {
    let reason = "no\u{301}t answering";
    let lines = bar(&PoolView::Unreachable(reason), 4);
    assert_eq!(lines.0, format!("pool unknown: {reason}"));
    let reply = reply();
    let lines = bar(&known(&reply, None), 4);
    assert_eq!(lines.0.chars().count(), 4);
    assert_eq!(lines.1, "18 tokens · 9 held · ~3 in use · 6 free");
}
