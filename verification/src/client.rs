//! The client's side of a lease: what it says while its command waits and runs,
//! and what it does about what it hears.
//!
//! The connection is the lease. It is held open for the command's whole life, and
//! closing it is how an interrupt cancels. Everything that is said goes to
//! standard error: standard output carries the task's output and nothing else.

use vstd::prelude::*;
use vstd::string::*;

use crate::classify::Class;
use crate::env::EnvMap;
use crate::errors::BusybeeError;
use crate::protocol::{LeaseEvent, LeaseRequest, Response, StatusReply};
use crate::text::{copy, decimal, in_two_digits, same, signed};
use crate::wait::QueueLines;

#[allow(unused_imports)]
use crate::errors::ErrorView;
#[allow(unused_imports)]
use crate::text::{decimal_of, signed_of, two_digits};
#[allow(unused_imports)]
use crate::wait::{heartbeat, position_line, reported, ticked, unheard, Waiting};

verus! {

/// The exit code of a command that its caller cancelled.
pub const CANCELLED: i32 = 130;

/// What the client asks for.
pub fn lease_request(
    cmd: Vec<String>,
    cwd: String,
    env: EnvMap,
    name: Option<String>,
    class: Option<Class>,
    cores: Option<u32>,
    detached: bool,
) -> (r: LeaseRequest)
    ensures
        r == (LeaseRequest {
            argv: cmd,
            cwd,
            env,
            label: name,
            class_override: class,
            cores_wanted: cores,
            detached,
        }),
{
    LeaseRequest {
        argv: cmd,
        cwd,
        env,
        label: name,
        class_override: class,
        cores_wanted: cores,
        detached,
    }
}

/// A number of other tasks.
pub open spec fn others_text(peers: nat) -> Seq<char> {
    if peers == 1 {
        "1 other task"@
    } else {
        decimal_of(peers) + " other tasks"@
    }
}

/// A number of other tasks, as a sentence has it.
pub fn others(peers: usize) -> (r: String)
    ensures
        r@ == others_text(peers as nat),
{
    if peers == 1 {
        copy("1 other task")
    } else {
        let mut out = decimal(peers as u64);
        out.append(" other tasks");
        out
    }
}

/// The line for an admission. A jobserver task shares the pool and holds no tokens
/// of its own, so no count is given for it.
pub open spec fn running_text(
    tool: Seq<char>,
    class: Seq<char>,
    cores: nat,
    pool_size: nat,
    peers: nat,
) -> Seq<char> {
    if class == "jobserver"@ {
        "running — "@ + tool + ", "@ + class + ", sharing "@ + decimal_of(pool_size)
            + "-token pool with "@ + others_text(peers)
    } else {
        "running — "@ + tool + ", "@ + class + ", holding "@ + decimal_of(cores) + "/"@
            + decimal_of(pool_size) + " cores ("@ + others_text(peers) + " active)"@
    }
}

/// The line for an admission.
pub fn running_line(tool: &str, class: &str, cores: u32, pool_size: u32, peers: usize) -> (r:
    String)
    ensures
        r@ == running_text(tool@, class@, cores as nat, pool_size as nat, peers as nat),
{
    let mut out = copy("running — ");
    out.append(tool);
    out.append(", ");
    out.append(class);
    if same(class, "jobserver") {
        out.append(", sharing ");
        out.append(decimal(pool_size as u64).as_str());
        out.append("-token pool with ");
        out.append(others(peers).as_str());
    } else {
        out.append(", holding ");
        out.append(decimal(cores as u64).as_str());
        out.append("/");
        out.append(decimal(pool_size as u64).as_str());
        out.append(" cores (");
        out.append(others(peers).as_str());
        out.append(" active)");
    }
    out
}

/// A time in seconds, in its two largest units.
pub open spec fn elapsed_text(s: nat) -> Seq<char> {
    if s < 60 {
        decimal_of(s) + "s"@
    } else if s < 3600 {
        decimal_of(s / 60) + "m"@ + two_digits(s % 60) + "s"@
    } else {
        decimal_of(s / 3600) + "h"@ + two_digits(s / 60 % 60) + "m"@
    }
}

/// A time in seconds, in its two largest units.
pub fn format_elapsed(s: u64) -> (r: String)
    ensures
        r@ == elapsed_text(s as nat),
{
    if s < 60 {
        let mut out = decimal(s);
        out.append("s");
        out
    } else if s < 3600 {
        let mut out = decimal(s / 60);
        out.append("m");
        out.append(in_two_digits(s % 60).as_str());
        out.append("s");
        out
    } else {
        let mut out = decimal(s / 3600);
        out.append("h");
        out.append(in_two_digits(s / 60 % 60).as_str());
        out.append("m");
        out
    }
}

/// The line for the end of a command.
pub open spec fn exit_text(code: int, elapsed_secs: Option<u64>) -> Seq<char> {
    let line = "busybee: command exited "@ + signed_of(code);
    match elapsed_secs {
        Some(s) => line + " (elapsed "@ + elapsed_text(s as nat) + ")"@,
        None => line,
    }
}

/// The line for the end of a command, with the time it took if it started.
pub fn exit_line(code: i32, elapsed_secs: Option<u64>) -> (r: String)
    ensures
        r@ == exit_text(code as int, elapsed_secs),
{
    let mut out = copy("busybee: command exited ");
    out.append(signed(code).as_str());
    if let Some(s) = elapsed_secs {
        out.append(" (elapsed ");
        out.append(format_elapsed(s).as_str());
        out.append(")");
    }
    out
}

/// Whether an event is the last of its lease.
pub fn finished(event: &LeaseEvent) -> (r: bool)
    ensures
        r == (event is Finished),
{
    match event {
        LeaseEvent::Finished { .. } => true,
        _ => false,
    }
}

/// A terminating signal.
#[derive(Debug, Clone, Copy, PartialEq, Eq, Structural)]
pub enum SignalEvent {
    /// The first one: cancel, and wait for that.
    SoftCancel,
    /// Any other: leave at once.
    HardKill,
}

/// What a terminating signal means, after `seen` others.
pub fn signal_event(seen: u64) -> (r: SignalEvent)
    ensures
        r == if seen == 0 {
            SignalEvent::SoftCancel
        } else {
            SignalEvent::HardKill
        },
{
    if seen == 0 {
        SignalEvent::SoftCancel
    } else {
        SignalEvent::HardKill
    }
}

/// Something for the client to do.
#[derive(Debug)]
pub enum Deed {
    /// Print a line on standard error.
    Say(String),
    /// Follow the output of a task from its beginning.
    Follow(usize),
    /// Print what the task has written since.
    Sweep,
    /// Close the connection.
    Hangup,
    /// Exit with a code.
    Exit(i32),
    /// Give up with an error.
    Fail(BusybeeError),
}

/// The same, mathematically.
pub enum Act {
    Say(Seq<char>),
    Follow(usize),
    Sweep,
    Hangup,
    Exit(i32),
    Fail(ErrorView),
}

impl View for Deed {
    type V = Act;

    open spec fn view(&self) -> Act {
        match *self {
            Deed::Say(line) => Act::Say(line@),
            Deed::Follow(task) => Act::Follow(task),
            Deed::Sweep => Act::Sweep,
            Deed::Hangup => Act::Hangup,
            Deed::Exit(code) => Act::Exit(code),
            Deed::Fail(err) => Act::Fail(err@),
        }
    }
}

/// Deeds, mathematically.
pub open spec fn acts(deeds: Seq<Deed>) -> Seq<Act> {
    Seq::new(deeds.len(), |i: int| deeds[i]@)
}

/// What the client hears on its connection.
#[derive(Debug)]
pub enum Heard {
    Event(LeaseEvent),
    /// The daemon closed it.
    End,
    /// It failed.
    Failed(BusybeeError),
}

/// A client that waits for its command.
#[derive(Debug)]
pub struct Session {
    tool: String,
    queue: QueueLines,
    task: Option<usize>,
    started_at_ms: Option<u64>,
    tick: u64,
}

/// The same, mathematically.
#[verifier::ext_equal]
pub struct Waited {
    /// What the command runs.
    pub tool: Seq<char>,
    /// What was said about the queue.
    pub queue: Waiting,
    /// The task, once there is one.
    pub task: Option<usize>,
    pub started_at_ms: Option<u64>,
    pub tick: u64,
}

impl View for Session {
    type V = Waited;

    closed spec fn view(&self) -> Waited {
        Waited {
            tool: self.tool@,
            queue: self.queue@,
            task: self.task,
            started_at_ms: self.started_at_ms,
            tick: self.tick,
        }
    }
}

/// How long the task has run, in seconds.
pub open spec fn ran_for(w: Waited, now_ms: u64) -> Option<u64> {
    match w.started_at_ms {
        Some(start) => Some(
            if now_ms > start {
                ((now_ms - start) / 1000) as u64
            } else {
                0
            },
        ),
        None => None,
    }
}

/// A line about the queue, if there is one.
pub open spec fn about_queue(line: Option<Seq<char>>) -> Seq<Act> {
    match line {
        Some(text) => seq![Act::Say("busybee: "@ + text)],
        None => Seq::empty(),
    }
}

/// What the client does about what it hears.
pub open spec fn hearing(w: Waited, heard: Heard, now_ms: u64) -> (Waited, Seq<Act>) {
    match heard {
        Heard::Event(LeaseEvent::Queued { ahead, .. }) => (
            Waited { queue: reported(w.queue, ahead), ..w },
            about_queue(position_line(w.queue, ahead)),
        ),
        Heard::Event(LeaseEvent::Notice { text }) => (
            w,
            seq![Act::Say("busybee: note: "@ + text@)],
        ),
        Heard::Event(LeaseEvent::Admitted {
            pueue_task_id,
            class,
            cores,
            pool_size,
            peers,
            ..
        }) => (
            Waited { task: Some(pueue_task_id), started_at_ms: Some(now_ms), ..w },
            seq![
                Act::Say(
                    "busybee: "@ + running_text(
                        w.tool,
                        class@,
                        cores as nat,
                        pool_size as nat,
                        peers as nat,
                    ),
                ),
                Act::Follow(pueue_task_id),
            ],
        ),
        Heard::Event(LeaseEvent::Finished { exit_code, .. }) => (
            w,
            (if w.task is Some {
                seq![Act::Sweep]
            } else {
                Seq::empty()
            }) + seq![
                Act::Say(exit_text(exit_code as int, ran_for(w, now_ms))),
                Act::Exit(exit_code),
            ],
        ),
        Heard::End => (
            w,
            seq![
                Act::Fail(
                    ErrorView::Other("bzbd stopped streaming the lease before it finished"@),
                ),
            ],
        ),
        Heard::Failed(err) => (w, seq![Act::Fail(err@)]),
    }
}

/// One more tick.
pub open spec fn tick_after(tick: u64) -> u64 {
    if tick == u64::MAX {
        tick
    } else {
        (tick + 1) as u64
    }
}

/// What the client does once a second.
pub open spec fn ticking(w: Waited) -> (Waited, Seq<Act>) {
    let tick = tick_after(w.tick);
    if w.task is Some {
        (Waited { tick, ..w }, seq![Act::Sweep])
    } else {
        (
            Waited { tick, queue: ticked(w.queue, tick), ..w },
            about_queue(heartbeat(w.queue, tick)),
        )
    }
}

/// What the client does about a signal.
pub open spec fn signalled(w: Waited, signal: SignalEvent, now_ms: u64) -> Seq<Act> {
    match signal {
        SignalEvent::SoftCancel => seq![
            Act::Say("busybee: cancelling…"@),
            Act::Hangup,
            Act::Say(exit_text(CANCELLED as int, ran_for(w, now_ms))),
            Act::Exit(CANCELLED),
        ],
        SignalEvent::HardKill => seq![Act::Exit(CANCELLED)],
    }
}

fn prefixed(line: &str) -> (r: String)
    ensures
        r@ == "busybee: "@ + line@,
{
    let mut out = copy("busybee: ");
    out.append(line);
    out
}

impl Session {
    /// A client whose command runs `tool`.
    pub fn new(tool: String) -> (r: Self)
        ensures
            r@ == (Waited {
                tool: tool@,
                queue: unheard(),
                task: None,
                started_at_ms: None,
                tick: 0,
            }),
    {
        Session { tool, queue: QueueLines::new(), task: None, started_at_ms: None, tick: 0 }
    }

    fn seconds(&self, now_ms: u64) -> (r: Option<u64>)
        ensures
            r == ran_for(self@, now_ms),
    {
        match self.started_at_ms {
            Some(start) => Some(now_ms.saturating_sub(start) / 1000),
            None => None,
        }
    }

    /// Something was heard on the connection.
    pub fn heard(&mut self, heard: Heard, now_ms: u64) -> (r: Vec<Deed>)
        ensures
            final(self)@ == hearing(old(self)@, heard, now_ms).0,
            acts(r@) == hearing(old(self)@, heard, now_ms).1,
            heard matches Heard::Failed(err) ==> r@.last() == Deed::Fail(err),
    {
        let ghost w = self@;
        let ghost h = heard;
        let mut out: Vec<Deed> = Vec::new();
        match heard {
            Heard::Event(LeaseEvent::Queued { ahead, .. }) => {
                if let Some(line) = self.queue.queued(ahead) {
                    out.push(Deed::Say(prefixed(line.as_str())));
                }
            },
            Heard::Event(LeaseEvent::Notice { text }) => {
                let mut line = copy("busybee: note: ");
                line.append(text.as_str());
                out.push(Deed::Say(line));
            },
            Heard::Event(LeaseEvent::Admitted {
                pueue_task_id,
                class,
                cores,
                pool_size,
                peers,
                ..
            }) => {
                let line = running_line(
                    self.tool.as_str(),
                    class.as_str(),
                    cores,
                    pool_size,
                    peers,
                );
                self.task = Some(pueue_task_id);
                self.started_at_ms = Some(now_ms);
                out.push(Deed::Say(prefixed(line.as_str())));
                out.push(Deed::Follow(pueue_task_id));
            },
            Heard::Event(LeaseEvent::Finished { exit_code, .. }) => {
                if self.task.is_some() {
                    out.push(Deed::Sweep);
                }
                out.push(Deed::Say(exit_line(exit_code, self.seconds(now_ms))));
                out.push(Deed::Exit(exit_code));
            },
            Heard::End => {
                out.push(
                    Deed::Fail(
                        BusybeeError::Other(
                            copy("bzbd stopped streaming the lease before it finished"),
                        ),
                    ),
                );
            },
            Heard::Failed(err) => {
                out.push(Deed::Fail(err));
            },
        }
        assert(acts(out@) =~= hearing(w, h, now_ms).1);
        out
    }

    /// A second passed.
    pub fn ticked(&mut self) -> (r: Vec<Deed>)
        ensures
            final(self)@ == ticking(old(self)@).0,
            acts(r@) == ticking(old(self)@).1,
    {
        let ghost w = self@;
        let mut out: Vec<Deed> = Vec::new();
        self.tick = self.tick.saturating_add(1);
        if self.task.is_some() {
            out.push(Deed::Sweep);
        } else if let Some(line) = self.queue.tick(self.tick) {
            out.push(Deed::Say(prefixed(line.as_str())));
        }
        assert(acts(out@) =~= ticking(w).1);
        out
    }

    /// A terminating signal arrived.
    pub fn signalled(&self, signal: SignalEvent, now_ms: u64) -> (r: Vec<Deed>)
        ensures
            acts(r@) == signalled(self@, signal, now_ms),
    {
        let mut out: Vec<Deed> = Vec::new();
        match signal {
            SignalEvent::SoftCancel => {
                out.push(Deed::Say(copy("busybee: cancelling…")));
                out.push(Deed::Hangup);
                out.push(Deed::Say(exit_line(CANCELLED, self.seconds(now_ms))));
                out.push(Deed::Exit(CANCELLED));
            },
            SignalEvent::HardKill => {
                out.push(Deed::Exit(CANCELLED));
            },
        }
        assert(acts(out@) =~= signalled(self@, signal, now_ms));
        out
    }
}

/// What a detaching client does about an event.
#[derive(Debug)]
pub enum Detached {
    /// The lease is known: this is the command's result.
    Done(String),
    /// Print a line and read on.
    Note(String),
    /// Give up.
    Fail(String),
}

/// What a detaching client does about an event; none where the daemon closed the
/// connection.
pub fn detached(event: Option<LeaseEvent>) -> (r: Detached)
    ensures
        match event {
            Some(LeaseEvent::Queued { id, .. }) => r is Done && r->Done_0@ == "busybee: lease "@
                + decimal_of(id as nat) + " detached (pueue task assigned once admitted)"@,
            Some(LeaseEvent::Admitted { id, pueue_task_id, .. }) => r is Done && r->Done_0@
                == "busybee: lease "@ + decimal_of(id as nat) + " detached (pueue task "@
                + decimal_of(pueue_task_id as nat) + ")"@,
            Some(LeaseEvent::Finished { id, exit_code }) => r is Fail && r->Fail_0@ == "lease "@
                + decimal_of(id as nat) + " ended before it was queued (exit code "@ + signed_of(
                exit_code as int,
            ) + ")"@,
            Some(LeaseEvent::Notice { text }) => r is Note && r->Note_0@ == "busybee: note: "@
                + text@,
            None => r is Fail && r->Fail_0@
                == "bzbd closed the connection before the lease was queued"@,
        },
{
    match event {
        Some(LeaseEvent::Queued { id, .. }) => {
            let mut out = copy("busybee: lease ");
            out.append(decimal(id).as_str());
            out.append(" detached (pueue task assigned once admitted)");
            Detached::Done(out)
        },
        Some(LeaseEvent::Admitted { id, pueue_task_id, .. }) => {
            let mut out = copy("busybee: lease ");
            out.append(decimal(id).as_str());
            out.append(" detached (pueue task ");
            out.append(decimal(pueue_task_id as u64).as_str());
            out.append(")");
            Detached::Done(out)
        },
        Some(LeaseEvent::Finished { id, exit_code }) => {
            let mut out = copy("lease ");
            out.append(decimal(id).as_str());
            out.append(" ended before it was queued (exit code ");
            out.append(signed(exit_code).as_str());
            out.append(")");
            Detached::Fail(out)
        },
        Some(LeaseEvent::Notice { text }) => {
            let mut out = copy("busybee: note: ");
            out.append(text.as_str());
            Detached::Note(out)
        },
        None => Detached::Fail(copy("bzbd closed the connection before the lease was queued")),
    }
}

/// What comes of a cancellation: the line to print, or why it failed. `shown` is
/// the response as it is shown where it is none of those expected.
pub fn cancelled(lease: u64, response: Response, shown: &str) -> (r: Result<String, String>)
    ensures
        match response {
            Response::Ack => r is Ok && r->Ok_0@ == "busybee: cancelled lease "@ + decimal_of(
                lease as nat,
            ),
            Response::Error { message } => r is Err && r->Err_0@ == "cannot cancel lease "@
                + decimal_of(lease as nat) + ": "@ + message@,
            _ => r is Err && r->Err_0@ == "unexpected response to a cancellation: "@ + shown@,
        },
{
    match response {
        Response::Ack => {
            let mut out = copy("busybee: cancelled lease ");
            out.append(decimal(lease).as_str());
            Ok(out)
        },
        Response::Error { message } => {
            let mut out = copy("cannot cancel lease ");
            out.append(decimal(lease).as_str());
            out.append(": ");
            out.append(message.as_str());
            Err(out)
        },
        _ => {
            let mut out = copy("unexpected response to a cancellation: ");
            out.append(shown);
            Err(out)
        },
    }
}

/// What comes of a reload: the line to print, or why it failed.
pub fn reloaded(response: Response, shown: &str) -> (r: Result<String, String>)
    ensures
        match response {
            Response::ConfigReloaded { pool_size, max_concurrent, drain_deadline_ms } => r is Ok
                && r->Ok_0@ == "busybee: bzbd reloaded its config (pool_size "@ + decimal_of(
                pool_size as nat,
            ) + ", max_concurrent "@ + decimal_of(max_concurrent as nat) + ", drain_deadline_ms "@
                + decimal_of(drain_deadline_ms as nat) + ")"@,
            Response::Error { message } => r == Err::<String, String>(message),
            _ => r is Err && r->Err_0@ == "expected a reload confirmation from bzbd, got "@
                + shown@,
        },
{
    match response {
        Response::ConfigReloaded { pool_size, max_concurrent, drain_deadline_ms } => {
            let mut out = copy("busybee: bzbd reloaded its config (pool_size ");
            out.append(decimal(pool_size as u64).as_str());
            out.append(", max_concurrent ");
            out.append(decimal(max_concurrent as u64).as_str());
            out.append(", drain_deadline_ms ");
            out.append(decimal(drain_deadline_ms).as_str());
            out.append(")");
            Ok(out)
        },
        Response::Error { message } => Err(message),
        _ => {
            let mut out = copy("expected a reload confirmation from bzbd, got ");
            out.append(shown);
            Err(out)
        },
    }
}

/// What comes of a status request: the reply, or why there is none.
pub fn status_of(response: Response, shown: &str) -> (r: Result<StatusReply, String>)
    ensures
        match response {
            Response::Status(reply) => r == Ok::<_, String>(reply),
            Response::Error { message } => r is Err && r->Err_0@
                == "bzbd refused the status request: "@ + message@,
            _ => r is Err && r->Err_0@ == "expected a status reply from bzbd, got "@ + shown@,
        },
{
    match response {
        Response::Status(reply) => Ok(reply),
        Response::Error { message } => {
            let mut out = copy("bzbd refused the status request: ");
            out.append(message.as_str());
            Err(out)
        },
        _ => {
            let mut out = copy("expected a status reply from bzbd, got ");
            out.append(shown);
            Err(out)
        },
    }
}

/// The client exits with its lease's exit code, and that is the last thing it
/// does; what the task wrote is printed first.
pub proof fn law_the_client_mirrors_the_exit_code(w: Waited, id: u64, exit_code: i32, now_ms: u64)
    ensures
        ({
            let deeds = hearing(w, Heard::Event(LeaseEvent::Finished { id, exit_code }), now_ms).1;
            &&& deeds.last() == Act::Exit(exit_code)
            &&& w.task is Some ==> deeds[0] == Act::Sweep
        }),
{
}

/// A lease that the client never heard of the end of is an error, not a success.
pub proof fn law_an_unfinished_lease_is_an_error(w: Waited, now_ms: u64)
    ensures
        hearing(w, Heard::End, now_ms).1.last() is Fail,
{
}

/// The first signal cancels the lease by closing its connection; either exits 130.
pub proof fn law_a_signal_cancels(w: Waited, signal: SignalEvent, now_ms: u64)
    ensures
        signalled(w, signal, now_ms).last() == Act::Exit(130),
        signal == SignalEvent::SoftCancel ==> signalled(w, signal, now_ms)[1] == Act::Hangup,
{
}

/// A time is told in its two largest units: seconds below a minute, minutes and
/// seconds below an hour, and hours and minutes from there on.
pub proof fn law_a_time_is_told_in_its_largest_units(h: nat, m: nat, s: nat)
    requires
        m < 60,
        s < 60,
    ensures
        elapsed_text(s) == decimal_of(s) + "s"@,
        m >= 1 ==> elapsed_text(60 * m + s) == decimal_of(m) + "m"@ + two_digits(s) + "s"@,
        h >= 1 ==> elapsed_text(3600 * h + 60 * m + s) == decimal_of(h) + "h"@ + two_digits(m)
            + "m"@,
{
    let a = 60 * m + s;
    assert(a / 60 == m && a % 60 == s);
    let b = 3600 * h + 60 * m + s;
    assert(b / 3600 == h);
    assert(b / 60 == 60 * h + m);
    assert(b / 60 % 60 == m);
}

/// A task was running for the whole seconds since it was started; one that never
/// was has no such time, and a clock that went back gives none but zero.
pub proof fn law_a_task_runs_from_its_start(w: Waited, now_ms: u64)
    ensures
        w.started_at_ms is None <==> ran_for(w, now_ms) is None,
        w.started_at_ms is Some && w.started_at_ms->0 <= now_ms ==> {
            let s = ran_for(w, now_ms)->0;
            s * 1000 <= now_ms - w.started_at_ms->0 < (s + 1) * 1000
        },
        w.started_at_ms matches Some(start) && start > now_ms ==> ran_for(w, now_ms) == Some(0u64),
{
}

/// A lease that is admitted has its task followed from then on and its output
/// fetched at every tick, and the user is told what it runs on; before that a tick
/// fetches nothing.
pub proof fn law_an_admitted_lease_is_followed(
    w: Waited,
    event: LeaseEvent,
    now_ms: u64,
)
    requires
        event is Admitted,
    ensures
        ({
            let (after, deeds) = hearing(w, Heard::Event(event), now_ms);
            let task = event->Admitted_pueue_task_id;
            &&& after.task == Some(task)
            &&& after.started_at_ms == Some(now_ms)
            &&& after.tool == w.tool
            &&& deeds.len() == 2
            &&& deeds[0] is Say
            &&& deeds[1] == Act::Follow(task)
            &&& ticking(after).1 == seq![Act::Sweep]
            &&& ticking(after).0.task == Some(task)
        }),
        w.task is None ==> forall|i: int|
            0 <= i < ticking(w).1.len() ==> (#[trigger] ticking(w).1[i]) is Say,
{
}

/// What the user is told of an admission: its tool and class; for one that shares
/// the pool the size of the pool and with how many it shares it, for any other the
/// cores it holds of the pool and how many others are active.
pub proof fn law_the_running_line_says_what_it_runs_on(
    tool: Seq<char>,
    cores: nat,
    pool_size: nat,
    peers: nat,
    class: Seq<char>,
)
    ensures
        running_text(tool, "jobserver"@, cores, pool_size, peers) == "running — "@ + tool
            + ", jobserver"@ + ", sharing "@ + decimal_of(pool_size) + "-token pool with "@
            + others_text(peers),
        class != "jobserver"@ ==> running_text(tool, class, cores, pool_size, peers)
            == "running — "@ + tool + ", "@ + class + ", holding "@ + decimal_of(cores) + "/"@
            + decimal_of(pool_size) + " cores ("@ + others_text(peers) + " active)"@,
        others_text(1) == "1 other task"@,
        peers != 1 ==> others_text(peers) == decimal_of(peers) + " other tasks"@,
{
    reveal_strlit(", ");
    reveal_strlit("jobserver");
    reveal_strlit(", jobserver");
    assert(", "@ + "jobserver"@ =~= ", jobserver"@);
    assert("running — "@ + tool + ", "@ + "jobserver"@ =~= "running — "@ + tool + (", "@
        + "jobserver"@));
}

/// A note is passed on as it is, and changes nothing else; so is a position in the
/// queue that is news, and one that is not is passed over.
pub proof fn law_what_the_daemon_says_is_passed_on(w: Waited, event: LeaseEvent, now_ms: u64)
    ensures
        event matches LeaseEvent::Notice { text } ==> hearing(w, Heard::Event(event), now_ms) == (
            w,
            seq![Act::Say("busybee: note: "@ + text@)],
        ),
        event matches LeaseEvent::Queued { ahead, .. } ==> {
            let (after, deeds) = hearing(w, Heard::Event(event), now_ms);
            &&& after.queue.ahead == Some(ahead)
            &&& w.queue.ahead == Some(ahead) ==> deeds.len() == 0 && after == w
            &&& w.queue.ahead != Some(ahead) ==> deeds.len() == 1 && deeds[0] is Say
            &&& after.task == w.task
        },
{
}

/// While it waits a client says what the queue has to say, at each tick and at each
/// position it hears, with its own name in front; and its ticks are counted one by
/// one.
pub proof fn law_a_waiting_client_speaks_for_the_queue(
    w: Waited,
    ahead: usize,
    id: u64,
    now_ms: u64,
)
    requires
        w.task is None,
        w.tick < u64::MAX,
    ensures
        ticking(w).0.tick == w.tick + 1,
        ticking(w).0.queue == ticked(w.queue, (w.tick + 1) as u64),
        heartbeat(w.queue, (w.tick + 1) as u64) matches Some(text) ==> ticking(w).1 == seq![
            Act::Say("busybee: "@ + text),
        ],
        heartbeat(w.queue, (w.tick + 1) as u64) is None ==> ticking(w).1.len() == 0,
        position_line(w.queue, ahead) matches Some(text) ==> hearing(
            w,
            Heard::Event(LeaseEvent::Queued { id, ahead }),
            now_ms,
        ).1 == seq![Act::Say("busybee: "@ + text)],
        hearing(w, Heard::Event(LeaseEvent::Queued { id, ahead }), now_ms).0.queue == reported(
            w.queue,
            ahead,
        ),
{
}

/// The last line says what the command exited with, and how long it ran where it was
/// started.
pub proof fn law_the_last_line_says_the_exit_code(code: int, s: u64)
    ensures
        exit_text(code, None) == "busybee: command exited "@ + signed_of(code),
        exit_text(code, Some(s)) == "busybee: command exited "@ + signed_of(code) + " (elapsed "@
            + elapsed_text(s as nat) + ")"@,
{
}

/// A client that hears the end of its lease fetches the rest of the output where
/// there is a task, says the exit code and exits with it, and does nothing else.
pub proof fn law_a_finished_lease_ends_the_client(w: Waited, id: u64, exit_code: i32, now_ms: u64)
    ensures
        ({
            let deeds = hearing(w, Heard::Event(LeaseEvent::Finished { id, exit_code }), now_ms).1;
            let said = Act::Say(exit_text(exit_code as int, ran_for(w, now_ms)));
            &&& w.task is Some ==> deeds == seq![Act::Sweep, said, Act::Exit(exit_code)]
            &&& w.task is None ==> deeds == seq![said, Act::Exit(exit_code)]
        }),
{
}

/// A client that loses the daemon fails with the reason, and does nothing else.
pub proof fn law_a_lost_daemon_ends_the_client(w: Waited, err: BusybeeError, now_ms: u64)
    ensures
        hearing(w, Heard::Failed(err), now_ms) == (w, seq![Act::Fail(err@)]),
        hearing(w, Heard::End, now_ms).0 == w,
        hearing(w, Heard::End, now_ms).1.len() == 1,
{
}

} // verus!
