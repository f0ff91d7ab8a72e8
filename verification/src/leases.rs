//! The lease machine: the admission machine, the live leases and the token
//! accounting, without the input and output around them.
//!
//! Everything that changes a lease happens here, so the scheduler's accounting
//! and the tasks that pueued is running cannot drift apart. A lease goes from
//! queued to admitted to finished. It ends when pueued reports its task done, or
//! when its client goes away; a task that was started is killed first, and keeps
//! its tokens until pueued confirms that it is gone.
//!
//! Whoever drives the machine carries out the [`Effect`]s that it asks for, in
//! order, calls [`Leases::step`] until there is nothing left to do, and hands
//! back what came of a drain, a record and a submission.

use vstd::prelude::*;
use vstd::string::*;

use crate::classify::{classify, unwrap_wrappers, Class, Overrides, Plan, Table};
use crate::config::StaticDefault;
use crate::enqueue::{shell_escape_join, TaskSpec};
use crate::env::EnvMap;
use crate::exit_code::task_result_to_exit_code;
use crate::inject::inject;
use crate::ledger::Ledger;
use crate::nest::LEASE_ENV;
use crate::protocol::{LeaseEvent, LeaseRequest, LeaseView, StatusReply};
use crate::recovery::{orphan, Record};
use crate::scheduler::{Action, Event, LeaseId, Params, Request, Scheduler};
use crate::status::{find_task, Task, TaskStatus};
use crate::text::{copies, copy, decimal, same};

#[allow(unused_imports)]
use crate::admission::{
    due, lemma_announced_orderly, lemma_drained_orderly, lemma_ended_orderly,
    lemma_entered_orderly, lemma_failed_orderly, lemma_lost_orderly, lemma_nothing_due,
    lemma_polled_orderly, lemma_resized_orderly, lemma_same_order, lemma_stepped_orderly,
    lemma_submitted_orderly, lemma_worked_orderly, orderly,
};
#[allow(unused_imports)]
use crate::classify::{class_name, head_of, plan_for, PlanView};
#[allow(unused_imports)]
use crate::enqueue::shell_line;
#[allow(unused_imports)]
use crate::exit_code::exit_code_of;
#[allow(unused_imports)]
use crate::inject::{filled_args, injected_env, Fill};
#[allow(unused_imports)]
use crate::ledger::{
    ascending, at, holds, lemma_put, lemma_put_again, lemma_put_last, lemma_rank, lemma_without, put,
    without,
};
#[allow(unused_imports)]
use crate::protocol::{LeaseRow, Told};
#[allow(unused_imports)]
use crate::recovery::{least, orphan_of, RecordView};
#[allow(unused_imports)]
use crate::scheduler::{asked, fair, next, settled, settling, State};
#[allow(unused_imports)]
use crate::status::task_of;
#[allow(unused_imports)]
use crate::text::{decimal_of, maybe, texts};

verus! {

/// How long a task gets to honour the first signal before the second, in
/// milliseconds.
pub const KILL_GRACE_MS: u64 = 1000;

/// The exit code of a lease whose client went away.
pub const KILLED: i32 = 130;

/// What a task is started with.
#[derive(Debug)]
pub struct Start {
    pub cwd: String,
    /// The client's environment.
    pub env: EnvMap,
    pub plan: Plan,
}

/// One live lease.
#[derive(Debug)]
pub struct Lease {
    /// What the task is called.
    pub label: String,
    /// The command as it was asked for.
    pub argv: Vec<String>,
    /// Whether it outlives the connection that asked for it.
    pub detached: bool,
    /// Whether there is a connection to tell about it. There is none for a lease
    /// taken back from a previous daemon.
    pub connected: bool,
    pub class: Class,
    /// What its task is started with; nothing for a lease whose task was started
    /// by a previous daemon.
    pub start: Option<Start>,
    pub pueue_task_id: Option<usize>,
    pub cores_held: u32,
    pub started_at_ms: u64,
    /// When its task was handed to pueued.
    pub submitted_at_ms: Option<u64>,
    /// The fifo that its task is pointed at.
    pub fifo: Option<String>,
}

/// A teardown in flight.
#[derive(Debug)]
pub struct Kill {
    /// When the second signal follows.
    pub deadline_ms: u64,
    /// Whether the second signal was delivered.
    pub escalated: bool,
    /// Tokens that go back once the task is confirmed gone.
    pub tokens: u32,
    /// The lease that the task ran for, on record until then. There is none for a
    /// task that no lease accounted for.
    pub record: Option<Record>,
}

/// A submission whose answer never arrived: pueued may or may not have started
/// its task.
#[derive(Debug)]
pub struct Unreconciled {
    /// The label that the task would carry.
    pub label: String,
    /// When the submission went out. A task created before is somebody else's.
    pub since_ns: i64,
    /// Tokens drained for it.
    pub tokens: u32,
}

/// How a lease ended.
#[derive(Debug, PartialEq, Eq)]
pub enum Ending {
    /// Its task exited.
    Exited(i32),
    /// pueued no longer knows its task.
    Vanished(usize),
    /// pueued itself is gone, for this reason.
    Lost(String),
}

/// Work that waits until the actions before it are done.
#[derive(Debug)]
pub enum Work {
    /// A lease is over.
    Ended { id: u64, how: Ending },
    /// A lease is taken off the books if it is still on them.
    Forget(u64),
    /// Admissions that were held back go ahead, unless they still have to wait.
    Resume,
    /// Admissions that were held back go ahead.
    ResumeAll,
    /// The fifos of previous daemons that nothing uses any more are removed.
    Sweep,
}

/// How far an admission has come.
#[derive(Debug, Clone, Copy, PartialEq, Eq, Structural)]
pub enum Stage {
    /// None is under way.
    Ready,
    /// Its tokens are being drained.
    Draining { id: u64, tokens: u32 },
    /// It is being put on record.
    Recording { id: u64 },
    /// Its task is being handed to pueued.
    Submitting { id: u64, sent_at_ns: i64 },
}

/// What the machine runs on.
#[derive(Debug)]
pub struct Settings {
    /// The fifo that tasks are pointed at.
    pub fifo: String,
    /// How long a drain may take.
    pub drain_deadline_ms: u64,
    /// How commands are classified.
    pub table: Table,
    /// What a static lease asks for that asks for nothing.
    pub static_default: StaticDefault,
}

/// Something to be carried out.
#[derive(Debug, PartialEq, Eq)]
pub enum Effect {
    /// The books are written down.
    Persist,
    /// A client is told something.
    Send { lease: u64, event: LeaseEvent },
    /// Tokens go back into the pool.
    Release { tokens: u32 },
    /// Tokens are taken out of the pool, as many as are there up to a number;
    /// [`Leases::withdrawn`] is told how many.
    Withdraw { tokens: u32 },
    /// A task is asked to stop.
    Terminate { task: usize },
    /// A task is killed; [`Leases::escalated`] is told once that is delivered.
    Kill { task: usize },
    /// A fifo is removed.
    Unlink { path: String },
}

/// An effect, mathematically.
pub enum Wanted {
    Persist,
    Send { lease: u64, event: Told },
    Release { tokens: u32 },
    Withdraw { tokens: u32 },
    Terminate { task: usize },
    Kill { task: usize },
    Unlink { path: Seq<char> },
}

impl View for Effect {
    type V = Wanted;

    open spec fn view(&self) -> Wanted {
        match *self {
            Effect::Persist => Wanted::Persist,
            Effect::Send { lease, event } => Wanted::Send { lease, event: event@ },
            Effect::Release { tokens } => Wanted::Release { tokens },
            Effect::Withdraw { tokens } => Wanted::Withdraw { tokens },
            Effect::Terminate { task } => Wanted::Terminate { task },
            Effect::Kill { task } => Wanted::Kill { task },
            Effect::Unlink { path } => Wanted::Unlink { path: path@ },
        }
    }
}

/// Effects, mathematically.
pub open spec fn wanted(effects: Seq<Effect>) -> Seq<Wanted> {
    Seq::new(effects.len(), |i: int| effects[i]@)
}

/// The next thing to do.
#[derive(Debug)]
pub enum Step {
    /// Nothing, until something happens.
    Idle,
    /// These effects, and then the next step.
    Do(Vec<Effect>),
    /// A drain of up to so many tokens; [`Leases::drained`] is told how many.
    Drain { tokens: u32, deadline_ms: u64 },
}

/// The same, mathematically.
pub enum Turn {
    Idle,
    Do(Seq<Wanted>),
    Drain { tokens: u32, deadline_ms: u64 },
}

impl View for Step {
    type V = Turn;

    open spec fn view(&self) -> Turn {
        match *self {
            Step::Idle => Turn::Idle,
            Step::Do(effects) => Turn::Do(wanted(effects@)),
            Step::Drain { tokens, deadline_ms } => Turn::Drain { tokens, deadline_ms },
        }
    }
}

/// The machine's state, mathematically.
#[verifier::ext_equal]
pub struct Books {
    pub settings: Settings,
    pub scheduler: State,
    /// Live leases by id.
    pub leases: Seq<(u64, Lease)>,
    pub next_id: u64,
    /// Teardowns by task.
    pub killing: Seq<(u64, Kill)>,
    pub unreconciled: Seq<Unreconciled>,
    /// Fifos of previous daemons.
    pub old_fifos: Seq<String>,
    /// Admissions held back while a task that nothing accounts for may be on the
    /// machine.
    pub deferred: Seq<Action>,
    /// Actions to perform, first to last.
    pub pending: Seq<Action>,
    /// Work to do after them.
    pub later: Seq<Work>,
    pub stage: Stage,
    /// Tokens that are out although the pool has no room for them. That many are
    /// not put back.
    pub debt: u32,
}

/// The books after an operation, and what it asks for.
#[verifier::ext_equal]
pub struct Outcome {
    pub books: Books,
    pub effects: Seq<Wanted>,
}

/// Which actions to leave out.
#[derive(Debug, Clone, Copy, PartialEq, Eq, Structural)]
pub enum Sieve {
    NotifyOf(u64),
    DropOf(u64),
    AdmitOf(u64),
}

impl Sieve {
    /// Whether an action is left out.
    pub open spec fn stops(self, a: Action) -> bool {
        match (self, a) {
            (Sieve::NotifyOf(k), Action::Notify { id, .. }) => id.0 == k,
            (Sieve::DropOf(k), Action::Drop(id)) => id.0 == k,
            (Sieve::AdmitOf(k), Action::Admit { id, .. }) => id.0 == k,
            _ => false,
        }
    }
}

/// The actions that are not left out.
pub open spec fn kept(actions: Seq<Action>, sieve: Sieve) -> Seq<Action>
    decreases actions.len(),
{
    if actions.len() == 0 {
        actions
    } else {
        let before = kept(actions.drop_last(), sieve);
        if sieve.stops(actions.last()) {
            before
        } else {
            before.push(actions.last())
        }
    }
}

/// Whether the plan of a lease holds the command that was asked for.
pub open spec fn startable(lease: Lease) -> bool {
    lease.start is Some ==> lease.argv@.len() <= lease.start->0.plan.argv@.len()
}

impl Books {
    /// What every reachable state keeps: its parts are sound, each lease has at most one
    /// drain ahead of it, and one that is being drained for holds no tokens yet.
    pub open spec fn wf(self) -> bool {
        &&& self.sound()
        &&& orderly(self)
    }

    /// What the parts of every reachable state keep.
    pub open spec fn sound(self) -> bool {
        &&& self.scheduler.wf()
        &&& ascending(self.leases)
        &&& ascending(self.killing)
        &&& forall|k: u64| #[trigger]
            holds(self.leases, k) ==> k < self.next_id && startable(at(self.leases, k))
        &&& self.unreconciled.len() <= 1
        &&& !(self.stage is Ready) ==> !self.holding()
    }

    /// Whether an admission has to wait: a task that the admission machine has
    /// stopped counting may still be on the machine.
    pub open spec fn holding(self) -> bool {
        self.killing.len() > 0 || self.unreconciled.len() > 0
    }
}

/// A message to the client of a lease, where there is one to be told.
pub open spec fn told(b: Books, id: u64, event: Told) -> Seq<Wanted> {
    if holds(b.leases, id) && at(b.leases, id).connected {
        seq![Wanted::Send { lease: id, event }]
    } else {
        Seq::empty()
    }
}

/// Tokens come back: the debt is paid first, and the rest goes into the pool.
pub open spec fn released(b: Books, tokens: u32) -> Outcome {
    let owed = least(tokens as nat, b.debt as nat);
    Outcome {
        books: Books { debt: (b.debt - owed) as u32, ..b },
        effects: if tokens > owed {
            seq![Wanted::Release { tokens: (tokens - owed) as u32 }]
        } else {
            Seq::empty()
        },
    }
}

/// A lease leaves the books: its tokens come back and the books are written down
/// before its client hears about it.
pub open spec fn finished(b: Books, id: u64, exit_code: i32) -> Outcome {
    if holds(b.leases, id) {
        let lease = at(b.leases, id);
        let o = released(Books { leases: without(b.leases, id), ..b }, lease.cores_held);
        Outcome {
            books: o.books,
            effects: o.effects + seq![Wanted::Persist] + if lease.connected {
                seq![Wanted::Send { lease: id, event: Told::Finished { id, exit_code } }]
            } else {
                Seq::empty()
            },
        }
    } else {
        Outcome { books: b, effects: Seq::empty() }
    }
}

/// The scheduler hears of an event; what it asks for is performed after what is
/// pending.
pub open spec fn fed(b: Books, ev: Event) -> Books {
    Books {
        scheduler: next(b.scheduler, ev),
        pending: b.pending + asked(b.scheduler, ev),
        ..b
    }
}

/// The same, with some of the actions left out.
pub open spec fn fed_but(b: Books, ev: Event, sieve: Sieve) -> Books {
    Books {
        scheduler: next(b.scheduler, ev),
        pending: b.pending + kept(asked(b.scheduler, ev), sieve),
        ..b
    }
}

/// How a lease is written down.
pub open spec fn record_of(id: u64, lease: Lease, killing: bool) -> Record {
    Record {
        id,
        label: lease.label,
        argv: lease.argv,
        class: lease.class,
        cores_held: lease.cores_held,
        pueue_task_id: lease.pueue_task_id,
        started_at_unix_ms: lease.started_at_ms,
        submitted_at_unix_ms: lease.submitted_at_ms,
        fifo: lease.fifo,
        killing,
    }
}

/// A moment later.
pub open spec fn later_by(now_ms: u64, by: u64) -> u64 {
    if now_ms + by > u64::MAX {
        u64::MAX
    } else {
        (now_ms + by) as u64
    }
}

/// A lease is torn down: its task is signalled and keeps its tokens; its client
/// is told that it is over once the teardown is on the books.
pub open spec fn torn_down(b: Books, id: u64, now_ms: u64) -> Outcome {
    if holds(b.leases, id) {
        let lease = at(b.leases, id);
        let bare = Books {
            leases: without(b.leases, id),
            deferred: kept(b.deferred, Sieve::AdmitOf(id)),
            ..b
        };
        let o = match lease.pueue_task_id {
            Some(task) => Outcome {
                books: Books {
                    killing: put(
                        bare.killing,
                        task as u64,
                        Kill {
                            deadline_ms: later_by(now_ms, KILL_GRACE_MS),
                            escalated: false,
                            tokens: lease.cores_held,
                            record: Some(record_of(id, lease, true)),
                        },
                    ),
                    ..bare
                },
                effects: seq![Wanted::Terminate { task }],
            },
            None => released(bare, lease.cores_held),
        };
        Outcome {
            books: o.books,
            effects: o.effects + seq![Wanted::Persist] + if lease.connected {
                seq![
                    Wanted::Send { lease: id, event: Told::Finished { id, exit_code: KILLED } },
                ]
            } else {
                Seq::empty()
            },
        }
    } else {
        Outcome { books: b, effects: Seq::empty() }
    }
}

/// A number of leases ahead, with the admitted ones.
pub open spec fn ahead_with(ahead: usize, admitted: nat) -> usize {
    if ahead + admitted > usize::MAX {
        usize::MAX
    } else {
        (ahead + admitted) as usize
    }
}

/// What comes of one action.
pub open spec fn performed(b: Books, a: Action, now_ms: u64) -> (Books, Turn) {
    match a {
        Action::Admit { id, drain_target, .. } => if b.holding() {
            (Books { deferred: b.deferred.push(a), ..b }, Turn::Do(Seq::empty()))
        } else if holds(b.leases, id.0) && at(b.leases, id.0).start is Some {
            (
                Books { stage: Stage::Draining { id: id.0, tokens: drain_target }, ..b },
                Turn::Drain {
                    tokens: drain_target,
                    deadline_ms: b.settings.drain_deadline_ms,
                },
            )
        } else {
            (fed(b, Event::DrainFailed(id)), Turn::Do(Seq::empty()))
        },
        Action::Notify { id, ahead } => (
            b,
            Turn::Do(
                told(
                    b,
                    id.0,
                    Told::Queued {
                        id: id.0,
                        ahead: ahead_with(ahead, b.scheduler.admitted.len()),
                    },
                ),
            ),
        ),
        Action::Drop(id) => {
            let o = torn_down(b, id.0, now_ms);
            (o.books, Turn::Do(o.effects))
        },
    }
}

/// What the client of a lease that ended hears first.
pub open spec fn ending_notice(how: Ending) -> Option<Seq<char>> {
    match how {
        Ending::Exited(_) => None,
        Ending::Vanished(task) => Some(
            "pueue task "@ + decimal_of(task as nat)
                + " disappeared before it finished; its exit code is lost"@,
        ),
        Ending::Lost(err) => Some("pueued went away ("@ + err@ + "); task state unknown"@),
    }
}

/// The exit code of a lease that ended: its task's own, and 1 where that is lost.
pub open spec fn ending_code(how: Ending) -> i32 {
    match how {
        Ending::Exited(code) => code,
        _ => 1,
    }
}

/// Whether a live lease points its task at `path`.
pub open spec fn in_use(leases: Seq<(u64, Lease)>, path: Seq<char>) -> bool {
    exists|i: int|
        0 <= i < leases.len() && (#[trigger] leases[i]).1.fifo is Some && leases[i].1.fifo->0@
            == path
}

/// The fifos that are still in use.
pub open spec fn used(leases: Seq<(u64, Lease)>, fifos: Seq<String>) -> Seq<String>
    decreases fifos.len(),
{
    if fifos.len() == 0 {
        fifos
    } else {
        let before = used(leases, fifos.drop_last());
        if in_use(leases, fifos.last()@) {
            before.push(fifos.last())
        } else {
            before
        }
    }
}

/// The removal of the others.
pub open spec fn unused(leases: Seq<(u64, Lease)>, fifos: Seq<String>) -> Seq<Wanted>
    decreases fifos.len(),
{
    if fifos.len() == 0 {
        Seq::empty()
    } else {
        let before = unused(leases, fifos.drop_last());
        if in_use(leases, fifos.last()@) {
            before
        } else {
            before.push(Wanted::Unlink { path: fifos.last()@ })
        }
    }
}

/// What comes of one piece of work.
pub open spec fn worked(b: Books, w: Work) -> Outcome {
    match w {
        Work::Ended { id, how } => {
            let notice = match ending_notice(how) {
                Some(text) => told(b, id, Told::Notice { text }),
                None => Seq::empty(),
            };
            let o = finished(b, id, ending_code(how));
            Outcome {
                books: fed(o.books, Event::Finished(LeaseId(id))),
                effects: notice + o.effects,
            }
        },
        Work::Forget(id) => if holds(b.leases, id) {
            let o = released(
                Books { leases: without(b.leases, id), ..b },
                at(b.leases, id).cores_held,
            );
            Outcome { books: o.books, effects: o.effects + seq![Wanted::Persist] }
        } else {
            Outcome { books: b, effects: Seq::empty() }
        },
        Work::Resume => if b.holding() {
            Outcome { books: b, effects: Seq::empty() }
        } else {
            Outcome {
                books: Books { pending: b.pending + b.deferred, deferred: Seq::empty(), ..b },
                effects: Seq::empty(),
            }
        },
        Work::ResumeAll => Outcome {
            books: Books { pending: b.pending + b.deferred, deferred: Seq::empty(), ..b },
            effects: Seq::empty(),
        },
        Work::Sweep => if b.holding() {
            Outcome { books: b, effects: Seq::empty() }
        } else {
            Outcome {
                books: Books { old_fifos: used(b.leases, b.old_fifos), ..b },
                effects: unused(b.leases, b.old_fifos),
            }
        },
    }
}

/// The next step: nothing while an answer is awaited, else the next action, else
/// the next piece of work.
pub open spec fn stepped(b: Books, now_ms: u64) -> (Books, Turn) {
    if !(b.stage is Ready) {
        (b, Turn::Idle)
    } else if b.pending.len() > 0 {
        performed(Books { pending: b.pending.skip(1), ..b }, b.pending[0], now_ms)
    } else if b.later.len() > 0 {
        let o = worked(Books { later: b.later.skip(1), ..b }, b.later[0]);
        (o.books, Turn::Do(o.effects))
    } else {
        (b, Turn::Idle)
    }
}

/// Tokens were drained for the admission under way. A drain that collected
/// nothing is not a failure, but is said.
pub open spec fn drained(b: Books, got: u32, now_ms: u64) -> Outcome {
    match b.stage {
        Stage::Draining { id, tokens } => if holds(b.leases, id) {
            let lease = at(b.leases, id);
            Outcome {
                books: Books {
                    leases: put(
                        b.leases,
                        id,
                        Lease { cores_held: got, submitted_at_ms: Some(now_ms), ..lease },
                    ),
                    stage: Stage::Recording { id },
                    ..b
                },
                effects: if tokens > 0 && got == 0 {
                    told(
                        b,
                        id,
                        Told::Notice {
                            text: "no tokens came free in time; the task starts on its implicit one"@,
                        },
                    )
                } else {
                    Seq::empty()
                },
            }
        } else {
            Outcome { books: Books { stage: Stage::Ready, ..b }, effects: Seq::empty() }
        },
        _ => Outcome { books: b, effects: Seq::empty() },
    }
}

/// The share of the pool that a task is told: the fair share for a jobserver
/// lease, else the tokens it holds, at least the implicit one.
pub open spec fn cores_told(b: Books, id: u64, lease: Lease) -> u32 {
    if lease.class == Class::Jobserver {
        if holds(b.scheduler.admitted, id) {
            at(b.scheduler.admitted, id).share
        } else {
            1
        }
    } else if lease.cores_held < 1 {
        1
    } else {
        lease.cores_held
    }
}

/// The task of an admission, mathematically.
#[verifier::ext_equal]
pub struct TaskView {
    pub command: Seq<char>,
    pub cwd: Seq<char>,
    pub env: Map<Seq<char>, Seq<char>>,
    pub label: Option<Seq<char>>,
    pub start_immediately: bool,
}

/// A task specification, mathematically.
pub open spec fn task_view(t: TaskSpec) -> TaskView {
    TaskView {
        command: t.command@,
        cwd: t.cwd@,
        env: t.env@,
        label: maybe(t.label),
        start_immediately: t.start_immediately,
    }
}

/// The task that a lease is started as.
pub open spec fn task_for(b: Books, id: u64, lease: Lease) -> TaskView {
    let plan = lease.start->0.plan@;
    let f = Fill { fifo: b.settings.fifo@, cores: cores_told(b, id, lease) as nat };
    TaskView {
        command: shell_line(filled_args(plan.argv, lease.argv@.len() as int, f)),
        cwd: lease.start->0.cwd@,
        env: injected_env(plan, lease.start->0.env@, f).insert(
            "BUSYBEE_LEASE"@,
            decimal_of(id as nat),
        ),
        label: Some(lease.label@),
        start_immediately: true,
    }
}

/// A lease that could not be started: its client hears why, and it ends.
pub open spec fn failed(b: Books, id: u64, text: Seq<char>) -> Outcome {
    let t = fed_but(
        Books { stage: Stage::Ready, ..b },
        Event::DrainFailed(LeaseId(id)),
        Sieve::DropOf(id),
    );
    let o = finished(t, id, 1);
    Outcome { books: o.books, effects: told(t, id, Told::Notice { text }) + o.effects }
}

/// The admission under way was put on record, or could not be.
pub open spec fn recorded_as(b: Books, answer: Result<(), String>, sent_at_ns: i64) -> Books {
    match b.stage {
        Stage::Recording { id } => if !holds(b.leases, id) || at(b.leases, id).start is None {
            Books { stage: Stage::Ready, ..b }
        } else {
            match answer {
                Ok(_) => Books { stage: Stage::Submitting { id, sent_at_ns }, ..b },
                Err(err) => failed(b, id, "bzbd could not record the lease: "@ + err@).books,
            }
        },
        _ => b,
    }
}

/// The answer of pueued to the submission under way.
pub open spec fn submitted(b: Books, answer: Result<usize, String>) -> Outcome {
    match b.stage {
        Stage::Submitting { id, sent_at_ns } => if holds(b.leases, id) {
            let lease = at(b.leases, id);
            match answer {
                Ok(task) => {
                    let t = Books {
                        leases: put(b.leases, id, Lease { pueue_task_id: Some(task), ..lease }),
                        stage: Stage::Ready,
                        ..b
                    };
                    Outcome {
                        books: fed(
                            t,
                            Event::Started { id: LeaseId(id), cores_held: lease.cores_held },
                        ),
                        effects: seq![Wanted::Persist] + told(
                            b,
                            id,
                            Told::Admitted {
                                id,
                                pueue_task_id: task,
                                class: class_name(lease.class),
                                cores: cores_told(b, id, lease),
                                pool_size: b.scheduler.params.pool_size,
                                peers: if b.scheduler.admitted.len() > 0 {
                                    (b.scheduler.admitted.len() - 1) as usize
                                } else {
                                    0
                                },
                            },
                        ),
                    }
                },
                Err(err) => failed(
                    Books {
                        leases: put(b.leases, id, Lease { cores_held: 0, ..lease }),
                        unreconciled: b.unreconciled.push(
                            Unreconciled {
                                label: lease.label,
                                since_ns: sent_at_ns,
                                tokens: lease.cores_held,
                            },
                        ),
                        ..b
                    },
                    id,
                    "bzbd could not start the task: "@ + err@,
                ),
            }
        } else {
            Outcome { books: Books { stage: Stage::Ready, ..b }, effects: Seq::empty() }
        },
        _ => Outcome { books: b, effects: Seq::empty() },
    }
}

/// Whether a task is gone from pueued's list, or done.
pub open spec fn gone(tasks: Seq<Task>, id: u64) -> bool {
    id > usize::MAX || task_of(tasks, id as usize) is None || task_of(
        tasks,
        id as usize,
    )->0.status is Done
}

/// The first `n` teardowns after a look at pueued's list: what is gone gives its
/// tokens back, what outlived its grace is killed.
pub open spec fn kills_settled(
    b: Books,
    kills: Seq<(u64, Kill)>,
    tasks: Seq<Task>,
    now_ms: u64,
    n: nat,
) -> Outcome
    decreases n,
{
    if n == 0 {
        Outcome { books: Books { killing: Seq::empty(), ..b }, effects: Seq::empty() }
    } else {
        let o = kills_settled(b, kills, tasks, now_ms, (n - 1) as nat);
        let (task, kill) = kills[n - 1];
        if gone(tasks, task) {
            let r = released(o.books, kill.tokens);
            Outcome { books: r.books, effects: o.effects + r.effects }
        } else {
            Outcome {
                books: Books { killing: o.books.killing.push((task, kill)), ..o.books },
                effects: if !kill.escalated && now_ms >= kill.deadline_ms {
                    o.effects.push(Wanted::Kill { task: task as usize })
                } else {
                    o.effects
                },
            }
        }
    }
}

/// The tasks of the first `n` leases.
pub open spec fn claimed(leases: Seq<(u64, Lease)>, n: nat) -> Seq<usize>
    decreases n,
{
    if n == 0 {
        Seq::empty()
    } else {
        let before = claimed(leases, (n - 1) as nat);
        match leases[n - 1].1.pueue_task_id {
            Some(id) => before.push(id),
            None => before,
        }
    }
}

/// The first `n` unanswered submissions after a look at pueued's list: a task
/// that was started after all is stopped, and the tokens of one that was not come
/// back.
pub open spec fn submissions_settled(
    b: Books,
    list: Seq<Unreconciled>,
    tasks: Seq<Task>,
    now_ms: u64,
    n: nat,
) -> Outcome
    decreases n,
{
    if n == 0 {
        Outcome { books: Books { unreconciled: Seq::empty(), ..b }, effects: Seq::empty() }
    } else {
        let o = submissions_settled(b, list, tasks, now_ms, (n - 1) as nat);
        let u = list[n - 1];
        match orphan_of(tasks, u.label@, u.since_ns, claimed(b.leases, b.leases.len())) {
            Some(task) => Outcome {
                books: Books {
                    killing: put(
                        o.books.killing,
                        task as u64,
                        Kill {
                            deadline_ms: later_by(now_ms, KILL_GRACE_MS),
                            escalated: false,
                            tokens: u.tokens,
                            record: None,
                        },
                    ),
                    ..o.books
                },
                effects: o.effects.push(Wanted::Terminate { task }),
            },
            None => {
                let r = released(o.books, u.tokens);
                Outcome { books: r.books, effects: o.effects + r.effects }
            },
        }
    }
}

/// How a task ended, by pueued's list; nothing while it is still going.
pub open spec fn ending_of(tasks: Seq<Task>, task: usize) -> Option<Ending> {
    match task_of(tasks, task) {
        None => Some(Ending::Vanished(task)),
        Some(t) => match t.status {
            TaskStatus::Done(result) => Some(Ending::Exited(exit_code_of(result))),
            _ => None,
        },
    }
}

/// The first `n` leases whose task ended.
pub open spec fn ends(leases: Seq<(u64, Lease)>, tasks: Seq<Task>, n: nat) -> Seq<Work>
    decreases n,
{
    if n == 0 {
        Seq::empty()
    } else {
        let before = ends(leases, tasks, (n - 1) as nat);
        let (id, lease) = leases[n - 1];
        match lease.pueue_task_id {
            Some(task) => match ending_of(tasks, task) {
                Some(how) => before.push(Work::Ended { id, how }),
                None => before,
            },
            None => before,
        }
    }
}

/// A look at pueued's list: teardowns and unanswered submissions are settled, and
/// what follows from the leases whose task ended comes later. The admissions that
/// were held back go last: the tasks that they start are not on the list.
pub open spec fn polled(b: Books, tasks: Seq<Task>, now_ms: u64) -> Outcome {
    let k = kills_settled(b, b.killing, tasks, now_ms, b.killing.len());
    let s = submissions_settled(
        k.books,
        b.unreconciled,
        tasks,
        now_ms,
        b.unreconciled.len(),
    );
    Outcome {
        books: Books {
            later: s.books.later + ends(s.books.leases, tasks, s.books.leases.len()) + seq![
                Work::Resume,
                Work::Sweep,
            ],
            ..s.books
        },
        effects: k.effects + (if k.books.killing.len() < b.killing.len() {
            seq![Wanted::Persist]
        } else {
            Seq::empty()
        }) + s.effects,
    }
}

/// The tokens of the first `n` teardowns come back.
pub open spec fn kills_given_up(b: Books, kills: Seq<(u64, Kill)>, n: nat) -> Outcome
    decreases n,
{
    if n == 0 {
        Outcome { books: Books { killing: Seq::empty(), ..b }, effects: Seq::empty() }
    } else {
        let o = kills_given_up(b, kills, (n - 1) as nat);
        let r = released(o.books, kills[n - 1].1.tokens);
        Outcome { books: r.books, effects: o.effects + r.effects }
    }
}

/// The tokens of the first `n` unanswered submissions come back.
pub open spec fn submissions_given_up(b: Books, list: Seq<Unreconciled>, n: nat) -> Outcome
    decreases n,
{
    if n == 0 {
        Outcome { books: Books { unreconciled: Seq::empty(), ..b }, effects: Seq::empty() }
    } else {
        let o = submissions_given_up(b, list, (n - 1) as nat);
        let r = released(o.books, list[n - 1].tokens);
        Outcome { books: r.books, effects: o.effects + r.effects }
    }
}

/// The first `n` leases that have a task, all of them lost.
pub open spec fn losses(leases: Seq<(u64, Lease)>, err: String, n: nat) -> Seq<Work>
    decreases n,
{
    if n == 0 {
        Seq::empty()
    } else {
        let before = losses(leases, err, (n - 1) as nat);
        let (id, lease) = leases[n - 1];
        if lease.pueue_task_id is Some {
            before.push(Work::Ended { id, how: Ending::Lost(err) })
        } else {
            before
        }
    }
}

/// pueued is gone: nothing it was running can be accounted for any more. What was
/// asked of it is given up, its leases are lost, and admissions go ahead.
pub open spec fn lost(b: Books, err: String) -> Outcome {
    let k = kills_given_up(b, b.killing, b.killing.len());
    let s = submissions_given_up(k.books, b.unreconciled, b.unreconciled.len());
    Outcome {
        books: Books {
            later: s.books.later + losses(s.books.leases, err, s.books.leases.len()) + seq![
                Work::ResumeAll,
            ],
            ..s.books
        },
        effects: k.effects + s.effects + if b.holding() {
            seq![Wanted::Persist]
        } else {
            Seq::empty()
        },
    }
}

/// A submission that was not answered leaves the parts sound.
pub proof fn lemma_unanswered_sound(b: Books, t: Books, id: u64, v: Lease)
    requires
        b.sound(),
        !(b.stage is Ready),
        holds(b.leases, id),
        v == (Lease { cores_held: 0, ..at(b.leases, id) }),
        t == (Books { leases: put(b.leases, id, v), unreconciled: t.unreconciled, ..b }),
        t.unreconciled.len() == b.unreconciled.len() + 1,
    ensures
        (Books { stage: Stage::Ready, ..t }).sound(),
{
    lemma_sound_put(b, id, v);
}

proof fn lemma_sound_put(b: Books, id: u64, lease: Lease)
    requires
        b.sound(),
        id < b.next_id,
        startable(lease),
    ensures
        (Books { leases: put(b.leases, id, lease), ..b }).sound(),
{
    let t = Books { leases: put(b.leases, id, lease), ..b };
    lemma_put(b.leases, id, lease);
    assert forall|k: u64| #[trigger] holds(t.leases, k) implies k < t.next_id && startable(
        at(t.leases, k),
    ) by {
        if k != id {
            assert(holds(b.leases, k));
        }
    }
}

proof fn lemma_sound_without(b: Books, id: u64)
    requires
        b.sound(),
    ensures
        (Books { leases: without(b.leases, id), ..b }).sound(),
{
    let t = Books { leases: without(b.leases, id), ..b };
    lemma_without(b.leases, id);
    assert forall|k: u64| #[trigger] holds(t.leases, k) implies k < t.next_id && startable(
        at(t.leases, k),
    ) by {
        assert(k != id);
        assert(holds(b.leases, k));
    }
}

impl Sieve {
    fn stopping(self, a: &Action) -> (r: bool)
        ensures
            r == self.stops(*a),
    {
        match (self, a) {
            (Sieve::NotifyOf(k), Action::Notify { id, .. }) => id.0 == k,
            (Sieve::DropOf(k), Action::Drop(id)) => id.0 == k,
            (Sieve::AdmitOf(k), Action::Admit { id, .. }) => id.0 == k,
            _ => false,
        }
    }
}

fn sift(actions: &[Action], sieve: Sieve) -> (r: Vec<Action>)
    ensures
        r@ == kept(actions@, sieve),
{
    let mut out: Vec<Action> = Vec::new();
    let mut i: usize = 0;
    assert(actions@.take(0) =~= Seq::empty());
    while i < actions.len()
        invariant
            i <= actions@.len(),
            out@ == kept(actions@.take(i as int), sieve),
        decreases actions@.len() - i,
    {
        assert(actions@.take(i + 1).drop_last() =~= actions@.take(i as int));
        if !sieve.stopping(&actions[i]) {
            out.push(actions[i]);
        }
        i = i + 1;
    }
    assert(actions@.take(i as int) =~= actions@);
    out
}

/// Adds an effect.
fn ask(out: &mut Vec<Effect>, effect: Effect)
    ensures
        wanted(final(out)@) == wanted(old(out)@).push(effect@),
{
    let ghost before = out@;
    let ghost e = effect;
    out.push(effect);
    assert(wanted(out@) =~= wanted(before).push(e@));
}

/// The machine.
pub struct Leases {
    settings: Settings,
    scheduler: Scheduler,
    leases: Ledger<Lease>,
    next_id: u64,
    killing: Ledger<Kill>,
    unreconciled: Vec<Unreconciled>,
    old_fifos: Vec<String>,
    deferred: Vec<Action>,
    pending: Vec<Action>,
    later: Vec<Work>,
    stage: Stage,
    debt: u32,
}

impl View for Leases {
    type V = Books;

    closed spec fn view(&self) -> Books {
        Books {
            settings: self.settings,
            scheduler: self.scheduler@,
            leases: self.leases@,
            next_id: self.next_id,
            killing: self.killing@,
            unreconciled: self.unreconciled@,
            old_fifos: self.old_fifos@,
            deferred: self.deferred@,
            pending: self.pending@,
            later: self.later@,
            stage: self.stage,
            debt: self.debt,
        }
    }
}

impl Leases {
    /// Whether an admission has to wait.
    pub fn holding(&self) -> (r: bool)
        ensures
            r == self@.holding(),
    {
        self.killing.len() > 0 || self.unreconciled.len() > 0
    }

    fn tell(&self, id: u64, event: LeaseEvent, out: &mut Vec<Effect>)
        ensures
            wanted(final(out)@) == wanted(old(out)@) + told(self@, id, event@),
    {
        let ghost e = event@;
        let connected = match self.leases.get(id) {
            Some(lease) => lease.connected,
            None => false,
        };
        if connected {
            ask(out, Effect::Send { lease: id, event });
            assert(wanted(out@) =~= wanted(old(out)@) + told(self@, id, e));
        } else {
            assert(wanted(out@) =~= wanted(old(out)@) + told(self@, id, e));
        }
    }

    fn release(&mut self, tokens: u32, out: &mut Vec<Effect>)
        ensures
            final(self)@ == released(old(self)@, tokens).books,
            wanted(final(out)@) == wanted(old(out)@) + released(old(self)@, tokens).effects,
    {
        let owed: u32 = if tokens < self.debt {
            tokens
        } else {
            self.debt
        };
        self.debt = self.debt - owed;
        assert(wanted(out@) + Seq::<Wanted>::empty() =~= wanted(out@));
        if tokens > owed {
            ask(out, Effect::Release { tokens: tokens - owed });
            assert(wanted(out@) =~= wanted(old(out)@) + released(old(self)@, tokens).effects);
        }
    }

    fn finish(&mut self, id: u64, exit_code: i32, out: &mut Vec<Effect>)
        requires
            old(self)@.sound(),
        ensures
            final(self)@.sound(),
            final(self)@ == finished(old(self)@, id, exit_code).books,
            wanted(final(out)@) == wanted(old(out)@) + finished(
                old(self)@,
                id,
                exit_code,
            ).effects,
    {
        let ghost b = self@;
        let ghost was = wanted(out@);
        proof {
            lemma_sound_without(b, id);
        }
        match self.leases.take(id) {
            Some(lease) => {
                self.release(lease.cores_held, out);
                ask(out, Effect::Persist);
                if lease.connected {
                    ask(
                        out,
                        Effect::Send {
                            lease: id,
                            event: LeaseEvent::Finished { id, exit_code },
                        },
                    );
                }
            },
            None => {},
        }
        assert(wanted(out@) =~= was + finished(b, id, exit_code).effects);
        assert(self@ =~= finished(b, id, exit_code).books);
    }

    fn feed(&mut self, ev: Event)
        requires
            old(self)@.sound(),
        ensures
            final(self)@.sound(),
            final(self)@ == fed(old(self)@, ev),
    {
        let mut actions = self.scheduler.handle(ev);
        self.pending.append(&mut actions);
    }

    fn feed_but(&mut self, ev: Event, sieve: Sieve)
        requires
            old(self)@.sound(),
        ensures
            final(self)@.sound(),
            final(self)@ == fed_but(old(self)@, ev, sieve),
    {
        let actions = self.scheduler.handle(ev);
        let mut rest = sift(actions.as_slice(), sieve);
        self.pending.append(&mut rest);
    }

    fn tear_down(&mut self, id: u64, now_ms: u64, out: &mut Vec<Effect>)
        requires
            old(self)@.sound(),
            old(self)@.stage is Ready,
        ensures
            final(self)@.sound(),
            final(self)@ == torn_down(old(self)@, id, now_ms).books,
            wanted(final(out)@) == wanted(old(out)@) + torn_down(
                old(self)@,
                id,
                now_ms,
            ).effects,
    {
        let ghost b = self@;
        let ghost was = wanted(out@);
        proof {
            lemma_sound_without(b, id);
        }
        match self.leases.take(id) {
            Some(lease) => {
                self.deferred = sift(self.deferred.as_slice(), Sieve::AdmitOf(id));
                let connected = lease.connected;
                match lease.pueue_task_id {
                    Some(task) => {
                        ask(out, Effect::Terminate { task });
                        let kill = Kill {
                            deadline_ms: now_ms.saturating_add(KILL_GRACE_MS),
                            escalated: false,
                            tokens: lease.cores_held,
                            record: Some(
                                Record {
                                    id,
                                    label: lease.label,
                                    argv: lease.argv,
                                    class: lease.class,
                                    cores_held: lease.cores_held,
                                    pueue_task_id: lease.pueue_task_id,
                                    started_at_unix_ms: lease.started_at_ms,
                                    submitted_at_unix_ms: lease.submitted_at_ms,
                                    fifo: lease.fifo,
                                    killing: true,
                                },
                            ),
                        };
                        self.killing.set(task as u64, kill);
                    },
                    None => {
                        self.release(lease.cores_held, out);
                    },
                }
                ask(out, Effect::Persist);
                if connected {
                    ask(
                        out,
                        Effect::Send {
                            lease: id,
                            event: LeaseEvent::Finished { id, exit_code: KILLED },
                        },
                    );
                }
            },
            None => {},
        }
        assert(wanted(out@) =~= was + torn_down(b, id, now_ms).effects);
        assert(self@ =~= torn_down(b, id, now_ms).books);
    }

    fn perform(&mut self, a: Action, now_ms: u64) -> (r: Step)
        requires
            old(self)@.sound(),
            old(self)@.stage is Ready,
        ensures
            final(self)@.sound(),
            (final(self)@, r@) == performed(old(self)@, a, now_ms),
    {
        let ghost b = self@;
        match a {
            Action::Admit { id, drain_target, .. } => {
                if self.holding() {
                    self.deferred.push(a);
                    return nothing();
                }
                let ready = match self.leases.get(id.0) {
                    Some(lease) => lease.start.is_some(),
                    None => false,
                };
                if ready {
                    self.stage = Stage::Draining { id: id.0, tokens: drain_target };
                    Step::Drain {
                        tokens: drain_target,
                        deadline_ms: self.settings.drain_deadline_ms,
                    }
                } else {
                    self.feed(Event::DrainFailed(id));
                    nothing()
                }
            },
            Action::Notify { id, ahead } => {
                let mut out: Vec<Effect> = Vec::new();
                assert(wanted(out@) =~= Seq::empty());
                let ahead = ahead.saturating_add(self.scheduler.admitted_count());
                self.tell(id.0, LeaseEvent::Queued { id: id.0, ahead }, &mut out);
                assert(wanted(out@) =~= told(
                    b,
                    id.0,
                    Told::Queued { id: id.0, ahead },
                ));
                Step::Do(out)
            },
            Action::Drop(id) => {
                let mut out: Vec<Effect> = Vec::new();
                assert(wanted(out@) =~= Seq::empty());
                self.tear_down(id.0, now_ms, &mut out);
                assert(wanted(out@) =~= torn_down(b, id.0, now_ms).effects);
                Step::Do(out)
            },
        }
    }

    fn uses(&self, path: &str) -> (r: bool)
        ensures
            r == in_use(self@.leases, path@),
    {
        let mut i: usize = 0;
        while i < self.leases.len()
            invariant
                i <= self@.leases.len(),
                forall|j: int|
                    0 <= j < i ==> !((#[trigger] self@.leases[j]).1.fifo is Some
                        && self@.leases[j].1.fifo->0@ == path@),
            decreases self@.leases.len() - i,
        {
            if let Some(fifo) = &self.leases.value(i).fifo {
                if same(fifo.as_str(), path) {
                    assert(self@.leases[i as int].1.fifo is Some);
                    return true;
                }
            }
            i = i + 1;
        }
        false
    }

    fn sweep(&mut self, out: &mut Vec<Effect>)
        ensures
            final(self)@ == (Books {
                old_fifos: used(old(self)@.leases, old(self)@.old_fifos),
                ..old(self)@
            }),
            wanted(final(out)@) == wanted(old(out)@) + unused(
                old(self)@.leases,
                old(self)@.old_fifos,
            ),
    {
        let ghost b = self@;
        let ghost was = wanted(out@);
        let mut keep: Vec<String> = Vec::new();
        let mut i: usize = 0;
        assert(b.old_fifos.take(0) =~= Seq::empty());
        assert(was + Seq::<Wanted>::empty() =~= was);
        while i < self.old_fifos.len()
            invariant
                self@ == b,
                i <= b.old_fifos.len(),
                keep@ == used(b.leases, b.old_fifos.take(i as int)),
                wanted(out@) == was + unused(b.leases, b.old_fifos.take(i as int)),
            decreases b.old_fifos.len() - i,
        {
            assert(b.old_fifos.take(i + 1).drop_last() =~= b.old_fifos.take(i as int));
            let ghost so_far = wanted(out@);
            if self.uses(self.old_fifos[i].as_str()) {
                keep.push(self.old_fifos[i].clone());
            } else {
                ask(out, Effect::Unlink { path: self.old_fifos[i].clone() });
                assert(wanted(out@) =~= was + unused(b.leases, b.old_fifos.take(i + 1)));
            }
            i = i + 1;
        }
        assert(b.old_fifos.take(i as int) =~= b.old_fifos);
        self.old_fifos = keep;
    }

    fn work(&mut self, w: Work, out: &mut Vec<Effect>)
        requires
            old(self)@.sound(),
        ensures
            final(self)@.sound(),
            final(self)@ == worked(old(self)@, w).books,
            wanted(final(out)@) == wanted(old(out)@) + worked(old(self)@, w).effects,
    {
        let ghost b = self@;
        let ghost was = wanted(out@);
        let ghost what = w;
        match w {
            Work::Ended { id, how } => {
                let ghost h = how;
                let code = match how {
                    Ending::Exited(code) => code,
                    Ending::Vanished(task) => {
                        let mut text = copy("pueue task ");
                        text.append(decimal(task as u64).as_str());
                        text.append(" disappeared before it finished; its exit code is lost");
                        self.tell(id, LeaseEvent::Notice { text }, out);
                        1
                    },
                    Ending::Lost(err) => {
                        let mut text = copy("pueued went away (");
                        text.append(err.as_str());
                        text.append("); task state unknown");
                        self.tell(id, LeaseEvent::Notice { text }, out);
                        1
                    },
                };
                self.finish(id, code, out);
                self.feed(Event::Finished(LeaseId(id)));
            },
            Work::Forget(id) => {
                proof {
                    lemma_sound_without(b, id);
                }
                match self.leases.take(id) {
                    Some(lease) => {
                        self.release(lease.cores_held, out);
                        ask(out, Effect::Persist);
                    },
                    None => {},
                }
            },
            Work::Resume => {
                if !self.holding() {
                    self.resume();
                }
            },
            Work::ResumeAll => {
                self.resume();
            },
            Work::Sweep => {
                if !self.holding() {
                    self.sweep(out);
                }
            },
        }
        assert(wanted(out@) =~= was + worked(b, what).effects);
        assert(self@ =~= worked(b, what).books);
    }

    fn resume(&mut self)
        ensures
            final(self)@ == (Books {
                pending: old(self)@.pending + old(self)@.deferred,
                deferred: Seq::empty(),
                ..old(self)@
            }),
    {
        let mut waiting: Vec<Action> = Vec::new();
        waiting.append(&mut self.deferred);
        self.pending.append(&mut waiting);
        assert(self@.deferred =~= Seq::empty());
    }

    /// The next thing to do.
    pub fn step(&mut self, now_ms: u64) -> (r: Step)
        requires
            old(self)@.wf(),
        ensures
            final(self)@.wf(),
            (final(self)@, r@) == stepped(old(self)@, now_ms),
    {
        proof {
            lemma_stepped_orderly(self@, now_ms);
        }
        let ghost b = self@;
        match self.stage {
            Stage::Ready => {},
            _ => {
                return Step::Idle;
            },
        }
        if self.pending.len() > 0 {
            let a = self.pending.remove(0);
            assert(self@ =~= (Books { pending: b.pending.skip(1), ..b }));
            self.perform(a, now_ms)
        } else if self.later.len() > 0 {
            let w = self.later.remove(0);
            assert(self@ =~= (Books { later: b.later.skip(1), ..b }));
            let mut out: Vec<Effect> = Vec::new();
            assert(wanted(out@) =~= Seq::empty());
            let ghost o = worked(self@, w);
            self.work(w, &mut out);
            assert(wanted(out@) =~= o.effects);
            Step::Do(out)
        } else {
            Step::Idle
        }
    }
}

/// A step that asks for nothing.
fn nothing() -> (r: Step)
    ensures
        r@ == Turn::Do(Seq::empty()),
{
    let out: Vec<Effect> = Vec::new();
    assert(wanted(out@) =~= Seq::empty());
    Step::Do(out)
}

/// What follows from an admission being put on record.
#[derive(Debug)]
pub enum Recorded {
    /// Nothing was being put on record.
    Idle,
    /// Its task is handed to pueued; [`Leases::submitted`] is told the answer.
    Submit(TaskSpec),
    /// It does not start.
    Failed(Vec<Effect>),
}

impl Leases {
    /// Tokens were drained for the admission under way.
    pub fn drained(&mut self, got: u32, now_ms: u64) -> (r: Vec<Effect>)
        requires
            old(self)@.wf(),
        ensures
            final(self)@.wf(),
            final(self)@ == drained(old(self)@, got, now_ms).books,
            wanted(r@) == drained(old(self)@, got, now_ms).effects,
    {
        proof {
            lemma_drained_orderly(self@, got, now_ms);
        }
        let ghost b = self@;
        let mut out: Vec<Effect> = Vec::new();
        assert(wanted(out@) =~= Seq::empty());
        if let Stage::Draining { id, tokens } = self.stage {
            match self.leases.take(id) {
                Some(lease) => {
                    let connected = lease.connected;
                    let lease = Lease { cores_held: got, submitted_at_ms: Some(now_ms), ..lease };
                    proof {
                        lemma_put_again(b.leases, id, lease);
                        lemma_sound_put(b, id, lease);
                        lemma_without(b.leases, id);
                    }
                    self.leases.set(id, lease);
                    self.stage = Stage::Recording { id };
                    if tokens > 0 && got == 0 && connected {
                        ask(
                            &mut out,
                            Effect::Send {
                                lease: id,
                                event: LeaseEvent::Notice {
                                    text: copy(
                                        "no tokens came free in time; the task starts on its implicit one",
                                    ),
                                },
                            },
                        );
                    }
                },
                None => {
                    self.stage = Stage::Ready;
                },
            }
        }
        assert(wanted(out@) =~= drained(b, got, now_ms).effects);
        assert(self@ =~= drained(b, got, now_ms).books);
        out
    }

    fn fail(&mut self, id: u64, text: String, out: &mut Vec<Effect>)
        requires
            old(self)@.sound(),
        ensures
            final(self)@.sound(),
            final(self)@ == failed(old(self)@, id, text@).books,
            wanted(final(out)@) == wanted(old(out)@) + failed(old(self)@, id, text@).effects,
    {
        let ghost b = self@;
        let ghost was = wanted(out@);
        let ghost t = text@;
        self.stage = Stage::Ready;
        self.feed_but(Event::DrainFailed(LeaseId(id)), Sieve::DropOf(id));
        self.tell(id, LeaseEvent::Notice { text }, out);
        self.finish(id, 1, out);
        assert(wanted(out@) =~= was + failed(b, id, t).effects);
    }

    fn share_told(&self, id: u64, lease: &Lease) -> (r: u32)
        ensures
            r == cores_told(self@, id, *lease),
    {
        match lease.class {
            Class::Jobserver => match self.scheduler.share_of(LeaseId(id)) {
                Some(share) => share,
                None => 1,
            },
            _ => if lease.cores_held < 1 {
                1
            } else {
                lease.cores_held
            },
        }
    }

    /// The admission under way is on record, or could not be put there. A grant
    /// that is not on record is one that a restarted daemon would never find, so
    /// its task does not start. `sent_at_ns` is the time, in nanoseconds since 1970.
    pub fn recorded(&mut self, answer: Result<(), String>, sent_at_ns: i64) -> (r: Recorded)
        requires
            old(self)@.wf(),
        ensures
            final(self)@.wf(),
            final(self)@ == recorded_as(old(self)@, answer, sent_at_ns),
            match old(self)@.stage {
                Stage::Recording { id } => if !holds(old(self)@.leases, id) || at(
                    old(self)@.leases,
                    id,
                ).start is None {
                    &&& r is Idle
                    &&& final(self)@ == (Books { stage: Stage::Ready, ..old(self)@ })
                } else {
                    match answer {
                        Ok(_) => {
                            &&& r is Submit
                            &&& task_view(r->Submit_0) == task_for(
                                old(self)@,
                                id,
                                at(old(self)@.leases, id),
                            )
                            &&& final(self)@ == (Books {
                                stage: Stage::Submitting { id, sent_at_ns },
                                ..old(self)@
                            })
                        },
                        Err(err) => {
                            let o = failed(
                                old(self)@,
                                id,
                                "bzbd could not record the lease: "@ + err@,
                            );
                            &&& r is Failed
                            &&& wanted(r->Failed_0@) == o.effects
                            &&& final(self)@ == o.books
                        },
                    }
                },
                _ => r is Idle && final(self)@ == old(self)@,
            },
    {
        proof {
            lemma_same_order(self@, Books { stage: Stage::Ready, ..self@ });
            if let Stage::Recording { id } = self.stage {
                lemma_same_order(
                    self@,
                    Books { stage: Stage::Submitting { id, sent_at_ns }, ..self@ },
                );
                if answer is Err {
                    lemma_failed_orderly(
                        self@,
                        id,
                        "bzbd could not record the lease: "@ + answer->Err_0@,
                    );
                }
            }
        }
        let ghost b = self@;
        let id = match self.stage {
            Stage::Recording { id } => id,
            _ => {
                return Recorded::Idle;
            },
        };
        let known = match self.leases.get(id) {
            Some(lease) => lease.start.is_some(),
            None => false,
        };
        if !known {
            self.stage = Stage::Ready;
            return Recorded::Idle;
        }
        match answer {
            Err(err) => {
                let mut text = copy("bzbd could not record the lease: ");
                text.append(err.as_str());
                let mut out: Vec<Effect> = Vec::new();
                assert(wanted(out@) =~= Seq::empty());
                let ghost o = failed(b, id, text@);
                self.fail(id, text, &mut out);
                assert(wanted(out@) =~= o.effects);
                Recorded::Failed(out)
            },
            Ok(_) => {
                let task = match self.leases.get(id) {
                    Some(lease) => match &lease.start {
                        Some(start) => {
                            let cores = self.share_told(id, lease);
                            let injected = inject(
                                &start.plan,
                                lease.argv.len(),
                                start.env.duplicate(),
                                self.settings.fifo.as_str(),
                                cores,
                            );
                            let mut env = injected.env;
                            env.insert(copy(LEASE_ENV), decimal(id));
                            Some(
                                TaskSpec {
                                    command: shell_escape_join(injected.argv.as_slice()),
                                    cwd: start.cwd.clone(),
                                    env,
                                    label: Some(lease.label.clone()),
                                    start_immediately: true,
                                },
                            )
                        },
                        None => None,
                    },
                    None => None,
                };
                self.stage = Stage::Submitting { id, sent_at_ns };
                match task {
                    Some(task) => {
                        assert(task_view(task) =~= task_for(b, id, at(b.leases, id)));
                        Recorded::Submit(task)
                    },
                    None => Recorded::Idle,
                }
            },
        }
    }

    /// pueued's answer to the submission under way. Where none came, pueued may
    /// have started the task anyway: the next look at its list goes looking for it
    /// before anything else is admitted, and the tokens stay out until then.
    pub fn submitted(&mut self, answer: Result<usize, String>) -> (r: Vec<Effect>)
        requires
            old(self)@.wf(),
        ensures
            final(self)@.wf(),
            final(self)@ == submitted(old(self)@, answer).books,
            wanted(r@) == submitted(old(self)@, answer).effects,
    {
        proof {
            lemma_submitted_orderly(self@, answer);
        }
        let ghost b = self@;
        let ghost a = answer;
        let mut out: Vec<Effect> = Vec::new();
        assert(wanted(out@) =~= Seq::empty());
        let (id, sent_at_ns) = match self.stage {
            Stage::Submitting { id, sent_at_ns } => (id, sent_at_ns),
            _ => {
                return out;
            },
        };
        proof {
            lemma_without(b.leases, id);
        }
        let lease = match self.leases.take(id) {
            Some(lease) => lease,
            None => {
                self.stage = Stage::Ready;
                return out;
            },
        };
        match answer {
            Ok(task) => {
                let cores = self.share_told(id, &lease);
                let cores_held = lease.cores_held;
                let connected = lease.connected;
                let class = lease.class;
                let lease = Lease { pueue_task_id: Some(task), ..lease };
                proof {
                    lemma_put_again(b.leases, id, lease);
                    lemma_sound_put(b, id, lease);
                }
                self.leases.set(id, lease);
                self.stage = Stage::Ready;
                ask(&mut out, Effect::Persist);
                if connected {
                    let peers = self.scheduler.admitted_count().saturating_sub(1);
                    ask(
                        &mut out,
                        Effect::Send {
                            lease: id,
                            event: LeaseEvent::Admitted {
                                id,
                                pueue_task_id: task,
                                class: copy(class.as_str()),
                                cores,
                                pool_size: self.params().pool_size,
                                peers,
                            },
                        },
                    );
                }
                self.feed(Event::Started { id: LeaseId(id), cores_held });
                assert(wanted(out@) =~= submitted(b, a).effects);
                assert(self@ =~= submitted(b, a).books);
            },
            Err(err) => {
                let pending = Unreconciled {
                    label: lease.label.clone(),
                    since_ns: sent_at_ns,
                    tokens: lease.cores_held,
                };
                let lease = Lease { cores_held: 0, ..lease };
                proof {
                    lemma_put_again(b.leases, id, lease);
                    lemma_sound_put(b, id, lease);
                }
                self.leases.set(id, lease);
                let ghost t = Books {
                    leases: put(b.leases, id, lease),
                    unreconciled: b.unreconciled.push(pending),
                    ..b
                };
                self.stage = Stage::Ready;
                self.unreconciled.push(pending);
                assert((Books { stage: Stage::Ready, ..t }) =~= self@);
                let mut text = copy("bzbd could not start the task: ");
                text.append(err.as_str());
                self.fail(id, text, &mut out);
                assert(wanted(out@) =~= submitted(b, a).effects);
                assert(self@ =~= submitted(b, a).books);
            },
        }
        out
    }

    /// What admissions go by.
    pub fn params(&self) -> (r: Params)
        ensures
            r == self@.scheduler.params,
    {
        self.scheduler.params()
    }
}

/// What the client of a new lease is told before its place in the queue.
pub open spec fn plan_notices(b: Books, id: u64, lines: Seq<Seq<char>>, n: nat) -> Seq<Wanted>
    decreases n,
{
    if n == 0 {
        Seq::empty()
    } else {
        plan_notices(b, id, lines, (n - 1) as nat) + told(
            b,
            id,
            Told::Notice { text: lines[n - 1] },
        )
    }
}

/// The core count that a lease asks for: the user's, and for a static lease the
/// configured one where the user gave none.
pub open spec fn wanted_cores(plan: PlanView, static_default: StaticDefault) -> Option<u32> {
    match (plan.cores_wanted, plan.class, static_default) {
        (Some(n), _, _) => Some(n),
        (None, Class::Static, StaticDefault::Cores(n)) => Some(n),
        _ => None,
    }
}

/// A lease joins the queue: its client hears what there is to say about its
/// command, then its place, which the scheduler does not repeat.
pub open spec fn announced(b: Books, id: u64) -> Outcome {
    if holds(b.leases, id) && at(b.leases, id).start is Some {
        let lease = at(b.leases, id);
        let plan = lease.start->0.plan@;
        Outcome {
            books: fed_but(
                b,
                Event::Submit(
                    Request {
                        id: LeaseId(id),
                        class: lease.class,
                        cores_wanted: wanted_cores(plan, b.settings.static_default),
                        label: lease.label,
                    },
                ),
                Sieve::NotifyOf(id),
            ),
            effects: plan_notices(b, id, plan.notices, plan.notices.len()) + told(
                b,
                id,
                Told::Queued { id, ahead: (b.leases.len() - 1) as usize },
            ),
        }
    } else {
        Outcome { books: b, effects: Seq::empty() }
    }
}

/// A lease is ended on request. One that was still queued has nothing to be torn
/// down, so it is taken off the books afterwards.
pub open spec fn ended(b: Books, id: u64) -> Books {
    let t = fed(b, Event::Cancel(LeaseId(id)));
    Books { later: t.later.push(Work::Forget(id)), ..t }
}

/// New parameters: tokens are added to a pool that grew, and taken from one that
/// shrank, but not from the leases that hold them.
pub open spec fn resized(b: Books, params: Params) -> Outcome {
    let before = b.scheduler.params.pool_size;
    let s = State { params, ..b.scheduler };
    let t = Books {
        scheduler: settled(s),
        pending: b.pending + settling(s),
        ..b
    };
    if params.pool_size >= before {
        released(t, (params.pool_size - before) as u32)
    } else {
        let less = (before - params.pool_size) as u32;
        Outcome {
            books: Books {
                debt: least((b.debt + less) as nat, u32::MAX as nat) as u32,
                ..t
            },
            effects: seq![Wanted::Withdraw { tokens: less }],
        }
    }
}

/// Tokens of the first `n` leases.
pub open spec fn leased(leases: Seq<(u64, Lease)>, n: nat) -> nat
    decreases n,
{
    if n == 0 {
        0
    } else {
        leased(leases, (n - 1) as nat) + leases[n - 1].1.cores_held as nat
    }
}

/// Tokens of the first `n` teardowns.
pub open spec fn ending(kills: Seq<(u64, Kill)>, n: nat) -> nat
    decreases n,
{
    if n == 0 {
        0
    } else {
        ending(kills, (n - 1) as nat) + kills[n - 1].1.tokens as nat
    }
}

/// Tokens of the first `n` unanswered submissions.
pub open spec fn unanswered(list: Seq<Unreconciled>, n: nat) -> nat
    decreases n,
{
    if n == 0 {
        0
    } else {
        unanswered(list, (n - 1) as nat) + list[n - 1].tokens as nat
    }
}

impl Books {
    /// Tokens that are out: held by leases, by tasks being torn down, and by tasks
    /// that may have been started.
    pub open spec fn out(self) -> nat {
        leased(self.leases, self.leases.len()) + ending(self.killing, self.killing.len())
            + unanswered(self.unreconciled, self.unreconciled.len())
    }
}

/// Tokens in the pipe beyond what the pool can have free.
pub open spec fn excess_of(b: Books, free: u32) -> nat {
    let pool = b.scheduler.params.pool_size as nat;
    let expected = if b.out() >= pool {
        0
    } else {
        (pool - b.out()) as nat
    };
    if free > expected {
        (free - expected) as nat
    } else {
        0
    }
}

/// How an admitted or queued lease is reported.
pub open spec fn row_of(
    b: Books,
    id: u64,
    class: Class,
    cores: u32,
    position: nat,
    now_ms: u64,
) -> LeaseRow {
    let known = holds(b.leases, id);
    let lease = at(b.leases, id);
    let task = if known {
        lease.pueue_task_id
    } else {
        None
    };
    LeaseRow {
        id,
        label: if known {
            lease.label@
        } else {
            Seq::empty()
        },
        tool: if known {
            head_of(texts(lease.argv@)).0
        } else {
            Seq::empty()
        },
        class: class_name(class),
        cores,
        state: if task is None {
            "queued"@
        } else if lease.connected {
            "running"@
        } else {
            "orphaned"@
        },
        elapsed_ms: if known && now_ms > lease.started_at_ms {
            (now_ms - lease.started_at_ms) as u64
        } else {
            0
        },
        ahead: if task is None {
            Some(position as usize)
        } else {
            None
        },
        pueue_task_id: task,
    }
}

/// The leases as they are reported: the admitted ones by id, then the queue.
pub open spec fn rows(b: Books, now_ms: u64) -> Seq<LeaseRow> {
    let a = b.scheduler.admitted;
    let q = b.scheduler.queue;
    Seq::new(
        a.len() + q.len(),
        |i: int|
            if i < a.len() {
                row_of(b, a[i].0, a[i].1.class, a[i].1.cores_held, i as nat, now_ms)
            } else {
                row_of(
                    b,
                    q[i - a.len()].id.0,
                    q[i - a.len()].class,
                    0,
                    i as nat,
                    now_ms,
                )
            },
    )
}

/// Leases on the wire, mathematically.
pub open spec fn lease_rows(v: Seq<LeaseView>) -> Seq<LeaseRow> {
    Seq::new(v.len(), |i: int| v[i]@)
}

/// Records, mathematically.
pub open spec fn record_views(v: Seq<Record>) -> Seq<RecordView> {
    Seq::new(v.len(), |i: int| v[i]@)
}

/// The records of the first `n` leases.
pub open spec fn lease_records(leases: Seq<(u64, Lease)>, n: nat) -> Seq<RecordView>
    decreases n,
{
    if n == 0 {
        Seq::empty()
    } else {
        lease_records(leases, (n - 1) as nat).push(
            record_of(leases[n - 1].0, leases[n - 1].1, false)@,
        )
    }
}

/// The records of the first `n` teardowns.
pub open spec fn kill_records(kills: Seq<(u64, Kill)>, n: nat) -> Seq<RecordView>
    decreases n,
{
    if n == 0 {
        Seq::empty()
    } else {
        let before = kill_records(kills, (n - 1) as nat);
        match kills[n - 1].1.record {
            Some(record) => before.push(record@),
            None => before,
        }
    }
}

fn copy_record(r: &Record) -> (out: Record)
    ensures
        out@ == r@,
{
    let out = Record {
        id: r.id,
        label: r.label.clone(),
        argv: copies(r.argv.as_slice()),
        class: r.class,
        cores_held: r.cores_held,
        pueue_task_id: r.pueue_task_id,
        started_at_unix_ms: r.started_at_unix_ms,
        submitted_at_unix_ms: r.submitted_at_unix_ms,
        fifo: match &r.fifo {
            Some(fifo) => Some(fifo.clone()),
            None => None,
        },
        killing: r.killing,
    };
    assert(out@ =~= r@);
    out
}

fn is_gone(tasks: &[Task], id: u64) -> (r: bool)
    ensures
        r == gone(tasks@, id),
{
    if id > usize::MAX as u64 {
        return true;
    }
    match find_task(tasks, id as usize) {
        None => true,
        Some(t) => match &t.status {
            TaskStatus::Done(_) => true,
            _ => false,
        },
    }
}

/// What pueued's list says about a lease's task: how it ended, or nothing while
/// it is still going. A task that the list no longer holds has ended too, since
/// no report of it will ever come.
pub fn completion(tasks: &[Task], task: usize) -> (r: Option<Ending>)
    ensures
        r == ending_of(tasks@, task),
{
    match find_task(tasks, task) {
        None => Some(Ending::Vanished(task)),
        Some(t) => match &t.status {
            TaskStatus::Done(result) => Some(Ending::Exited(task_result_to_exit_code(result))),
            _ => None,
        },
    }
}

impl Leases {
    /// Whether there is an id for another lease.
    pub fn can_enter(&self) -> (r: bool)
        ensures
            r == (self@.next_id < u64::MAX),
    {
        self.next_id < 0xffff_ffff_ffff_ffff
    }

    /// Puts a lease on the books. It joins the queue with [`Leases::announce`].
    pub fn enter(&mut self, request: LeaseRequest, now_ms: u64) -> (r: (u64, Vec<Effect>))
        requires
            old(self)@.wf(),
            old(self)@.next_id < u64::MAX,
        ensures
            final(self)@.wf(),
            r.0 == old(self)@.next_id,
            !holds(old(self)@.leases, r.0),
            wanted(r.1@) == seq![Wanted::Persist],
            final(self)@ == (Books {
                leases: put(old(self)@.leases, r.0, at(final(self)@.leases, r.0)),
                next_id: (r.0 + 1) as u64,
                ..old(self)@
            }),
            holds(final(self)@.leases, r.0),
            due(final(self)@, r.0) == 0,
            ({
                let lease = at(final(self)@.leases, r.0);
                let settings = old(self)@.settings;
                &&& lease.label@ == match request.label {
                    Some(label) => label@,
                    None => shell_line(texts(request.argv@)),
                }
                &&& lease.argv == request.argv
                &&& lease.detached == request.detached
                &&& lease.connected
                &&& lease.start matches Some(start) && start.cwd == request.cwd && start.env
                    == request.env && start.plan@ == plan_for(
                    texts(request.argv@),
                    Overrides { class: request.class_override, cores: request.cores_wanted },
                    settings.table@,
                ) && lease.class == start.plan.class
                &&& lease.pueue_task_id is None
                &&& lease.cores_held == 0
                &&& lease.started_at_ms == now_ms
                &&& lease.submitted_at_ms is None
                &&& maybe(lease.fifo) == Some(settings.fifo@)
            }),
    {
        let ghost b = self@;
        let id = self.next_id;
        self.next_id = id + 1;
        let overrides = Overrides {
            class: request.class_override,
            cores: request.cores_wanted,
        };
        let plan = classify(request.argv.as_slice(), &overrides, &self.settings.table);
        let label = match request.label {
            Some(label) => label,
            None => shell_escape_join(request.argv.as_slice()),
        };
        proof {
            assert(texts(request.argv@).len() <= plan@.argv.len());
        }
        let lease = Lease {
            label,
            argv: request.argv,
            detached: request.detached,
            connected: true,
            class: plan.class,
            start: Some(Start { cwd: request.cwd, env: request.env, plan }),
            pueue_task_id: None,
            cores_held: 0,
            started_at_ms: now_ms,
            submitted_at_ms: None,
            fifo: Some(self.settings.fifo.clone()),
        };
        proof {
            lemma_put(b.leases, id, lease);
            assert forall|k: u64| #[trigger] holds(b.leases, k) implies k < self.next_id by {}
            lemma_sound_put(Books { next_id: (id + 1) as u64, ..b }, id, lease);
            lemma_entered_orderly(b, lease);
        }
        self.leases.set(id, lease);
        let mut out: Vec<Effect> = Vec::new();
        ask(&mut out, Effect::Persist);
        assert(wanted(out@) =~= seq![Wanted::Persist]);
        (id, out)
    }

    /// Takes a lease whose client never heard of it off the books again.
    pub fn withdraw(&mut self, id: u64) -> (r: Vec<Effect>)
        requires
            old(self)@.wf(),
            due(old(self)@, id) == 0,
        ensures
            final(self)@.wf(),
            final(self)@ == worked(old(self)@, Work::Forget(id)).books,
            wanted(r@) == worked(old(self)@, Work::Forget(id)).effects,
    {
        proof {
            lemma_worked_orderly(self@, Work::Forget(id));
        }
        let ghost b = self@;
        let mut out: Vec<Effect> = Vec::new();
        assert(wanted(out@) =~= Seq::empty());
        self.work(Work::Forget(id), &mut out);
        assert(wanted(out@) =~= worked(b, Work::Forget(id)).effects);
        out
    }

    /// A lease joins the queue, once, and its client is told.
    pub fn announce(&mut self, id: u64) -> (r: Vec<Effect>)
        requires
            old(self)@.wf(),
            due(old(self)@, id) == 0,
            holds(old(self)@.leases, id) ==> at(old(self)@.leases, id).cores_held == 0,
        ensures
            final(self)@.wf(),
            final(self)@ == announced(old(self)@, id).books,
            wanted(r@) == announced(old(self)@, id).effects,
    {
        proof {
            lemma_announced_orderly(self@, id);
        }
        let ghost b = self@;
        let mut out: Vec<Effect> = Vec::new();
        assert(wanted(out@) =~= Seq::empty());
        let request = match self.leases.get(id) {
            Some(lease) => match &lease.start {
                Some(start) => {
                    let plan = &start.plan;
                    let ghost lines = plan@.notices;
                    let mut i: usize = 0;
                    while i < plan.notices.len()
                        invariant
                            self@ == b,
                            lines == plan@.notices,
                            i <= plan.notices@.len(),
                            wanted(out@) == plan_notices(b, id, lines, i as nat),
                        decreases plan.notices@.len() - i,
                    {
                        self.tell(
                            id,
                            LeaseEvent::Notice { text: plan.notices[i].clone() },
                            &mut out,
                        );
                        i = i + 1;
                    }
                    let cores_wanted = match plan.cores_wanted {
                        Some(n) => Some(n),
                        None => match plan.class {
                            Class::Static => self.settings.static_default.cores_wanted(),
                            _ => None,
                        },
                    };
                    Request {
                        id: LeaseId(id),
                        class: lease.class,
                        cores_wanted,
                        label: lease.label.clone(),
                    }
                },
                None => {
                    return out;
                },
            },
            None => {
                return out;
            },
        };
        proof {
            lemma_rank(b.leases, id);
        }
        let ahead = self.leases.len() - 1;
        self.tell(id, LeaseEvent::Queued { id, ahead }, &mut out);
        self.feed_but(Event::Submit(request), Sieve::NotifyOf(id));
        assert(self@ =~= announced(b, id).books);
        assert(wanted(out@) =~= announced(b, id).effects);
        out
    }

    fn end(&mut self, id: u64)
        requires
            old(self)@.sound(),
        ensures
            final(self)@.sound(),
            final(self)@ == ended(old(self)@, id),
    {
        self.feed(Event::Cancel(LeaseId(id)));
        self.later.push(Work::Forget(id));
    }

    /// The connection of a lease is gone, and the lease with it, unless it was
    /// asked to outlive it.
    pub fn hangup(&mut self, id: u64)
        requires
            old(self)@.wf(),
        ensures
            final(self)@.wf(),
            final(self)@ == if holds(old(self)@.leases, id) && at(
                old(self)@.leases,
                id,
            ).detached {
                old(self)@
            } else {
                ended(old(self)@, id)
            },
    {
        proof {
            lemma_ended_orderly(self@, id);
        }
        let stays = match self.leases.get(id) {
            Some(lease) => lease.detached,
            None => false,
        };
        if !stays {
            self.end(id);
        }
    }

    /// Ends a lease, whoever asked for it. Says whether there is such a lease.
    pub fn cancel(&mut self, id: u64) -> (r: bool)
        requires
            old(self)@.wf(),
        ensures
            final(self)@.wf(),
            r == holds(old(self)@.leases, id),
            final(self)@ == if r {
                ended(old(self)@, id)
            } else {
                old(self)@
            },
    {
        proof {
            lemma_ended_orderly(self@, id);
        }
        let live = self.leases.find(id).is_some();
        if live {
            self.end(id);
        }
        live
    }

    /// A reloaded configuration. The queue is looked at again, since its head may
    /// be admissible now.
    pub fn set_params(&mut self, params: Params) -> (r: Vec<Effect>)
        requires
            old(self)@.wf(),
        ensures
            final(self)@.wf(),
            final(self)@ == resized(old(self)@, params).books,
            wanted(r@) == resized(old(self)@, params).effects,
    {
        proof {
            lemma_resized_orderly(self@, params);
        }
        let ghost b = self@;
        let mut out: Vec<Effect> = Vec::new();
        assert(wanted(out@) =~= Seq::empty());
        let before = self.params().pool_size;
        self.scheduler.set_params(params);
        let mut actions = self.scheduler.settle();
        self.pending.append(&mut actions);
        if params.pool_size >= before {
            self.release(params.pool_size - before, &mut out);
        } else {
            let less = before - params.pool_size;
            self.debt = self.debt.saturating_add(less);
            ask(&mut out, Effect::Withdraw { tokens: less });
        }
        assert(self@ =~= resized(b, params).books);
        assert(wanted(out@) =~= resized(b, params).effects);
        out
    }

    /// Takes over everything but the parameters of a reloaded configuration.
    pub fn set_settings(&mut self, drain_deadline_ms: u64, table: Table, static_default: StaticDefault)
        ensures
            final(self)@ == (Books {
                settings: Settings {
                    fifo: old(self)@.settings.fifo,
                    drain_deadline_ms,
                    table,
                    static_default,
                },
                ..old(self)@
            }),
    {
        self.settings.drain_deadline_ms = drain_deadline_ms;
        self.settings.table = table;
        self.settings.static_default = static_default;
    }

    /// Tokens were taken out of the pool. They pay the debt, as far as there is
    /// one.
    pub fn withdrawn(&mut self, got: u32)
        ensures
            final(self)@ == (Books {
                debt: (old(self)@.debt - least(got as nat, old(self)@.debt as nat)) as u32,
                ..old(self)@
            }),
    {
        self.debt = self.debt.saturating_sub(got);
    }

    /// Tokens that are out, `u32::MAX` at most.
    pub fn held(&self) -> (r: u32)
        ensures
            r == least(self@.out(), u32::MAX as nat),
    {
        let mut total: u32 = 0;
        let mut i: usize = 0;
        while i < self.leases.len()
            invariant
                i <= self@.leases.len(),
                total == least(leased(self@.leases, i as nat), u32::MAX as nat),
            decreases self@.leases.len() - i,
        {
            total = total.saturating_add(self.leases.value(i).cores_held);
            i = i + 1;
        }
        let ghost leases = leased(self@.leases, i as nat);
        let mut j: usize = 0;
        while j < self.killing.len()
            invariant
                j <= self@.killing.len(),
                total == least(leases + ending(self@.killing, j as nat), u32::MAX as nat),
            decreases self@.killing.len() - j,
        {
            total = total.saturating_add(self.killing.value(j).tokens);
            j = j + 1;
        }
        let ghost kills = ending(self@.killing, j as nat);
        let mut k: usize = 0;
        while k < self.unreconciled.len()
            invariant
                k <= self@.unreconciled.len(),
                total == least(
                    leases + kills + unanswered(self@.unreconciled, k as nat),
                    u32::MAX as nat,
                ),
            decreases self@.unreconciled.len() - k,
        {
            total = total.saturating_add(self.unreconciled[k].tokens);
            k = k + 1;
        }
        total
    }

    /// Tokens that are owed to a pool that shrank.
    pub fn debt(&self) -> (r: u32)
        ensures
            r == self@.debt,
    {
        self.debt
    }

    /// Tokens in the pipe that no lease can account for, when it holds `free`: a
    /// tool wrote what it had not read, or the pool shrank. They are to be taken
    /// out again.
    pub fn excess(&self, free: u32) -> (r: u32)
        ensures
            r == excess_of(self@, free),
    {
        let expected = self.params().pool_size.saturating_sub(self.held());
        free.saturating_sub(expected)
    }

    /// Whether pueued's list is worth asking for.
    pub fn wants_poll(&self) -> (r: bool)
        ensures
            r == (self@.holding() || self@.deferred.len() > 0 || exists|i: int|
                0 <= i < self@.leases.len() && (#[trigger] self@.leases[i]).1.pueue_task_id
                    is Some),
    {
        if self.holding() || self.deferred.len() > 0 {
            return true;
        }
        let mut i: usize = 0;
        while i < self.leases.len()
            invariant
                i <= self@.leases.len(),
                forall|j: int|
                    0 <= j < i ==> (#[trigger] self@.leases[j]).1.pueue_task_id is None,
            decreases self@.leases.len() - i,
        {
            if self.leases.value(i).pueue_task_id.is_some() {
                assert(self@.leases[i as int].1.pueue_task_id is Some);
                return true;
            }
            i = i + 1;
        }
        false
    }

    fn settle_kills(&mut self, tasks: &[Task], now_ms: u64, out: &mut Vec<Effect>)
        requires
            old(self)@.sound(),
        ensures
            final(self)@.sound(),
            ({
                let b = old(self)@;
                let o = kills_settled(b, b.killing, tasks@, now_ms, b.killing.len());
                &&& final(self)@ == o.books
                &&& wanted(final(out)@) == wanted(old(out)@) + o.effects
            }),
    {
        let ghost b = self@;
        let ghost was = wanted(out@);
        let mut kills = self.killing.drain();
        let ghost all = kills@;
        let ghost mut n: nat = 0;
        assert(was + Seq::<Wanted>::empty() =~= was);
        while kills.len() > 0
            invariant
                b.sound(),
                all == b.killing,
                n <= all.len(),
                kills@ == all.skip(n as int),
                self@.sound(),
                self@.stage == b.stage,
                self@.unreconciled == b.unreconciled,
                self@ == kills_settled(b, all, tasks@, now_ms, n).books,
                wanted(out@) == was + kills_settled(b, all, tasks@, now_ms, n).effects,
                forall|i: int, j: int|
                    0 <= i < self@.killing.len() && n <= j < all.len() ==> (
                    #[trigger] self@.killing[i]).0 < (#[trigger] all[j]).0,
            decreases kills@.len(),
        {
            let (task, kill) = kills.remove(0);
            let ghost so_far = wanted(out@);
            let ghost o = kills_settled(b, all, tasks@, now_ms, n);
            proof {
                assert(kills@ =~= all.skip(n as int + 1));
                assert((task, kill) == all[n as int]);
                n = n + 1;
            }
            if is_gone(tasks, task) {
                self.release(kill.tokens, out);
                assert(wanted(out@) =~= was + kills_settled(b, all, tasks@, now_ms, n).effects);
            } else {
                if !kill.escalated && now_ms >= kill.deadline_ms {
                    ask(out, Effect::Kill { task: task as usize });
                }
                proof {
                    assert forall|i: int| 0 <= i < self@.killing.len() implies (
                    #[trigger] self@.killing[i]).0 < task by {
                        assert(all[n as int - 1].0 == task);
                    }
                    lemma_put_last(self@.killing, task, kill);
                }
                self.killing.set(task, kill);
                assert(wanted(out@) =~= was + kills_settled(b, all, tasks@, now_ms, n).effects);
                assert(self@ =~= kills_settled(b, all, tasks@, now_ms, n).books);
            }
        }
    }

    fn settle_submissions(&mut self, tasks: &[Task], now_ms: u64, out: &mut Vec<Effect>)
        requires
            old(self)@.sound(),
        ensures
            final(self)@.sound(),
            ({
                let b = old(self)@;
                let o = submissions_settled(
                    b,
                    b.unreconciled,
                    tasks@,
                    now_ms,
                    b.unreconciled.len(),
                );
                &&& final(self)@ == o.books
                &&& wanted(final(out)@) == wanted(old(out)@) + o.effects
            }),
    {
        let ghost b = self@;
        let ghost was = wanted(out@);
        let mut busy: Vec<usize> = Vec::new();
        let mut i: usize = 0;
        while i < self.leases.len()
            invariant
                self@ == b,
                i <= b.leases.len(),
                busy@ == claimed(b.leases, i as nat),
            decreases b.leases.len() - i,
        {
            if let Some(id) = self.leases.value(i).pueue_task_id {
                busy.push(id);
            }
            i = i + 1;
        }
        let mut list: Vec<Unreconciled> = Vec::new();
        list.append(&mut self.unreconciled);
        let ghost all = list@;
        assert(self@.unreconciled =~= Seq::empty());
        assert(was + Seq::<Wanted>::empty() =~= was);
        let mut k: usize = 0;
        while k < list.len()
            invariant
                list@ == all,
                all == b.unreconciled,
                busy@ == claimed(b.leases, b.leases.len()),
                k <= all.len(),
                b.sound(),
                self@.sound(),
                self@.stage == b.stage,
                self@ == submissions_settled(b, all, tasks@, now_ms, k as nat).books,
                wanted(out@) == was + submissions_settled(
                    b,
                    all,
                    tasks@,
                    now_ms,
                    k as nat,
                ).effects,
            decreases all.len() - k,
        {
            let u = &list[k];
            let tokens = u.tokens;
            match orphan(tasks, u.label.as_str(), u.since_ns, busy.as_slice()) {
                Some(task) => {
                    ask(out, Effect::Terminate { task });
                    let kill = Kill {
                        deadline_ms: now_ms.saturating_add(KILL_GRACE_MS),
                        escalated: false,
                        tokens,
                        record: None,
                    };
                    self.killing.set(task as u64, kill);
                },
                None => {
                    self.release(tokens, out);
                },
            }
            k = k + 1;
            assert(self@ =~= submissions_settled(b, all, tasks@, now_ms, k as nat).books);
            assert(wanted(out@) =~= was + submissions_settled(
                b,
                all,
                tasks@,
                now_ms,
                k as nat,
            ).effects);
        }
    }

    /// A look at pueued's list.
    pub fn polled(&mut self, tasks: &[Task], now_ms: u64) -> (r: Vec<Effect>)
        requires
            old(self)@.wf(),
        ensures
            final(self)@.wf(),
            final(self)@ == polled(old(self)@, tasks@, now_ms).books,
            wanted(r@) == polled(old(self)@, tasks@, now_ms).effects,
    {
        proof {
            lemma_polled_orderly(self@, tasks@, now_ms);
        }
        let ghost b = self@;
        let mut out: Vec<Effect> = Vec::new();
        assert(wanted(out@) =~= Seq::empty());
        let before = self.killing.len();
        self.settle_kills(tasks, now_ms, &mut out);
        if self.killing.len() < before {
            ask(&mut out, Effect::Persist);
        }
        let ghost k = self@;
        proof {
            lemma_kills_settled_frame(b, b.killing, tasks@, now_ms, b.killing.len());
        }
        self.settle_submissions(tasks, now_ms, &mut out);
        let ghost s = self@;
        let mut i: usize = 0;
        assert(s.later + Seq::<Work>::empty() =~= s.later);
        while i < self.leases.len()
            invariant
                self@ == (Books { later: s.later + ends(s.leases, tasks@, i as nat), ..s }),
                self@.sound(),
                i <= s.leases.len(),
            decreases s.leases.len() - i,
        {
            let id = self.leases.key(i);
            if let Some(task) = self.leases.value(i).pueue_task_id {
                if let Some(how) = completion(tasks, task) {
                    self.later.push(Work::Ended { id, how });
                }
            }
            i = i + 1;
            assert(self@.later =~= s.later + ends(s.leases, tasks@, i as nat));
        }
        self.later.push(Work::Resume);
        self.later.push(Work::Sweep);
        assert(self@.later =~= s.later + ends(s.leases, tasks@, s.leases.len()) + seq![
            Work::Resume,
            Work::Sweep,
        ]);
        assert(self@ =~= polled(b, tasks@, now_ms).books);
        assert(wanted(out@) =~= polled(b, tasks@, now_ms).effects);
        out
    }

    /// The second signal to a task was delivered. It is not sent again.
    pub fn escalated(&mut self, task: usize)
        requires
            old(self)@.wf(),
        ensures
            final(self)@.wf(),
            final(self)@ == if holds(old(self)@.killing, task as u64) {
                Books {
                    killing: put(
                        old(self)@.killing,
                        task as u64,
                        Kill { escalated: true, ..at(old(self)@.killing, task as u64) },
                    ),
                    ..old(self)@
                }
            } else {
                old(self)@
            },
    {
        let ghost b = self@;
        proof {
            lemma_without(b.killing, task as u64);
        }
        if let Some(kill) = self.killing.take(task as u64) {
            let kill = Kill { escalated: true, ..kill };
            proof {
                lemma_put_again(b.killing, task as u64, kill);
            }
            self.killing.set(task as u64, kill);
        }
        proof {
            lemma_same_order(b, self@);
        }
    }

    /// pueued is gone, for a reason.
    pub fn lost(&mut self, err: &String) -> (r: Vec<Effect>)
        requires
            old(self)@.wf(),
        ensures
            final(self)@.wf(),
            final(self)@ == lost(old(self)@, *err).books,
            wanted(r@) == lost(old(self)@, *err).effects,
    {
        proof {
            lemma_lost_orderly(self@, *err);
        }
        let ghost b = self@;
        let mut out: Vec<Effect> = Vec::new();
        assert(wanted(out@) =~= Seq::empty());
        let holding = self.holding();
        let kills = self.killing.drain();
        let mut i: usize = 0;
        while i < kills.len()
            invariant
                b.sound(),
                kills@ == b.killing,
                i <= kills@.len(),
                self@.sound(),
                self@ == kills_given_up(b, b.killing, i as nat).books,
                wanted(out@) == kills_given_up(b, b.killing, i as nat).effects,
            decreases kills@.len() - i,
        {
            self.release(kills[i].1.tokens, &mut out);
            i = i + 1;
        }
        let ghost k = self@;
        let ghost so_far = wanted(out@);
        proof {
            lemma_kills_given_up_frame(b, b.killing, b.killing.len());
        }
        let mut list: Vec<Unreconciled> = Vec::new();
        list.append(&mut self.unreconciled);
        assert(self@.unreconciled =~= Seq::empty());
        assert(so_far + Seq::<Wanted>::empty() =~= so_far);
        let mut j: usize = 0;
        while j < list.len()
            invariant
                list@ == b.unreconciled,
                j <= list@.len(),
                self@.sound(),
                self@ == submissions_given_up(k, b.unreconciled, j as nat).books,
                wanted(out@) == so_far + submissions_given_up(
                    k,
                    b.unreconciled,
                    j as nat,
                ).effects,
            decreases list@.len() - j,
        {
            self.release(list[j].tokens, &mut out);
            j = j + 1;
            assert(wanted(out@) =~= so_far + submissions_given_up(
                k,
                b.unreconciled,
                j as nat,
            ).effects);
        }
        if holding {
            ask(&mut out, Effect::Persist);
        }
        let ghost s = self@;
        let mut n: usize = 0;
        assert(s.later + Seq::<Work>::empty() =~= s.later);
        while n < self.leases.len()
            invariant
                self@ == (Books { later: s.later + losses(s.leases, *err, n as nat), ..s }),
                self@.sound(),
                n <= s.leases.len(),
            decreases s.leases.len() - n,
        {
            let id = self.leases.key(n);
            if self.leases.value(n).pueue_task_id.is_some() {
                self.later.push(Work::Ended { id, how: Ending::Lost(err.clone()) });
            }
            n = n + 1;
            assert(self@.later =~= s.later + losses(s.leases, *err, n as nat));
        }
        self.later.push(Work::ResumeAll);
        assert(self@.later =~= s.later + losses(s.leases, *err, s.leases.len()) + seq![
            Work::ResumeAll,
        ]);
        assert(self@ =~= lost(b, *err).books);
        assert(wanted(out@) =~= lost(b, *err).effects);
        out
    }
}

/// Settling teardowns touches the teardowns and the debt.
pub proof fn lemma_kills_settled_frame(
    b: Books,
    kills: Seq<(u64, Kill)>,
    tasks: Seq<Task>,
    now_ms: u64,
    n: nat,
)
    ensures
        ({
            let t = kills_settled(b, kills, tasks, now_ms, n).books;
            t == (Books { killing: t.killing, debt: t.debt, ..b })
        }),
    decreases n,
{
    if n > 0 {
        lemma_kills_settled_frame(b, kills, tasks, now_ms, (n - 1) as nat);
    }
}

/// Giving teardowns up touches the teardowns and the debt.
pub proof fn lemma_kills_given_up_frame(b: Books, kills: Seq<(u64, Kill)>, n: nat)
    ensures
        ({
            let t = kills_given_up(b, kills, n).books;
            t == (Books { killing: Seq::empty(), debt: t.debt, ..b })
        }),
    decreases n,
{
    if n > 0 {
        lemma_kills_given_up_frame(b, kills, (n - 1) as nat);
    }
}

/// Nothing on the books.
pub open spec fn fresh(params: Params, settings: Settings, debt: u32) -> Books {
    Books {
        settings,
        scheduler: State {
            params,
            queue: Seq::empty(),
            admitted: Seq::empty(),
            notified: Seq::empty(),
        },
        leases: Seq::empty(),
        next_id: 1,
        killing: Seq::empty(),
        unreconciled: Seq::empty(),
        old_fifos: Seq::empty(),
        deferred: Seq::empty(),
        pending: Seq::empty(),
        later: Seq::empty(),
        stage: Stage::Ready,
        debt,
    }
}

/// Whether a path is among the fifos.
pub open spec fn lists(fifos: Seq<String>, path: Seq<char>) -> bool {
    exists|i: int| 0 <= i < fifos.len() && (#[trigger] fifos[i])@ == path
}

/// The fifos with another one, unless it is there.
pub open spec fn noted(fifos: Seq<String>, fifo: Option<String>) -> Seq<String> {
    match fifo {
        Some(path) => if lists(fifos, path@) {
            fifos
        } else {
            fifos.push(path)
        },
        None => fifos,
    }
}

/// The next id after one that was in use.
pub open spec fn id_after(next_id: u64, id: u64) -> u64 {
    if id < next_id {
        next_id
    } else {
        (id + 1) as u64
    }
}

/// The first `n` teardowns of a previous daemon, taken over. Their grace starts
/// over.
pub open spec fn resumed(b: Books, records: Seq<Record>, now_ms: u64, n: nat) -> Books
    decreases n,
{
    if n == 0 {
        b
    } else {
        let t = resumed(b, records, now_ms, (n - 1) as nat);
        let r = records[n - 1];
        match r.pueue_task_id {
            Some(task) => Books {
                next_id: id_after(t.next_id, r.id),
                old_fifos: noted(t.old_fifos, r.fifo),
                killing: put(
                    t.killing,
                    task as u64,
                    Kill {
                        deadline_ms: later_by(now_ms, KILL_GRACE_MS),
                        escalated: false,
                        tokens: r.cores_held,
                        record: Some(r),
                    },
                ),
                ..t
            },
            None => t,
        }
    }
}

/// A lease taken back: nobody is listening, and only its own end or a
/// cancellation ends it.
pub open spec fn taken_back(r: Record) -> Lease {
    Lease {
        label: r.label,
        argv: r.argv,
        detached: true,
        connected: false,
        class: r.class,
        start: None,
        pueue_task_id: r.pueue_task_id,
        cores_held: r.cores_held,
        started_at_ms: r.started_at_unix_ms,
        submitted_at_ms: r.submitted_at_unix_ms,
        fifo: r.fifo,
    }
}

/// The first `n` leases of a previous daemon, taken back with what they hold.
pub open spec fn adopted(b: Books, records: Seq<Record>, n: nat) -> Books
    decreases n,
{
    if n == 0 {
        b
    } else {
        let t = adopted(b, records, (n - 1) as nat);
        let r = records[n - 1];
        Books {
            scheduler: State {
                admitted: put(
                    t.scheduler.admitted,
                    r.id,
                    crate::scheduler::Admitted {
                        class: r.class,
                        cores_held: r.cores_held,
                        label: r.label,
                        share: fair(
                            t.scheduler.params.pool_size as nat,
                            t.scheduler.admitted.len(),
                        ) as u32,
                    },
                ),
                ..t.scheduler
            },
            next_id: id_after(t.next_id, r.id),
            old_fifos: noted(t.old_fifos, r.fifo),
            leases: put(t.leases, r.id, taken_back(r)),
            ..t
        }
    }
}

/// What a previous daemon left running waits for nothing.
proof fn lemma_nobody_waits(
    b: Books,
    resume: Seq<Record>,
    adopt: Seq<Record>,
    now_ms: u64,
    n: nat,
    m: nat,
)
    ensures
        ({
            let t = adopted(resumed(b, resume, now_ms, n), adopt, m);
            &&& t.scheduler.queue == b.scheduler.queue
            &&& t.pending == b.pending
            &&& t.deferred == b.deferred
            &&& t.stage == b.stage
        }),
    decreases n + m,
{
    if m > 0 {
        lemma_nobody_waits(b, resume, adopt, now_ms, n, (m - 1) as nat);
    } else if n > 0 {
        lemma_nobody_waits(b, resume, adopt, now_ms, (n - 1) as nat, 0);
    }
}

impl Leases {
    fn note_fifo(&mut self, fifo: &Option<String>)
        ensures
            final(self)@ == (Books {
                old_fifos: noted(old(self)@.old_fifos, *fifo),
                ..old(self)@
            }),
    {
        if let Some(path) = fifo {
            let mut i: usize = 0;
            while i < self.old_fifos.len()
                invariant
                    self@ == old(self)@,
                    *fifo == Some(*path),
                    i <= self@.old_fifos.len(),
                    forall|j: int| 0 <= j < i ==> (#[trigger] self@.old_fifos[j])@ != path@,
                decreases self@.old_fifos.len() - i,
            {
                if same(self.old_fifos[i].as_str(), path.as_str()) {
                    assert(self@.old_fifos[i as int]@ == path@);
                    return;
                }
                i = i + 1;
            }
            self.old_fifos.push(path.clone());
        }
    }

    /// A machine that starts from what a previous daemon left running. Leases
    /// taken back hold their slots and tokens from the first admission on,
    /// teardowns hold admissions back until their task is confirmed gone, and ids
    /// carry on from after theirs. The books are written down: they say what was
    /// taken back, not what the previous daemon last knew.
    pub fn new(
        params: Params,
        settings: Settings,
        adopt: Vec<Record>,
        resume: Vec<Record>,
        debt: u32,
        now_ms: u64,
    ) -> (r: (Self, Vec<Effect>))
        requires
            adopt@.len() <= u32::MAX,
            forall|i: int| 0 <= i < adopt@.len() ==> (#[trigger] adopt@[i]).id < u64::MAX,
            forall|i: int| 0 <= i < resume@.len() ==> (#[trigger] resume@[i]).id < u64::MAX,
        ensures
            r.0@.wf(),
            r.0@ == adopted(
                resumed(fresh(params, settings, debt), resume@, now_ms, resume@.len()),
                adopt@,
                adopt@.len(),
            ),
            wanted(r.1@) == seq![Wanted::Persist],
    {
        let ghost start = fresh(params, settings, debt);
        let mut actor = Leases {
            settings,
            scheduler: Scheduler::new(params),
            leases: Ledger::new(),
            next_id: 1,
            killing: Ledger::new(),
            unreconciled: Vec::new(),
            old_fifos: Vec::new(),
            deferred: Vec::new(),
            pending: Vec::new(),
            later: Vec::new(),
            stage: Stage::Ready,
            debt,
        };
        assert(actor@ =~= start);
        let ghost first = resume@;
        let mut rest = resume;
        let ghost mut n: nat = 0;
        assert(first.skip(0) =~= first);
        while rest.len() > 0
            invariant
                n <= first.len(),
                rest@ == first.skip(n as int),
                actor@.sound(),
                actor@.leases.len() == 0,
                actor@.scheduler.admitted.len() == 0,
                actor@.stage is Ready,
                forall|i: int| 0 <= i < first.len() ==> (#[trigger] first[i]).id < u64::MAX,
                actor@ == resumed(start, first, now_ms, n),
            decreases rest@.len(),
        {
            let record = rest.remove(0);
            proof {
                assert(record == first[n as int]);
                n = n + 1;
                assert(rest@ =~= first.skip(n as int));
            }
            if let Some(task) = record.pueue_task_id {
                actor.note_fifo(&record.fifo);
                if record.id >= actor.next_id {
                    actor.next_id = record.id + 1;
                }
                let kill = Kill {
                    deadline_ms: now_ms.saturating_add(KILL_GRACE_MS),
                    escalated: false,
                    tokens: record.cores_held,
                    record: Some(record),
                };
                actor.killing.set(task as u64, kill);
                proof {
                    assert forall|k: u64| !#[trigger] holds(actor@.leases, k) by {}
                }
            }
            assert(actor@ =~= resumed(start, first, now_ms, n));
        }
        let ghost mid = actor@;
        let ghost second = adopt@;
        let mut rest = adopt;
        let ghost mut m: nat = 0;
        assert(second.skip(0) =~= second);
        while rest.len() > 0
            invariant
                m <= second.len() <= u32::MAX,
                rest@ == second.skip(m as int),
                actor@.sound(),
                actor@.scheduler.admitted.len() <= m,
                forall|i: int| 0 <= i < second.len() ==> (#[trigger] second[i]).id < u64::MAX,
                actor@ == adopted(mid, second, m),
            decreases rest@.len(),
        {
            let ghost b = actor@;
            let record = rest.remove(0);
            let ghost rec = record;
            proof {
                assert(record == second[m as int]);
                m = m + 1;
                assert(rest@ =~= second.skip(m as int));
            }
            actor.note_fifo(&record.fifo);
            let id = record.id;
            if id >= actor.next_id {
                actor.next_id = id + 1;
            }
            let ghost before = actor@;
            actor.scheduler.adopt(
                Request {
                    id: LeaseId(id),
                    class: record.class,
                    cores_wanted: None,
                    label: record.label.clone(),
                },
                record.cores_held,
            );
            let lease = Lease {
                label: record.label,
                argv: record.argv,
                detached: true,
                connected: false,
                class: record.class,
                start: None,
                pueue_task_id: record.pueue_task_id,
                cores_held: record.cores_held,
                started_at_ms: record.started_at_unix_ms,
                submitted_at_ms: record.submitted_at_unix_ms,
                fifo: record.fifo,
            };
            proof {
                lemma_put(
                    b.scheduler.admitted,
                    id,
                    crate::scheduler::Admitted {
                        class: rec.class,
                        cores_held: rec.cores_held,
                        label: rec.label,
                        share: fair(
                            b.scheduler.params.pool_size as nat,
                            b.scheduler.admitted.len(),
                        ) as u32,
                    },
                );
                assert forall|k: u64| #[trigger] holds(actor@.leases, k) implies k
                    < actor@.next_id && startable(at(actor@.leases, k)) by {
                    assert(holds(b.leases, k));
                }
                lemma_sound_put(actor@, id, lease);
            }
            actor.leases.set(id, lease);
            assert(actor@ =~= adopted(mid, second, m));
        }
        proof {
            lemma_nobody_waits(start, first, second, now_ms, first.len(), second.len());
            lemma_nothing_due(actor@);
        }
        let mut out: Vec<Effect> = Vec::new();
        ask(&mut out, Effect::Persist);
        assert(wanted(out@) =~= seq![Wanted::Persist]);
        (actor, out)
    }

    /// What is written down: the leases, and the teardowns that are not seen
    /// through.
    pub fn records(&self) -> (r: Vec<Record>)
        ensures
            record_views(r@) == lease_records(self@.leases, self@.leases.len()) + kill_records(
                self@.killing,
                self@.killing.len(),
            ),
    {
        let mut out: Vec<Record> = Vec::new();
        let mut i: usize = 0;
        assert(record_views(out@) =~= Seq::empty());
        while i < self.leases.len()
            invariant
                i <= self@.leases.len(),
                record_views(out@) == lease_records(self@.leases, i as nat),
            decreases self@.leases.len() - i,
        {
            let id = self.leases.key(i);
            let lease = self.leases.value(i);
            let ghost before = record_views(out@);
            let record = Record {
                id,
                label: lease.label.clone(),
                argv: copies(lease.argv.as_slice()),
                class: lease.class,
                cores_held: lease.cores_held,
                pueue_task_id: lease.pueue_task_id,
                started_at_unix_ms: lease.started_at_ms,
                submitted_at_unix_ms: lease.submitted_at_ms,
                fifo: match &lease.fifo {
                    Some(fifo) => Some(fifo.clone()),
                    None => None,
                },
                killing: false,
            };
            assert(record@ =~= record_of(id, *lease, false)@);
            out.push(record);
            assert(record_views(out@) =~= before.push(record_of(id, *lease, false)@));
            i = i + 1;
        }
        let ghost leases = record_views(out@);
        let mut j: usize = 0;
        assert(leases + Seq::<RecordView>::empty() =~= leases);
        while j < self.killing.len()
            invariant
                j <= self@.killing.len(),
                record_views(out@) == leases + kill_records(self@.killing, j as nat),
            decreases self@.killing.len() - j,
        {
            let ghost before = record_views(out@);
            if let Some(record) = &self.killing.value(j).record {
                out.push(copy_record(record));
                assert(record_views(out@) =~= before.push(record@));
            }
            j = j + 1;
            assert(record_views(out@) =~= leases + kill_records(self@.killing, j as nat));
        }
        out
    }

    fn report(&self, id: u64, class: Class, cores: u32, position: usize, now_ms: u64) -> (r:
        LeaseView)
        ensures
            r@ == row_of(self@, id, class, cores, position as nat, now_ms),
    {
        match self.leases.get(id) {
            Some(lease) => {
                let running = lease.pueue_task_id.is_some();
                LeaseView {
                    id,
                    label: lease.label.clone(),
                    tool: unwrap_wrappers(lease.argv.as_slice()).tool,
                    class: copy(class.as_str()),
                    cores,
                    state: if !running {
                        copy("queued")
                    } else if lease.connected {
                        copy("running")
                    } else {
                        copy("orphaned")
                    },
                    elapsed_ms: now_ms.saturating_sub(lease.started_at_ms),
                    ahead: if running {
                        None
                    } else {
                        Some(position)
                    },
                    pueue_task_id: lease.pueue_task_id,
                }
            },
            None => {
                let out = LeaseView {
                    id,
                    label: String::new(),
                    tool: String::new(),
                    class: copy(class.as_str()),
                    cores,
                    state: copy("queued"),
                    elapsed_ms: 0,
                    ahead: Some(position),
                    pueue_task_id: None,
                };
                assert(out@ =~= row_of(self@, id, class, cores, position as nat, now_ms));
                out
            },
        }
    }

    /// The pool and the leases as they stand, when the pipe holds `free` tokens. A
    /// lease that is admitted but has no task yet is reported as queued: it is
    /// held back, and nobody is executing its command.
    pub fn status(&self, free: u32, now_ms: u64) -> (r: StatusReply)
        ensures
            r.pool_size == self@.scheduler.params.pool_size,
            r.free == free,
            r.held == least(self@.out(), u32::MAX as nat),
            lease_rows(r.leases@) == rows(self@, now_ms),
    {
        let snapshot = self.scheduler.snapshot();
        let mut leases: Vec<LeaseView> = Vec::new();
        let ghost a = self@.scheduler.admitted;
        let ghost q = self@.scheduler.queue;
        let mut i: usize = 0;
        while i < snapshot.admitted.len()
            invariant
                a == self@.scheduler.admitted,
                snapshot.admitted@.len() == a.len(),
                forall|k: int|
                    0 <= k < a.len() ==> (#[trigger] snapshot.admitted@[k]).id.0 == a[k].0
                        && snapshot.admitted@[k].class == a[k].1.class
                        && snapshot.admitted@[k].cores_held == a[k].1.cores_held,
                i <= a.len(),
                leases@.len() == i,
                forall|k: int|
                    0 <= k < i ==> (#[trigger] leases@[k])@ == row_of(
                        self@,
                        a[k].0,
                        a[k].1.class,
                        a[k].1.cores_held,
                        k as nat,
                        now_ms,
                    ),
            decreases a.len() - i,
        {
            let l = &snapshot.admitted[i];
            leases.push(self.report(l.id.0, l.class, l.cores_held, i, now_ms));
            i = i + 1;
        }
        let mut j: usize = 0;
        while j < snapshot.queued.len()
            invariant
                a == self@.scheduler.admitted,
                q == self@.scheduler.queue,
                snapshot.queued@ == q,
                j <= q.len(),
                leases@.len() == a.len() + j,
                forall|k: int|
                    0 <= k < a.len() ==> (#[trigger] leases@[k])@ == row_of(
                        self@,
                        a[k].0,
                        a[k].1.class,
                        a[k].1.cores_held,
                        k as nat,
                        now_ms,
                    ),
                forall|k: int|
                    a.len() <= k < a.len() + j ==> (#[trigger] leases@[k])@ == row_of(
                        self@,
                        q[k - a.len()].id.0,
                        q[k - a.len()].class,
                        0,
                        k as nat,
                        now_ms,
                    ),
            decreases q.len() - j,
        {
            let position = leases.len();
            let r = &snapshot.queued[j];
            leases.push(self.report(r.id.0, r.class, 0, position, now_ms));
            j = j + 1;
        }
        assert(lease_rows(leases@) =~= rows(self@, now_ms));
        StatusReply { pool_size: self.params().pool_size, free, held: self.held(), leases }
    }
}

} // verus!
