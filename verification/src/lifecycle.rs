//! What the lease machine is for, stated of what it is handed and what it asks
//! for: an admission is held back no longer than it must be, a task is started as
//! it was asked for, and a lease that is over is ended and told so.

use vstd::prelude::*;

#[allow(unused_imports)]
use crate::admission::{admits_it, lemma_submissions_frame};
#[allow(unused_imports)]
use crate::classify::{class_name, head_of, Class, PlanView};
#[allow(unused_imports)]
use crate::config::StaticDefault;
#[allow(unused_imports)]
use crate::enqueue::shell_line;
#[allow(unused_imports)]
use crate::exit_code::{exit_code_of, TaskResult};
#[allow(unused_imports)]
use crate::inject::{filled_args, injected_env, law_the_users_arguments_are_untouched, Fill};
#[allow(unused_imports)]
use crate::ledger::{
    ascending, at, holds, lemma_found, lemma_put, lemma_rank, lemma_without, put, rank, without,
};
#[allow(unused_imports)]
use crate::leases::{
    adopted, announced, claimed, cores_told, drained, ended, ending_notice, ending_of, ends,
    excess_of, failed, fed, fed_but, fresh, gone, in_use, kept, kill_records, kills_given_up,
    kills_settled, later_by, lease_records, lemma_kills_given_up_frame, lemma_kills_settled_frame,
    lists, losses, lost, noted, performed, plan_notices, polled, record_of, recorded_as, released,
    resized, resumed, rows, stepped, submissions_given_up, submissions_settled, submitted,
    taken_back, task_for, told, unused, used, wanted_cores, worked, Books, Ending, Kill, Lease,
    Settings, Sieve, Stage, Turn, Unreconciled, Wanted, Work, KILL_GRACE_MS,
};
#[allow(unused_imports)]
use crate::protocol::Told;
#[allow(unused_imports)]
use crate::recovery::{
    law_a_submission_is_matched_with_its_own_task, lemma_task_at, one_each, orphan_of,
    started_under, Record,
};
#[allow(unused_imports)]
use crate::scheduler::{
    asked, fair, law_a_teardown_is_asked_for_once, next, settled, settling, Action, Admitted, Event,
    LeaseId, Params, Request, State,
};
#[allow(unused_imports)]
use crate::status::{law_a_task_is_found_by_its_id, task_of, Task, TaskStatus};
#[allow(unused_imports)]
use crate::text::{decimal_of, maybe, texts};

verus! {

/// Whether some piece of work lets go of what is held back.
pub open spec fn lets_go(later: Seq<Work>) -> bool {
    exists|i: int| 0 <= i < later.len() && ((#[trigger] later[i]) is Resume || later[i] is ResumeAll)
}

/// Whether an admission is held back only while something is being waited for,
/// or until the work that lets it go is done.
pub open spec fn held_for_a_reason(b: Books) -> bool {
    b.deferred.len() > 0 ==> b.holding() || lets_go(b.later)
}

proof fn lemma_lets_go_more(a: Seq<Work>, b: Seq<Work>)
    ensures
        lets_go(a) ==> lets_go(a + b),
        lets_go(b) ==> lets_go(a + b),
{
    if lets_go(a) {
        let i = choose|i: int|
            0 <= i < a.len() && ((#[trigger] a[i]) is Resume || a[i] is ResumeAll);
        assert((a + b)[i] == a[i]);
    }
    if lets_go(b) {
        let i = choose|i: int|
            0 <= i < b.len() && ((#[trigger] b[i]) is Resume || b[i] is ResumeAll);
        assert((a + b)[a.len() + i] == b[i]);
    }
}

proof fn lemma_kept_fewer(actions: Seq<Action>, sieve: Sieve)
    ensures
        kept(actions, sieve).len() <= actions.len(),
    decreases actions.len(),
{
    if actions.len() > 0 {
        lemma_kept_fewer(actions.drop_last(), sieve);
    }
}

/// What a step does keeps every held-back admission to its reason.
pub proof fn law_a_step_holds_nothing_back_for_nothing(b: Books, now_ms: u64)
    requires
        b.sound(),
        held_for_a_reason(b),
    ensures
        held_for_a_reason(stepped(b, now_ms).0),
{
    let t = stepped(b, now_ms).0;
    if b.stage is Ready {
        if b.pending.len() > 0 {
            let c = Books { pending: b.pending.skip(1), ..b };
            match b.pending[0] {
                Action::Drop(id) => {
                    lemma_kept_fewer(c.deferred, Sieve::AdmitOf(id.0));
                    if holds(c.leases, id.0) {
                        if at(c.leases, id.0).pueue_task_id is Some {
                            assert(t.killing.len() > 0);
                        }
                    }
                },
                _ => {},
            }
        } else if b.later.len() > 0 {
            let rest = b.later.skip(1);
            if lets_go(b.later) && !(b.later[0] is Resume) && !(b.later[0] is ResumeAll) {
                let i = choose|i: int|
                    0 <= i < b.later.len() && ((#[trigger] b.later[i]) is Resume || b.later[i]
                        is ResumeAll);
                assert(rest[i - 1] == b.later[i]);
                assert(lets_go(rest));
            }
        }
    }
}

/// One thing that happens to the machine between two looks at pueued's list.
pub enum Move {
    /// The next step is taken.
    Step { now_ms: u64 },
    /// A drain is answered.
    Drained { got: u32, now_ms: u64 },
    /// A lease was put on record, or could not be.
    Recorded { answer: Result<(), String>, sent_at_ns: i64 },
    /// A submission is answered, or is not.
    Submitted { answer: Result<usize, String> },
    /// A lease joins the queue.
    Announced { id: u64 },
    /// A lease is ended on request.
    Ended { id: u64 },
    /// The parameters change.
    Resized { params: Params },
}

/// The books after one thing happened.
pub open spec fn moved_by(b: Books, m: Move) -> Books {
    match m {
        Move::Step { now_ms } => stepped(b, now_ms).0,
        Move::Drained { got, now_ms } => drained(b, got, now_ms).books,
        Move::Recorded { answer, sent_at_ns } => recorded_as(b, answer, sent_at_ns),
        Move::Submitted { answer } => submitted(b, answer).books,
        Move::Announced { id } => announced(b, id).books,
        Move::Ended { id } => ended(b, id),
        Move::Resized { params } => resized(b, params).books,
    }
}

/// The books after several things happened, the first of them first.
pub open spec fn after_all(b: Books, moves: Seq<Move>) -> Books
    decreases moves.len(),
{
    if moves.len() == 0 {
        b
    } else {
        moved_by(after_all(b, moves.drop_last()), moves.last())
    }
}

/// Whether the machine has come to rest: no answer is awaited, no action is
/// pending and no work is left.
pub open spec fn at_rest(b: Books) -> bool {
    b.stage is Ready && b.pending.len() == 0 && b.later.len() == 0
}

proof fn lemma_moved_by(b: Books, m: Move)
    requires
        b.sound(),
        held_for_a_reason(b),
    ensures
        held_for_a_reason(moved_by(b, m)),
{
    match m {
        Move::Step { now_ms } => {
            law_a_step_holds_nothing_back_for_nothing(b, now_ms);
        },
        Move::Ended { id } => {
            lemma_lets_go_more(b.later, seq![Work::Forget(id)]);
            assert(b.later.push(Work::Forget(id)) =~= b.later + seq![Work::Forget(id)]);
        },
        _ => {},
    }
}

/// Nothing is held back for nothing: an admission that a look at pueued's list,
/// or the loss of pueued, leaves held back waits for a teardown or an unanswered
/// submission, or the work that lets it go is still to be done. That stays so
/// whatever happens next, so once the machine has come to rest with nothing being
/// waited for, no admission is held back any more.
pub proof fn law_nothing_is_held_back_for_nothing(b: Books, moves: Seq<Move>)
    requires
        held_for_a_reason(b),
        forall|i: int| 0 <= i < moves.len() ==> (#[trigger] after_all(b, moves.take(i))).sound(),
    ensures
        held_for_a_reason(after_all(b, moves)),
        at_rest(after_all(b, moves)) && !after_all(b, moves).holding() ==> after_all(
            b,
            moves,
        ).deferred.len() == 0,
    decreases moves.len(),
{
    if moves.len() > 0 {
        let before = moves.drop_last();
        assert forall|i: int| 0 <= i < before.len() implies (#[trigger] after_all(
            b,
            before.take(i),
        )).sound() by {
            assert(before.take(i) =~= moves.take(i));
        }
        law_nothing_is_held_back_for_nothing(b, before);
        assert(moves.take(moves.len() - 1) =~= before);
        lemma_moved_by(after_all(b, before), moves.last());
    }
}

/// Where that starts: a look at pueued's list asks for what is held back to be let
/// go, whatever it found, and so does the loss of pueued; a machine that starts,
/// with or without what a previous daemon left, holds nothing back.
pub proof fn law_a_look_at_the_list_lets_go(
    b: Books,
    tasks: Seq<Task>,
    now_ms: u64,
    err: String,
    params: Params,
    settings: Settings,
    debt: u32,
    resume: Seq<Record>,
    adopt: Seq<Record>,
)
    ensures
        lets_go(polled(b, tasks, now_ms).books.later),
        polled(b, tasks, now_ms).books.deferred == b.deferred,
        held_for_a_reason(polled(b, tasks, now_ms).books),
        lets_go(lost(b, err).books.later),
        lost(b, err).books.deferred == b.deferred,
        held_for_a_reason(lost(b, err).books),
        held_for_a_reason(
            adopted(
                resumed(fresh(params, settings, debt), resume, now_ms, resume.len()),
                adopt,
                adopt.len(),
            ),
        ),
{
    let p = polled(b, tasks, now_ms).books;
    lemma_kills_settled_frame(b, b.killing, tasks, now_ms, b.killing.len());
    lemma_submissions_frame(
        kills_settled(b, b.killing, tasks, now_ms, b.killing.len()).books,
        b.unreconciled,
        tasks,
        now_ms,
        b.unreconciled.len(),
    );
    assert(p.later[p.later.len() - 2] is Resume);
    let l = lost(b, err).books;
    lemma_kills_given_up_frame(b, b.killing, b.killing.len());
    lemma_submissions_frame(
        kills_given_up(b, b.killing, b.killing.len()).books,
        b.unreconciled,
        tasks,
        now_ms,
        b.unreconciled.len(),
    );
    assert(l.later[l.later.len() - 1] is ResumeAll);
    lemma_start_defers_nothing(fresh(params, settings, debt), resume, adopt, now_ms);
}

proof fn lemma_start_defers_nothing(
    b: Books,
    resume: Seq<Record>,
    adopt: Seq<Record>,
    now_ms: u64,
)
    ensures
        resumed(b, resume, now_ms, resume.len()).deferred == b.deferred,
        adopted(
            resumed(b, resume, now_ms, resume.len()),
            adopt,
            adopt.len(),
        ).deferred == b.deferred,
{
    lemma_resumed_defers(b, resume, now_ms, resume.len());
    lemma_adopted_defers(resumed(b, resume, now_ms, resume.len()), adopt, adopt.len());
}

proof fn lemma_resumed_defers(b: Books, records: Seq<Record>, now_ms: u64, n: nat)
    ensures
        resumed(b, records, now_ms, n).deferred == b.deferred,
    decreases n,
{
    if n > 0 {
        lemma_resumed_defers(b, records, now_ms, (n - 1) as nat);
    }
}

proof fn lemma_adopted_defers(b: Books, records: Seq<Record>, n: nat)
    ensures
        adopted(b, records, n).deferred == b.deferred,
    decreases n,
{
    if n > 0 {
        lemma_adopted_defers(b, records, (n - 1) as nat);
    }
}

/// Letting go moves every admission that was held back, in its order, to what is
/// performed next: at once where pueued is lost, else where nothing is being
/// waited for; where something is, they all stay.
pub proof fn law_letting_go_moves_everything_in_order(b: Books, now_ms: u64)
    requires
        b.stage is Ready,
        b.pending.len() == 0,
        b.later.len() > 0,
        b.later[0] is Resume || b.later[0] is ResumeAll,
    ensures
        b.later[0] is ResumeAll || !b.holding() ==> {
            &&& stepped(b, now_ms).0.pending == b.deferred
            &&& stepped(b, now_ms).0.deferred.len() == 0
        },
        b.later[0] is Resume && b.holding() ==> {
            &&& stepped(b, now_ms).0.pending.len() == 0
            &&& stepped(b, now_ms).0.deferred == b.deferred
        },
        stepped(b, now_ms).0.later == b.later.skip(1),
        stepped(b, now_ms).0.leases == b.leases,
        stepped(b, now_ms).0.scheduler == b.scheduler,
{
    assert(b.pending + b.deferred =~= b.deferred);
}

/// Whether `b` is `a` with something, or nothing, behind it.
pub open spec fn extends<T>(a: Seq<T>, b: Seq<T>) -> bool {
    a.len() <= b.len() && b.take(a.len() as int) == a
}

proof fn lemma_extends<T>(a: Seq<T>, b: Seq<T>)
    ensures
        extends(a, a + b),
        extends(a, a),
{
    assert((a + b).take(a.len() as int) =~= a);
    assert(a.take(a.len() as int) =~= a);
}

proof fn lemma_fed_extends(b: Books, ev: Event, sieve: Sieve)
    ensures
        extends(b.pending, fed(b, ev).pending),
        extends(b.pending, fed_but(b, ev, sieve).pending),
{
    lemma_extends(b.pending, asked(b.scheduler, ev));
    lemma_extends(b.pending, kept(asked(b.scheduler, ev), sieve));
}

/// Actions are performed one at a time, in their order: a step takes the first
/// one, and whatever comes of it goes behind those that wait. Work waits until
/// there is no action left, and is done in its order too. While an answer is
/// awaited no step is taken.
pub proof fn law_actions_are_performed_in_order(b: Books, now_ms: u64)
    ensures
        b.stage is Ready && b.pending.len() > 0 ==> extends(
            b.pending.skip(1),
            stepped(b, now_ms).0.pending,
        ) && stepped(b, now_ms).0.later == b.later,
        b.stage is Ready && b.pending.len() == 0 && b.later.len() > 0 ==> stepped(b, now_ms).0.later
            == b.later.skip(1),
        !(b.stage is Ready) ==> stepped(b, now_ms) == (b, Turn::Idle),
        at_rest(b) <==> b.stage is Ready && stepped(b, now_ms) == (b, Turn::Idle),
{
    lemma_extends(b.pending.skip(1), Seq::empty());
    if b.stage is Ready && b.pending.len() > 0 {
        let c = Books { pending: b.pending.skip(1), ..b };
        assert(c.pending.len() != b.pending.len());
        match b.pending[0] {
            Action::Admit { id, .. } => {
                lemma_fed_extends(c, Event::DrainFailed(id), Sieve::DropOf(0));
            },
            _ => {},
        }
    } else if b.stage is Ready && b.later.len() > 0 {
        assert(b.later.skip(1).len() != b.later.len());
    }
}

/// An answer, a new lease, an ended one or new parameters put what they ask for
/// behind the actions and the work that wait already.
pub proof fn law_what_is_asked_for_comes_behind(b: Books, m: Move)
    requires
        !(m is Step),
    ensures
        extends(b.pending, moved_by(b, m).pending),
        extends(b.later, moved_by(b, m).later),
{
    lemma_extends(b.pending, Seq::empty());
    lemma_extends(b.later, Seq::empty());
    match m {
        Move::Recorded { answer, .. } => {
            if let Stage::Recording { id } = b.stage {
                let c = Books { stage: Stage::Ready, ..b };
                lemma_fed_extends(c, Event::DrainFailed(LeaseId(id)), Sieve::DropOf(id));
            }
        },
        Move::Submitted { answer } => {
            if let Stage::Submitting { id, sent_at_ns } = b.stage {
                if holds(b.leases, id) {
                    let lease = at(b.leases, id);
                    match answer {
                        Ok(task) => {
                            let t = Books {
                                leases: put(
                                    b.leases,
                                    id,
                                    Lease { pueue_task_id: Some(task), ..lease },
                                ),
                                stage: Stage::Ready,
                                ..b
                            };
                            let ev = Event::Started {
                                id: LeaseId(id),
                                cores_held: lease.cores_held,
                            };
                            lemma_fed_extends(t, ev, Sieve::DropOf(id));
                        },
                        Err(_) => {
                            let t = Books {
                                leases: put(b.leases, id, Lease { cores_held: 0, ..lease }),
                                unreconciled: b.unreconciled.push(
                                    Unreconciled {
                                        label: lease.label,
                                        since_ns: sent_at_ns,
                                        tokens: lease.cores_held,
                                    },
                                ),
                                stage: Stage::Ready,
                                ..b
                            };
                            let ev = Event::DrainFailed(LeaseId(id));
                            lemma_fed_extends(t, ev, Sieve::DropOf(id));
                        },
                    }
                }
            }
        },
        Move::Announced { id } => {
            lemma_extends(
                b.pending,
                moved_by(b, m).pending.skip(b.pending.len() as int),
            );
            if holds(b.leases, id) && at(b.leases, id).start is Some {
                let lease = at(b.leases, id);
                let ev = Event::Submit(
                    Request {
                        id: LeaseId(id),
                        class: lease.class,
                        cores_wanted: wanted_cores(
                            lease.start->0.plan@,
                            b.settings.static_default,
                        ),
                        label: lease.label,
                    },
                );
                lemma_fed_extends(b, ev, Sieve::NotifyOf(id));
            }
        },
        Move::Ended { id } => {
            lemma_fed_extends(b, Event::Cancel(LeaseId(id)), Sieve::DropOf(id));
            lemma_extends(b.later, seq![Work::Forget(id)]);
            assert(b.later.push(Work::Forget(id)) =~= b.later + seq![Work::Forget(id)]);
        },
        Move::Resized { params } => {
            lemma_extends(b.pending, settling(State { params, ..b.scheduler }));
        },
        _ => {},
    }
}

/// Whether the ledgers `a` and `b` agree on everything but `id`.
pub open spec fn same_but<V>(a: Seq<(u64, V)>, b: Seq<(u64, V)>, id: u64) -> bool {
    forall|k: u64|
        k != id ==> (#[trigger] holds(a, k) <==> holds(b, k)) && (holds(a, k) ==> at(a, k) == at(
            b,
            k,
        ))
}

proof fn lemma_put_but<V>(s: Seq<(u64, V)>, id: u64, v: V)
    requires
        ascending(s),
    ensures
        ascending(put(s, id, v)),
        holds(put(s, id, v), id),
        at(put(s, id, v), id) == v,
        same_but(s, put(s, id, v), id),
{
    lemma_put(s, id, v);
    assert forall|k: u64| k != id implies (#[trigger] holds(s, k) <==> holds(put(s, id, v), k)) && (
    holds(s, k) ==> at(s, k) == at(put(s, id, v), k)) by {}
}

proof fn lemma_without_but<V>(s: Seq<(u64, V)>, id: u64)
    requires
        ascending(s),
    ensures
        ascending(without(s, id)),
        !holds(without(s, id), id),
        same_but(s, without(s, id), id),
{
    lemma_without(s, id);
    assert forall|k: u64| k != id implies (#[trigger] holds(s, k) <==> holds(without(s, id), k)) && (
    holds(s, k) ==> at(s, k) == at(without(s, id), k)) by {}
}

/// An admission whose turn it is starts with its drain: as many tokens as the
/// scheduler asked for, within the configured time. One whose lease is gone is
/// reported to the scheduler as failed instead.
pub proof fn law_an_admission_starts_with_its_drain(b: Books, now_ms: u64)
    requires
        b.stage is Ready,
        !b.holding(),
        b.pending.len() > 0,
        b.pending[0] is Admit,
    ensures
        ({
            let id = b.pending[0]->Admit_id;
            let tokens = b.pending[0]->drain_target;
            let (t, turn) = stepped(b, now_ms);
            if holds(b.leases, id.0) && at(b.leases, id.0).start is Some {
                &&& turn == (Turn::Drain { tokens, deadline_ms: b.settings.drain_deadline_ms })
                &&& t.stage == (Stage::Draining { id: id.0, tokens })
                &&& t.leases == b.leases
                &&& t.scheduler == b.scheduler
            } else {
                &&& t.scheduler == next(b.scheduler, Event::DrainFailed(id))
                &&& t.stage is Ready
            }
        }),
{
}

/// What a drain collected is the lease's, and is on its way to be recorded; a
/// drain that was asked for tokens and got none is said to the client, and no
/// other is.
pub proof fn law_what_was_drained_is_the_leases(b: Books, got: u32, now_ms: u64)
    requires
        b.sound(),
        b.stage is Draining,
        holds(b.leases, b.stage->Draining_id),
    ensures
        ({
            let id = b.stage->Draining_id;
            let was = at(b.leases, id);
            let o = drained(b, got, now_ms);
            let lease = at(o.books.leases, id);
            &&& o.books.stage == (Stage::Recording { id })
            &&& holds(o.books.leases, id)
            &&& lease.cores_held == got
            &&& lease.submitted_at_ms == Some(now_ms)
            &&& lease.label == was.label && lease.argv == was.argv && lease.class == was.class
            &&& lease.start == was.start && lease.pueue_task_id == was.pueue_task_id
            &&& lease.connected == was.connected && lease.detached == was.detached
            &&& same_but(b.leases, o.books.leases, id)
            &&& o.effects.len() > 0 <==> b.stage->tokens > 0 && got == 0 && was.connected
            &&& forall|i: int|
                0 <= i < o.effects.len() ==> (#[trigger] o.effects[i]) is Send
                    && o.effects[i]->Send_lease == id && o.effects[i]->event is Notice
        }),
{
    let id = b.stage->Draining_id;
    let was = at(b.leases, id);
    lemma_put_but(
        b.leases,
        id,
        Lease { cores_held: got, submitted_at_ms: Some(now_ms), ..was },
    );
}

/// The cores that a task is told are a usable count: the tokens its lease holds,
/// and one where it holds none; for one that shares the pool its fair share of it
/// at the moment of its admission.
pub proof fn law_a_task_is_told_usable_cores(b: Books, id: u64, lease: Lease)
    ensures
        lease.class != Class::Jobserver && lease.cores_held >= 1 ==> cores_told(b, id, lease)
            == lease.cores_held,
        lease.class != Class::Jobserver && lease.cores_held == 0 ==> cores_told(b, id, lease) == 1,
        lease.class == Class::Jobserver && holds(b.scheduler.admitted, id) ==> cores_told(
            b,
            id,
            lease,
        ) == at(b.scheduler.admitted, id).share,
        lease.class == Class::Jobserver && !holds(b.scheduler.admitted, id) ==> cores_told(
            b,
            id,
            lease,
        ) == 1,
{
}

/// A lease is started as it was asked for: in its directory, under its label, at
/// once, with the user's own arguments first, and with its own number to be
/// recognised by.
pub proof fn law_a_task_is_the_command_that_was_asked_for(b: Books, id: u64, lease: Lease)
    requires
        lease.start is Some,
        extends(texts(lease.argv@), lease.start->0.plan@.argv),
    ensures
        ({
            let t = task_for(b, id, lease);
            let start = lease.start->0;
            let f = Fill { fifo: b.settings.fifo@, cores: cores_told(b, id, lease) as nat };
            &&& t.cwd == start.cwd@
            &&& t.label == Some(lease.label@)
            &&& t.start_immediately
            &&& t.env.contains_key("BUSYBEE_LEASE"@)
            &&& t.env["BUSYBEE_LEASE"@] == decimal_of(id as nat)
            &&& forall|name: Seq<char>|
                name != "BUSYBEE_LEASE"@ ==> (#[trigger] t.env.contains_key(name) <==> injected_env(
                    start.plan@,
                    start.env@,
                    f,
                ).contains_key(name)) && (t.env.contains_key(name) ==> t.env[name] == injected_env(
                    start.plan@,
                    start.env@,
                    f,
                )[name])
            &&& exists|args: Seq<Seq<char>>|
                extends(texts(lease.argv@), args) && args.len() == start.plan@.argv.len() && t.command
                    == #[trigger] shell_line(args)
            &&& start.plan@.argv == texts(lease.argv@) ==> t.command == shell_line(
                texts(lease.argv@),
            )
        }),
{
    let start = lease.start->0;
    let plan = start.plan@;
    let f = Fill { fifo: b.settings.fifo@, cores: cores_told(b, id, lease) as nat };
    let n = lease.argv@.len() as int;
    let args = filled_args(plan.argv, n, f);
    law_the_users_arguments_are_untouched(plan.argv, n, f);
    assert(args.take(n) == plan.argv.take(n));
    assert(extends(texts(lease.argv@), args));
    assert(task_for(b, id, lease).command == shell_line(args));
    if plan.argv == texts(lease.argv@) {
        assert(args =~= texts(lease.argv@));
    }
}

/// A submission that pueued answered makes the lease a running one: its task is on
/// the books and its tokens are with the scheduler, that is written down, and the
/// client is told the task, the class, its cores, the pool's size and how many
/// others are admitted.
pub proof fn law_a_started_lease_is_told_so(b: Books, task: usize)
    requires
        b.sound(),
        b.stage is Submitting,
        holds(b.leases, b.stage->Submitting_id),
    ensures
        ({
            let id = b.stage->Submitting_id;
            let was = at(b.leases, id);
            let o = submitted(b, Ok(task));
            let lease = at(o.books.leases, id);
            &&& o.books.stage is Ready
            &&& holds(o.books.leases, id)
            &&& lease.pueue_task_id == Some(task)
            &&& lease.cores_held == was.cores_held
            &&& lease.connected == was.connected
            &&& same_but(b.leases, o.books.leases, id)
            &&& o.books.scheduler == next(
                b.scheduler,
                Event::Started { id: LeaseId(id), cores_held: was.cores_held },
            )
            &&& o.effects.contains(Wanted::Persist)
            &&& was.connected ==> o.effects.contains(
                Wanted::Send {
                    lease: id,
                    event: Told::Admitted {
                        id,
                        pueue_task_id: task,
                        class: class_name(was.class),
                        cores: cores_told(b, id, was),
                        pool_size: b.scheduler.params.pool_size,
                        peers: if b.scheduler.admitted.len() > 0 {
                            (b.scheduler.admitted.len() - 1) as usize
                        } else {
                            0
                        },
                    },
                },
            )
            &&& o.effects.len() == if was.connected {
                2int
            } else {
                1
            }
        }),
{
    let id = b.stage->Submitting_id;
    let was = at(b.leases, id);
    lemma_put_but(b.leases, id, Lease { pueue_task_id: Some(task), ..was });
    let o = submitted(b, Ok(task));
    assert(o.effects[0] == Wanted::Persist);
    if was.connected {
        assert(o.effects[1] is Send);
    }
}

/// A lease that is torn down is over at once: it leaves the books, no admission of
/// it is held back any more, and a client that is there hears that it was killed.
/// A task of its own is asked to stop, gets a second for that, and keeps the
/// tokens until it is gone.
pub proof fn law_a_lease_that_is_torn_down_is_stopped(b: Books, now_ms: u64)
    requires
        b.sound(),
        b.stage is Ready,
        b.pending.len() > 0,
        b.pending[0] is Drop,
        holds(b.leases, b.pending[0]->Drop_0.0),
    ensures
        ({
            let id = b.pending[0]->Drop_0.0;
            let lease = at(b.leases, id);
            let (t, turn) = stepped(b, now_ms);
            &&& turn is Do
            &&& !holds(t.leases, id)
            &&& same_but(b.leases, t.leases, id)
            &&& forall|i: int|
                0 <= i < t.deferred.len() ==> !admits_it(#[trigger] t.deferred[i], id)
            &&& forall|a: Action|
                !admits_it(a, id) && #[trigger] b.deferred.contains(a) ==> t.deferred.contains(a)
            &&& turn->Do_0.contains(Wanted::Persist)
            &&& lease.connected ==> turn->Do_0.contains(
                Wanted::Send { lease: id, event: Told::Finished { id, exit_code: 130 } },
            )
            &&& lease.pueue_task_id matches Some(task) ==> {
                let kill = at(t.killing, task as u64);
                &&& turn->Do_0.contains(Wanted::Terminate { task })
                &&& holds(t.killing, task as u64)
                &&& !kill.escalated
                &&& kill.tokens == lease.cores_held
                &&& now_ms <= u64::MAX - 1000 ==> kill.deadline_ms == now_ms + 1000
                &&& kill.record matches Some(r) && r.id == id && r.killing && r.pueue_task_id == Some(
                    task,
                ) && r.cores_held == lease.cores_held
                &&& same_but(b.killing, t.killing, task as u64)
                &&& t.debt == b.debt
            }
            &&& lease.pueue_task_id is None ==> t.killing == b.killing
        }),
{
    let id = b.pending[0]->Drop_0.0;
    let lease = at(b.leases, id);
    let (t, turn) = stepped(b, now_ms);
    lemma_without_but(b.leases, id);
    lemma_kept_exactly(b.deferred, Sieve::AdmitOf(id));
    assert forall|i: int| 0 <= i < t.deferred.len() implies !admits_it(
        #[trigger] t.deferred[i],
        id,
    ) by {
        assert(t.deferred.contains(t.deferred[i]));
    }
    let effects = turn->Do_0;
    match lease.pueue_task_id {
        Some(task) => {
            let kill = Kill {
                deadline_ms: later_by(now_ms, KILL_GRACE_MS),
                escalated: false,
                tokens: lease.cores_held,
                record: Some(record_of(id, lease, true)),
            };
            lemma_put_but(b.killing, task as u64, kill);
            assert(effects[0] == (Wanted::Terminate { task }));
            assert(effects[1] == Wanted::Persist);
            if lease.connected {
                assert(effects[2] is Send);
            }
        },
        None => {
            let r = released(b, lease.cores_held);
            assert(effects[r.effects.len() as int] == Wanted::Persist);
            if lease.connected {
                assert(effects[r.effects.len() as int + 1] is Send);
            }
        },
    }
}

/// Leaving actions out leaves out those alone that are to be left out, and all of
/// them.
pub proof fn lemma_kept_exactly(actions: Seq<Action>, sieve: Sieve)
    ensures
        forall|a: Action| #[trigger]
            kept(actions, sieve).contains(a) <==> actions.contains(a) && !sieve.stops(a),
    decreases actions.len(),
{
    let all = kept(actions, sieve);
    if actions.len() > 0 {
        let before = kept(actions.drop_last(), sieve);
        lemma_kept_exactly(actions.drop_last(), sieve);
        assert forall|a: Action| #[trigger] all.contains(a) <==> actions.contains(a)
            && !sieve.stops(a) by {
            if actions.contains(a) && !sieve.stops(a) {
                let i = choose|i: int| 0 <= i < actions.len() && actions[i] == a;
                if i < actions.len() - 1 {
                    assert(actions.drop_last()[i] == a);
                    assert(before.contains(a));
                    let j = choose|j: int| 0 <= j < before.len() && before[j] == a;
                    assert(all[j] == a);
                } else {
                    assert(all[before.len() as int] == a);
                }
            }
            if all.contains(a) {
                let j = choose|j: int| 0 <= j < all.len() && all[j] == a;
                if j < before.len() {
                    assert(before[j] == a);
                    assert(before.contains(a));
                    let i = choose|i: int|
                        0 <= i < actions.drop_last().len() && actions.drop_last()[i] == a;
                    assert(actions[i] == a);
                } else {
                    assert(actions[actions.len() - 1] == a);
                }
            }
        }
    }
}

/// A lease whose task ended leaves the books and the scheduler, and a client that
/// is there hears its exit code last: the task's own, or 1 after a line that says
/// why it is not known.
pub proof fn law_a_lease_that_ended_is_told_its_exit_code(b: Books, now_ms: u64)
    requires
        b.sound(),
        b.stage is Ready,
        b.pending.len() == 0,
        b.later.len() > 0,
        b.later[0] is Ended,
        holds(b.leases, b.later[0]->Ended_id),
    ensures
        ({
            let id = b.later[0]->Ended_id;
            let how = b.later[0]->how;
            let lease = at(b.leases, id);
            let (t, turn) = stepped(b, now_ms);
            let code = if how is Exited {
                how->Exited_0
            } else {
                1
            };
            &&& turn is Do
            &&& !holds(t.leases, id)
            &&& same_but(b.leases, t.leases, id)
            &&& t.scheduler == next(b.scheduler, Event::Finished(LeaseId(id)))
            &&& turn->Do_0.contains(Wanted::Persist)
            &&& lease.connected ==> turn->Do_0.len() > 0 && turn->Do_0.last() == (Wanted::Send {
                lease: id,
                event: Told::Finished { id, exit_code: code },
            })
            &&& lease.connected && !(how is Exited) ==> turn->Do_0[0] is Send && turn->Do_0[0]->event
                is Notice
            &&& !lease.connected ==> forall|i: int|
                0 <= i < turn->Do_0.len() ==> !((#[trigger] turn->Do_0[i]) is Send)
        }),
{
    let id = b.later[0]->Ended_id;
    let how = b.later[0]->how;
    let lease = at(b.leases, id);
    let (t, turn) = stepped(b, now_ms);
    lemma_without_but(b.leases, id);
    let c = Books { later: b.later.skip(1), ..b };
    let notice = match ending_notice(how) {
        Some(text) => told(c, id, Told::Notice { text }),
        None => Seq::empty(),
    };
    let r = released(Books { leases: without(c.leases, id), ..c }, lease.cores_held);
    let effects = turn->Do_0;
    assert(effects[(notice.len() + r.effects.len()) as int] == Wanted::Persist);
}

/// A submission that was not answered ends the lease, and its client hears why and
/// then that it failed. But its task may have been started: until pueued's list
/// says so or not, its label, the moment it was sent and its tokens are kept, and
/// nothing else is admitted.
pub proof fn law_an_unanswered_submission_is_remembered(b: Books, err: String)
    requires
        b.sound(),
        b.stage is Submitting,
        holds(b.leases, b.stage->Submitting_id),
    ensures
        ({
            let id = b.stage->Submitting_id;
            let was = at(b.leases, id);
            let o = submitted(b, Err(err));
            &&& o.books.stage is Ready
            &&& !holds(o.books.leases, id)
            &&& same_but(b.leases, o.books.leases, id)
            &&& o.books.holding()
            &&& o.books.unreconciled.len() == b.unreconciled.len() + 1
            &&& o.books.unreconciled.last().label == was.label
            &&& o.books.unreconciled.last().since_ns == b.stage->sent_at_ns
            &&& o.books.unreconciled.last().tokens == was.cores_held
            &&& o.books.scheduler == next(b.scheduler, Event::DrainFailed(LeaseId(id)))
            &&& o.effects.contains(Wanted::Persist)
            &&& was.connected ==> o.effects.len() >= 2 && o.effects[0] == (Wanted::Send {
                lease: id,
                event: Told::Notice { text: "bzbd could not start the task: "@ + err@ },
            }) && o.effects.last() == (Wanted::Send {
                lease: id,
                event: Told::Finished { id, exit_code: 1 },
            })
            &&& forall|i: int|
                0 <= i < o.effects.len() ==> !((#[trigger] o.effects[i]) is Release)
        }),
{
    let id = b.stage->Submitting_id;
    let was = at(b.leases, id);
    let bare = Lease { cores_held: 0, ..was };
    lemma_put_but(b.leases, id, bare);
    let leases = put(b.leases, id, bare);
    lemma_without_but(leases, id);
    let o = submitted(b, Err(err));
    assert(o.books.leases == without(leases, id));
    assert forall|k: u64| k != id implies (#[trigger] holds(b.leases, k) <==> holds(
        o.books.leases,
        k,
    )) && (holds(b.leases, k) ==> at(b.leases, k) == at(o.books.leases, k)) by {
        assert(holds(leases, k) <==> holds(b.leases, k));
    }
    let n: int = if was.connected {
        1
    } else {
        0
    };
    assert(o.effects[n] == Wanted::Persist);
}

proof fn lemma_kill_settled(
    b: Books,
    kills: Seq<(u64, Kill)>,
    tasks: Seq<Task>,
    now_ms: u64,
    n: nat,
)
    requires
        n <= kills.len(),
        ascending(kills),
    ensures
        ({
            let o = kills_settled(b, kills, tasks, now_ms, n);
            &&& ascending(o.books.killing)
            &&& forall|e: (u64, Kill)| #[trigger]
                o.books.killing.contains(e) <==> exists|i: int|
                    0 <= i < n && #[trigger] kills[i] == e && !gone(tasks, e.0)
            &&& forall|task: usize| #[trigger]
                o.effects.contains(Wanted::Kill { task }) <==> exists|i: int|
                    0 <= i < n && second_signal(#[trigger] kills[i], tasks, now_ms) && kills[i].0
                        as usize == task
            &&& forall|i: int|
                0 <= i < o.effects.len() ==> (#[trigger] o.effects[i]) is Kill || o.effects[i]
                    is Release
        }),
    decreases n,
{
    if n > 0 {
        let m = (n - 1) as nat;
        lemma_kill_settled(b, kills, tasks, now_ms, m);
        let o = kills_settled(b, kills, tasks, now_ms, m);
        let after = kills_settled(b, kills, tasks, now_ms, n);
        let (task, kill) = kills[n - 1];
        let was = o.books.killing;
        let now = after.books.killing;
        assert forall|e: (u64, Kill)| #[trigger] now.contains(e) <==> exists|i: int|
            0 <= i < n && #[trigger] kills[i] == e && !gone(tasks, e.0) by {
            if now.contains(e) {
                let j = choose|j: int| 0 <= j < now.len() && now[j] == e;
                if j < was.len() {
                    assert(was[j] == e);
                    assert(was.contains(e));
                    let i = choose|i: int|
                        0 <= i < m && #[trigger] kills[i] == e && !gone(tasks, e.0);
                    assert(kills[i] == e);
                } else {
                    assert(kills[n - 1] == e);
                }
            }
            if exists|i: int| 0 <= i < n && #[trigger] kills[i] == e && !gone(tasks, e.0) {
                let i = choose|i: int| 0 <= i < n && #[trigger] kills[i] == e && !gone(tasks, e.0);
                if i < m {
                    assert(kills[i] == e);
                    assert(was.contains(e));
                    let j = choose|j: int| 0 <= j < was.len() && was[j] == e;
                    assert(now[j] == e);
                } else {
                    assert(now[was.len() as int] == e);
                }
            }
        }
        assert(ascending(now)) by {
            if !gone(tasks, task) {
                assert forall|i: int, j: int| 0 <= i < j < now.len() implies (#[trigger] now[i]).0 < (
                #[trigger] now[j]).0 by {
                    if j == was.len() {
                        assert(was.contains(was[i]));
                        let k = choose|k: int|
                            0 <= k < m && #[trigger] kills[k] == was[i] && !gone(tasks, was[i].0);
                        assert(kills[k].0 < kills[n - 1].0);
                    }
                }
            }
        }
        let new = after.effects;
        let old_len = o.effects.len() as int;
        assert forall|t: usize| #[trigger] new.contains(Wanted::Kill { task: t }) <==> exists|i: int|
            0 <= i < n && second_signal(#[trigger] kills[i], tasks, now_ms) && kills[i].0 as usize
                == t by {
            let want = Wanted::Kill { task: t };
            if new.contains(want) {
                let j = choose|j: int| 0 <= j < new.len() && new[j] == want;
                if j < old_len {
                    assert(o.effects[j] == want);
                    assert(o.effects.contains(want));
                    let i = choose|i: int|
                        0 <= i < m && second_signal(#[trigger] kills[i], tasks, now_ms)
                            && kills[i].0 as usize == t;
                    assert(second_signal(kills[i], tasks, now_ms));
                } else {
                    assert(second_signal(kills[n - 1], tasks, now_ms));
                }
            }
            if exists|i: int|
                0 <= i < n && second_signal(#[trigger] kills[i], tasks, now_ms) && kills[i].0
                    as usize == t {
                let i = choose|i: int|
                    0 <= i < n && second_signal(#[trigger] kills[i], tasks, now_ms) && kills[i].0
                        as usize == t;
                if i < m {
                    assert(second_signal(kills[i], tasks, now_ms));
                    assert(o.effects.contains(want));
                    let j = choose|j: int| 0 <= j < old_len && o.effects[j] == want;
                    assert(new[j] == want);
                } else {
                    assert(new[old_len] == want);
                }
            }
        }
        assert forall|i: int| 0 <= i < new.len() implies (#[trigger] new[i]) is Kill || new[i]
            is Release by {
            if i < old_len {
                assert(new[i] == o.effects[i]);
            }
        }
    } else {
        let o = kills_settled(b, kills, tasks, now_ms, 0);
        assert(o.effects.len() == 0 && o.books.killing.len() == 0);
    }
}

/// Whether a teardown is due its second signal: its task is still there, its grace
/// is over and the signal was not delivered yet.
pub open spec fn second_signal(e: (u64, Kill), tasks: Seq<Task>, now_ms: u64) -> bool {
    !gone(tasks, e.0) && !e.1.escalated && now_ms >= e.1.deadline_ms
}

/// Whether pueued lists a task of that number that is not over.
pub open spec fn still_there(tasks: Seq<Task>, task: u64) -> bool {
    exists|i: int|
        0 <= i < tasks.len() && (#[trigger] tasks[i]).id == task && !(tasks[i].status is Done)
}

/// A task is gone when pueued does not list it, or lists it as done.
pub proof fn law_a_task_is_gone_when_it_is_not_listed_or_done(tasks: Seq<Task>, task: usize)
    requires
        one_each(tasks),
    ensures
        gone(tasks, task as u64) <==> !still_there(tasks, task as u64),
{
    law_a_task_is_found_by_its_id(tasks, task);
    match task_of(tasks, task) {
        Some(t) => {
            let i = choose|i: int| 0 <= i < tasks.len() && tasks[i] == t;
            assert(tasks[i].id == task);
            if still_there(tasks, task as u64) {
                let j = choose|j: int|
                    0 <= j < tasks.len() && (#[trigger] tasks[j]).id == task && !(tasks[j].status
                        is Done);
                assert(i == j);
            }
        },
        None => {},
    }
}

/// A teardown is over once its task is gone, and not before. Until then it stays
/// on the books as it is; and the second signal is sent to exactly the tasks that
/// outlived their grace and were not sent it yet.
pub proof fn law_a_teardown_is_seen_through(b: Books, tasks: Seq<Task>, now_ms: u64, task: usize)
    requires
        b.sound(),
        one_each(tasks),
        holds(b.killing, task as u64),
        b.unreconciled.len() == 0,
    ensures
        ({
            let kill = at(b.killing, task as u64);
            let o = polled(b, tasks, now_ms);
            &&& holds(o.books.killing, task as u64) <==> still_there(tasks, task as u64)
            &&& still_there(tasks, task as u64) ==> at(o.books.killing, task as u64) == kill
            &&& o.effects.contains(Wanted::Kill { task }) <==> still_there(tasks, task as u64)
                && !kill.escalated && now_ms >= kill.deadline_ms
            &&& !still_there(tasks, task as u64) ==> o.effects.contains(Wanted::Persist)
        }),
{
    let id = task as u64;
    let kill = at(b.killing, id);
    let n = b.killing.len();
    let k = kills_settled(b, b.killing, tasks, now_ms, n);
    lemma_kill_settled(b, b.killing, tasks, now_ms, n);
    law_a_task_is_gone_when_it_is_not_listed_or_done(tasks, task);
    let o = polled(b, tasks, now_ms);
    let s = submissions_settled(k.books, b.unreconciled, tasks, now_ms, 0);
    assert(s.effects.len() == 0);
    assert(o.books.killing == k.books.killing);
    let at_place = rank(b.killing, id) as int;
    let e = (id, kill);
    assert(b.killing[at_place] == e);
    lemma_rank(b.killing, id);
    lemma_rank(k.books.killing, id);
    if holds(k.books.killing, id) {
        let j = rank(k.books.killing, id) as int;
        let f = k.books.killing[j];
        assert(k.books.killing.contains(f));
        let i = choose|i: int| 0 <= i < n && #[trigger] b.killing[i] == f && !gone(tasks, f.0);
        lemma_found(b.killing, i);
        assert(f == e);
    }
    if !gone(tasks, id) {
        assert(k.books.killing.contains(e));
        let j = choose|j: int| 0 <= j < k.books.killing.len() && k.books.killing[j] == e;
        lemma_found(k.books.killing, j);
    }
    let persist: Seq<Wanted> = if k.books.killing.len() < n {
        seq![Wanted::Persist]
    } else {
        Seq::empty()
    };
    assert(o.effects =~= k.effects + persist);
    let want = Wanted::Kill { task };
    if o.effects.contains(want) {
        let j = choose|j: int| 0 <= j < o.effects.len() && o.effects[j] == want;
        assert(k.effects[j] == want);
        assert(k.effects.contains(want));
        let i = choose|i: int|
            0 <= i < n && second_signal(#[trigger] b.killing[i], tasks, now_ms) && b.killing[i].0
                as usize == task;
        lemma_second_is_task(b.killing[i], tasks, now_ms);
        assert(b.killing[i].0 == id);
        lemma_found(b.killing, i);
    }
    if second_signal(e, tasks, now_ms) {
        assert(second_signal(b.killing[at_place], tasks, now_ms));
        assert(k.effects.contains(want));
        let j = choose|j: int| 0 <= j < k.effects.len() && k.effects[j] == want;
        assert(o.effects[j] == want);
    }
    if gone(tasks, id) {
        lemma_settled_fewer(b, b.killing, tasks, now_ms, n, at_place);
        assert(o.effects[k.effects.len() as int] == Wanted::Persist);
    }
}

proof fn lemma_second_is_task(e: (u64, Kill), tasks: Seq<Task>, now_ms: u64)
    requires
        second_signal(e, tasks, now_ms),
    ensures
        e.0 <= usize::MAX,
{
}

proof fn lemma_settled_fewer(
    b: Books,
    kills: Seq<(u64, Kill)>,
    tasks: Seq<Task>,
    now_ms: u64,
    n: nat,
    i: int,
)
    requires
        n <= kills.len(),
    ensures
        kills_settled(b, kills, tasks, now_ms, n).books.killing.len() <= n,
        0 <= i < n && gone(tasks, kills[i].0) ==> kills_settled(
            b,
            kills,
            tasks,
            now_ms,
            n,
        ).books.killing.len() < n,
    decreases n,
{
    if n > 0 {
        lemma_settled_fewer(b, kills, tasks, now_ms, (n - 1) as nat, i);
    }
}

/// A look at pueued's list clears up an unanswered submission: a task under its
/// label that was created since it was sent, that is not over and that no lease has
/// is stopped, with the tokens kept until it is gone; where there is none, nothing
/// was started and the submission is forgotten.
pub proof fn law_an_unanswered_submission_is_cleared_up(b: Books, tasks: Seq<Task>, now_ms: u64)
    requires
        b.sound(),
        b.unreconciled.len() == 1,
    ensures
        ({
            let u = b.unreconciled[0];
            let mine = claimed(b.leases, b.leases.len());
            let o = polled(b, tasks, now_ms);
            &&& o.books.unreconciled.len() == 0
            &&& (exists|i: int|
                0 <= i < tasks.len() && started_under(
                    #[trigger] tasks[i],
                    u.label@,
                    u.since_ns,
                    mine,
                )) ==> exists|i: int|
                0 <= i < tasks.len() && started_under(
                    #[trigger] tasks[i],
                    u.label@,
                    u.since_ns,
                    mine,
                ) && o.effects.contains(Wanted::Terminate { task: tasks[i].id }) && holds(
                    o.books.killing,
                    tasks[i].id as u64,
                ) && at(o.books.killing, tasks[i].id as u64).tokens == u.tokens && !at(
                    o.books.killing,
                    tasks[i].id as u64,
                ).escalated
            &&& (forall|i: int|
                0 <= i < tasks.len() ==> !started_under(
                    #[trigger] tasks[i],
                    u.label@,
                    u.since_ns,
                    mine,
                )) ==> o.books.killing == kills_settled(
                b,
                b.killing,
                tasks,
                now_ms,
                b.killing.len(),
            ).books.killing && (forall|task: usize|
                !(#[trigger] o.effects.contains(Wanted::Terminate { task })))
        }),
{
    let u = b.unreconciled[0];
    let mine = claimed(b.leases, b.leases.len());
    let n = b.killing.len();
    let k = kills_settled(b, b.killing, tasks, now_ms, n);
    lemma_kill_settled(b, b.killing, tasks, now_ms, n);
    lemma_kills_settled_frame(b, b.killing, tasks, now_ms, n);
    let o = polled(b, tasks, now_ms);
    let z = submissions_settled(k.books, b.unreconciled, tasks, now_ms, 0);
    let s = submissions_settled(k.books, b.unreconciled, tasks, now_ms, 1);
    assert(z.effects.len() == 0);
    law_a_submission_is_matched_with_its_own_task(tasks, u.label@, u.since_ns, mine);
    let persist: Seq<Wanted> = if k.books.killing.len() < n {
        seq![Wanted::Persist]
    } else {
        Seq::empty()
    };
    assert(o.effects =~= k.effects + persist + s.effects);
    let front = (k.effects.len() + persist.len()) as int;
    match orphan_of(tasks, u.label@, u.since_ns, mine) {
        Some(task) => {
            let i = choose|i: int|
                0 <= i < tasks.len() && (#[trigger] tasks[i]).id == task && started_under(
                    tasks[i],
                    u.label@,
                    u.since_ns,
                    mine,
                );
            let kill = Kill {
                deadline_ms: later_by(now_ms, KILL_GRACE_MS),
                escalated: false,
                tokens: u.tokens,
                record: None,
            };
            lemma_put_but(k.books.killing, task as u64, kill);
            assert(s.effects =~= seq![Wanted::Terminate { task }]);
            assert(o.effects[front] == (Wanted::Terminate { task }));
            assert(started_under(tasks[i], u.label@, u.since_ns, mine));
        },
        None => {
            assert forall|task: usize| !(#[trigger] o.effects.contains(
                Wanted::Terminate { task },
            )) by {
                let want = Wanted::Terminate { task };
                if o.effects.contains(want) {
                    let j = choose|j: int| 0 <= j < o.effects.len() && o.effects[j] == want;
                    if j < k.effects.len() {
                        assert(k.effects[j] == want);
                    } else if j >= front {
                        assert(s.effects[j - front] == want);
                    }
                }
            }
        },
    }
}

/// Whether work ends the lease `id` in the way `how`.
pub open spec fn ends_it(w: Work, id: u64) -> bool {
    w matches Work::Ended { id: of, .. } && of == id
}

proof fn lemma_ends(leases: Seq<(u64, Lease)>, tasks: Seq<Task>, n: nat, i: int)
    requires
        n <= leases.len(),
        ascending(leases),
        0 <= i < leases.len(),
    ensures
        ({
            let all = ends(leases, tasks, n);
            let how = match leases[i].1.pueue_task_id {
                Some(task) => ending_of(tasks, task),
                None => None,
            };
            &&& i < n && how is Some ==> all.contains(
                Work::Ended { id: leases[i].0, how: how->0 },
            )
            &&& how is None ==> forall|w: int|
                0 <= w < all.len() ==> !ends_it(#[trigger] all[w], leases[i].0)
        }),
    decreases n,
{
    if n > 0 {
        let m = (n - 1) as nat;
        lemma_ends(leases, tasks, m, i);
        let before = ends(leases, tasks, m);
        let all = ends(leases, tasks, n);
        let how = match leases[i].1.pueue_task_id {
            Some(task) => ending_of(tasks, task),
            None => None,
        };
        if i < n && how is Some {
            let w = Work::Ended { id: leases[i].0, how: how->0 };
            if i < m {
                let j = choose|j: int| 0 <= j < before.len() && before[j] == w;
                assert(all[j] == w);
            } else {
                assert(all[before.len() as int] == w);
            }
        }
        if how is None {
            assert forall|w: int| 0 <= w < all.len() implies !ends_it(
                #[trigger] all[w],
                leases[i].0,
            ) by {
                if w < before.len() {
                    assert(all[w] == before[w]);
                } else {
                    assert(i != n - 1);
                    if i < n - 1 {
                        assert(leases[i].0 < leases[n - 1].0);
                    } else {
                        assert(leases[n - 1].0 < leases[i].0);
                    }
                }
            }
        }
    }
}

/// A lease ends with its task: where pueued lists the task as done, with the code
/// that its result stands for; where pueued does not list it, as vanished; and
/// while it is listed and not done, or not started yet, not at all.
pub proof fn law_a_lease_ends_with_its_task(b: Books, tasks: Seq<Task>, now_ms: u64, id: u64)
    requires
        b.sound(),
        one_each(tasks),
        holds(b.leases, id),
    ensures
        ({
            let task = at(b.leases, id).pueue_task_id;
            let o = polled(b, tasks, now_ms);
            let new = o.books.later.skip(b.later.len() as int);
            &&& extends(b.later, o.books.later)
            &&& forall|k: int|
                0 <= k < tasks.len() && task == Some((#[trigger] tasks[k]).id) ==> match tasks[k].status {
                    TaskStatus::Done(result) => new.contains(
                        Work::Ended { id, how: Ending::Exited(exit_code_of(result)) },
                    ),
                    _ => forall|w: int| 0 <= w < new.len() ==> !ends_it(#[trigger] new[w], id),
                }
            &&& task is Some && (forall|k: int|
                0 <= k < tasks.len() ==> (#[trigger] tasks[k]).id != task->0) ==> new.contains(
                Work::Ended { id, how: Ending::Vanished(task->0) },
            )
            &&& task is None ==> forall|w: int|
                0 <= w < new.len() ==> !ends_it(#[trigger] new[w], id)
            &&& o.books.leases == b.leases
        }),
{
    let o = polled(b, tasks, now_ms);
    let n = b.killing.len();
    let k = kills_settled(b, b.killing, tasks, now_ms, n);
    lemma_kills_settled_frame(b, b.killing, tasks, now_ms, n);
    lemma_submissions_frame(k.books, b.unreconciled, tasks, now_ms, b.unreconciled.len());
    let list = ends(b.leases, tasks, b.leases.len());
    let tail = seq![Work::Resume, Work::Sweep];
    assert(o.books.later =~= b.later + list + tail);
    lemma_extends(b.later, list + tail);
    assert(b.later + list + tail =~= b.later + (list + tail));
    let new = o.books.later.skip(b.later.len() as int);
    assert(new =~= list + tail);
    let i = rank(b.leases, id) as int;
    let task = at(b.leases, id).pueue_task_id;
    lemma_ends(b.leases, tasks, b.leases.len(), i);
    assert forall|w: Work| list.contains(w) implies #[trigger] new.contains(w) by {
        let j = choose|j: int| 0 <= j < list.len() && list[j] == w;
        assert(new[j] == w);
    }
    if task is Some {
        law_a_task_is_found_by_its_id(tasks, task->0);
        assert forall|x: int| 0 <= x < tasks.len() && task == Some(
            (#[trigger] tasks[x]).id,
        ) implies task_of(tasks, task->0) == Some(tasks[x]) by {
            lemma_task_at(tasks, x);
        }
    }
    let how = match task {
        Some(t) => ending_of(tasks, t),
        None => None,
    };
    if how is Some {
        assert(list.contains(Work::Ended { id, how: how->0 }));
        assert(new.contains(Work::Ended { id, how: how->0 }));
    } else {
        assert forall|w: int| 0 <= w < new.len() implies !ends_it(#[trigger] new[w], id) by {
            if w < list.len() {
                assert(new[w] == list[w]);
            }
        }
    }
}

/// A lease that is taken off the books is on them no more, its tokens come back and
/// that is written down; nobody is told. One that is not on them changes nothing.
pub proof fn law_a_forgotten_lease_is_off_the_books(b: Books, id: u64)
    requires
        b.sound(),
    ensures
        ({
            let o = worked(b, Work::Forget(id));
            &&& !holds(o.books.leases, id)
            &&& same_but(b.leases, o.books.leases, id)
            &&& holds(b.leases, id) ==> o.effects.contains(Wanted::Persist)
            &&& holds(b.leases, id) && b.debt == 0 && at(b.leases, id).cores_held > 0
                ==> o.effects.contains(Wanted::Release { tokens: at(b.leases, id).cores_held })
            &&& !holds(b.leases, id) ==> o.books == b && o.effects.len() == 0
            &&& forall|i: int| 0 <= i < o.effects.len() ==> !((#[trigger] o.effects[i]) is Send)
        }),
{
    lemma_without_but(b.leases, id);
    let o = worked(b, Work::Forget(id));
    if holds(b.leases, id) {
        let r = released(
            Books { leases: without(b.leases, id), ..b },
            at(b.leases, id).cores_held,
        );
        assert(o.effects[r.effects.len() as int] == Wanted::Persist);
        if r.effects.len() > 0 {
            assert(o.effects[0] == r.effects[0]);
        }
    }
}

/// The fifo of a previous daemon is removed once no lease points at it, and then
/// exactly; while something is being waited for none is.
pub proof fn law_a_fifo_is_removed_when_nothing_uses_it(b: Books, i: int)
    requires
        0 <= i < b.old_fifos.len(),
    ensures
        ({
            let o = worked(b, Work::Sweep);
            let path = b.old_fifos[i];
            let needed = exists|k: int|
                0 <= k < b.leases.len() && maybe((#[trigger] b.leases[k]).1.fifo) == Some(path@);
            &&& b.holding() ==> o.books == b && o.effects.len() == 0
            &&& !b.holding() ==> {
                &&& !needed ==> o.effects.contains(Wanted::Unlink { path: path@ })
                &&& needed ==> o.books.old_fifos.contains(path)
                &&& needed ==> !o.effects.contains(Wanted::Unlink { path: path@ })
                &&& forall|j: int|
                    0 <= j < o.effects.len() ==> (#[trigger] o.effects[j]) is Unlink
            }
        }),
{
    if !b.holding() {
        lemma_swept(b.leases, b.old_fifos, i);
        let path = b.old_fifos[i];
        let needed = exists|k: int|
            0 <= k < b.leases.len() && maybe((#[trigger] b.leases[k]).1.fifo) == Some(path@);
        if in_use(b.leases, path@) {
            let k = choose|k: int|
                0 <= k < b.leases.len() && (#[trigger] b.leases[k]).1.fifo is Some
                    && b.leases[k].1.fifo->0@ == path@;
            assert(maybe(b.leases[k].1.fifo) == Some(path@));
        }
        if needed {
            let k = choose|k: int|
                0 <= k < b.leases.len() && maybe((#[trigger] b.leases[k]).1.fifo) == Some(path@);
            assert(b.leases[k].1.fifo is Some);
        }
    }
}

proof fn lemma_swept(leases: Seq<(u64, Lease)>, fifos: Seq<String>, i: int)
    requires
        0 <= i < fifos.len(),
    ensures
        in_use(leases, fifos[i]@) ==> used(leases, fifos).contains(fifos[i]),
        !in_use(leases, fifos[i]@) ==> unused(leases, fifos).contains(
            Wanted::Unlink { path: fifos[i]@ },
        ),
        forall|j: int|
            0 <= j < unused(leases, fifos).len() ==> ((#[trigger] unused(leases, fifos)[j])
                matches Wanted::Unlink { path } && !in_use(leases, path)),
    decreases fifos.len(),
{
    let before = fifos.drop_last();
    let a = used(leases, before);
    let d = unused(leases, before);
    let all = unused(leases, fifos);
    if before.len() > 0 {
        lemma_swept(
            leases,
            before,
            if i < before.len() {
                i
            } else {
                0
            },
        );
    } else {
        assert(d.len() == 0);
    }
    assert forall|j: int| 0 <= j < all.len() implies ((#[trigger] all[j]) matches Wanted::Unlink {
        path,
    } && !in_use(leases, path)) by {
        if j < d.len() {
            assert(all[j] == d[j]);
        }
    }
    if i < before.len() {
        assert(before[i] == fifos[i]);
        if in_use(leases, fifos[i]@) {
            let j = choose|j: int| 0 <= j < a.len() && a[j] == fifos[i];
            assert(used(leases, fifos)[j] == fifos[i]);
        } else {
            let want = Wanted::Unlink { path: fifos[i]@ };
            let j = choose|j: int| 0 <= j < d.len() && d[j] == want;
            assert(all[j] == want);
        }
    } else {
        if in_use(leases, fifos[i]@) {
            assert(used(leases, fifos)[a.len() as int] == fifos[i]);
        } else {
            assert(all[d.len() as int] == (Wanted::Unlink { path: fifos[i]@ }));
        }
    }
}

/// What a lease asks for: what the user asked for; the configured count where they
/// asked for nothing and the command is given a fixed share; and nothing else.
pub proof fn law_a_lease_asks_for_what_the_user_said(plan: PlanView, configured: StaticDefault)
    ensures
        plan.cores_wanted is Some ==> wanted_cores(plan, configured) == plan.cores_wanted,
        plan.cores_wanted is None && plan.class == Class::Static ==> wanted_cores(plan, configured)
            == (match configured {
            StaticDefault::Cores(n) => Some(n),
            _ => None,
        }),
        plan.cores_wanted is None && plan.class != Class::Static ==> wanted_cores(plan, configured)
            is None,
{
}

/// A lease that joins the queue is asked for as it is on the books, and its client
/// hears the lines about its command, in their order, and then how many leases are
/// ahead of it: all the others.
pub proof fn law_a_new_lease_is_told_its_place(b: Books, id: u64)
    requires
        b.sound(),
        holds(b.leases, id),
        at(b.leases, id).start is Some,
        at(b.leases, id).connected,
        b.leases.len() <= usize::MAX,
    ensures
        ({
            let lease = at(b.leases, id);
            let lines = lease.start->0.plan@.notices;
            let o = announced(b, id);
            &&& o.effects.len() == lines.len() + 1
            &&& forall|i: int|
                0 <= i < lines.len() ==> #[trigger] o.effects[i] == (Wanted::Send {
                    lease: id,
                    event: Told::Notice { text: lines[i] },
                })
            &&& o.effects.last() matches Wanted::Send {
                lease: to,
                event: Told::Queued { id: of, ahead },
            } && to == id && of == id && ahead + 1 == b.leases.len()
            &&& o.books.leases == b.leases
            &&& exists|r: Request|
                #[trigger] asks_for(r, b, id, lease) && o.books.scheduler == next(
                    b.scheduler,
                    Event::Submit(r),
                )
        }),
{
    let lease = at(b.leases, id);
    let lines = lease.start->0.plan@.notices;
    lemma_notices(b, id, lines, lines.len());
    let r = Request {
        id: LeaseId(id),
        class: lease.class,
        cores_wanted: wanted_cores(lease.start->0.plan@, b.settings.static_default),
        label: lease.label,
    };
    assert(asks_for(r, b, id, lease));
    assert(announced(b, id).books.scheduler == next(b.scheduler, Event::Submit(r)));
}

/// Whether a request is that of a lease on the books.
pub open spec fn asks_for(r: Request, b: Books, id: u64, lease: Lease) -> bool {
    r.id == LeaseId(id) && r.class == lease.class && r.label == lease.label && r.cores_wanted
        == wanted_cores(lease.start->0.plan@, b.settings.static_default)
}

proof fn lemma_notices(b: Books, id: u64, lines: Seq<Seq<char>>, n: nat)
    requires
        holds(b.leases, id),
        at(b.leases, id).connected,
        n <= lines.len(),
    ensures
        plan_notices(b, id, lines, n).len() == n,
        forall|i: int|
            0 <= i < n ==> #[trigger] plan_notices(b, id, lines, n)[i] == (Wanted::Send {
                lease: id,
                event: Told::Notice { text: lines[i] },
            }),
    decreases n,
{
    if n > 0 {
        lemma_notices(b, id, lines, (n - 1) as nat);
        let before = plan_notices(b, id, lines, (n - 1) as nat);
        let all = plan_notices(b, id, lines, n);
        assert forall|i: int| 0 <= i < n implies #[trigger] all[i] == (Wanted::Send {
            lease: id,
            event: Told::Notice { text: lines[i] },
        }) by {
            if i < n - 1 {
                assert(all[i] == before[i]);
            }
        }
    }
}

/// What is in the pipe beyond what can be free is in excess, and taking it out
/// leaves what can be: the pool less what is out, or nothing where more is out
/// than the pool holds.
pub proof fn law_without_its_excess_the_pipe_is_right(b: Books, free: u32)
    ensures
        excess_of(b, free) <= free,
        b.out() <= b.scheduler.params.pool_size && excess_of(b, free) > 0 ==> free - excess_of(
            b,
            free,
        ) + b.out() == b.scheduler.params.pool_size,
        b.out() >= b.scheduler.params.pool_size ==> excess_of(b, free) == free,
        free + b.out() <= b.scheduler.params.pool_size ==> excess_of(b, free) == 0,
{
}

/// How a lease stands is said of its row: without a task it is queued, with as
/// many ahead as rows before it; with one it runs, and is an orphan where no
/// client is there. The row bears the lease's label, its tool and its task, and
/// how long ago it was asked for.
pub proof fn law_a_row_says_how_its_lease_stands(b: Books, now_ms: u64, i: int)
    requires
        0 <= i < rows(b, now_ms).len(),
        i <= usize::MAX,
    ensures
        ({
            let row = rows(b, now_ms)[i];
            let n = b.scheduler.admitted.len();
            let lease = at(b.leases, row.id);
            &&& rows(b, now_ms).len() == n + b.scheduler.queue.len()
            &&& i < n ==> row.id == b.scheduler.admitted[i].0 && row.cores
                == b.scheduler.admitted[i].1.cores_held && row.class == class_name(
                b.scheduler.admitted[i].1.class,
            )
            &&& i >= n ==> row.id == b.scheduler.queue[i - n].id.0 && row.cores == 0 && row.class
                == class_name(b.scheduler.queue[i - n].class)
            &&& holds(b.leases, row.id) ==> {
                &&& row.label == lease.label@
                &&& row.tool == head_of(texts(lease.argv@)).0
                &&& row.pueue_task_id == lease.pueue_task_id
                &&& now_ms >= lease.started_at_ms ==> row.elapsed_ms == now_ms
                    - lease.started_at_ms
                &&& now_ms < lease.started_at_ms ==> row.elapsed_ms == 0
                &&& lease.pueue_task_id is None ==> row.state == "queued"@ && row.ahead == Some(
                    i as usize,
                )
                &&& lease.pueue_task_id is Some ==> row.ahead is None
                &&& lease.pueue_task_id is Some && lease.connected ==> row.state == "running"@
                &&& lease.pueue_task_id is Some && !lease.connected ==> row.state == "orphaned"@
            }
            &&& !holds(b.leases, row.id) ==> row.state == "queued"@ && row.ahead == Some(i as usize)
        }),
{
}

/// What is written down of a lease brings it back: a restart has it as it was, but
/// for the client, who is gone, and for what it was started with.
pub proof fn law_a_record_brings_the_lease_back(id: u64, lease: Lease, killing: bool)
    ensures
        ({
            let r = record_of(id, lease, killing);
            let back = taken_back(r);
            &&& r.id == id
            &&& r.killing == killing
            &&& back.label == lease.label
            &&& back.argv == lease.argv
            &&& back.class == lease.class
            &&& back.cores_held == lease.cores_held
            &&& back.pueue_task_id == lease.pueue_task_id
            &&& back.started_at_ms == lease.started_at_ms
            &&& back.submitted_at_ms == lease.submitted_at_ms
            &&& back.fifo == lease.fifo
            &&& back.detached
            &&& !back.connected
            &&& back.start is None
        }),
{
}

/// Every lease is written down, once and in its order, as not being torn down;
/// and every teardown that a lease was behind is.
pub proof fn law_every_lease_is_written_down(b: Books, i: int)
    requires
        0 <= i < b.leases.len(),
    ensures
        ({
            let all = lease_records(b.leases, b.leases.len());
            &&& all.len() == b.leases.len()
            &&& all[i] == record_of(b.leases[i].0, b.leases[i].1, false)@
        }),
{
    lemma_lease_records(b.leases, b.leases.len(), i);
}

proof fn lemma_lease_records(leases: Seq<(u64, Lease)>, n: nat, i: int)
    requires
        n <= leases.len(),
    ensures
        lease_records(leases, n).len() == n,
        0 <= i < n ==> lease_records(leases, n)[i] == record_of(leases[i].0, leases[i].1, false)@,
    decreases n,
{
    if n > 0 {
        lemma_lease_records(leases, (n - 1) as nat, i);
    }
}

/// Every teardown that a lease was behind is written down with that lease's record.
pub proof fn law_every_teardown_is_written_down(b: Books, i: int)
    requires
        0 <= i < b.killing.len(),
        b.killing[i].1.record is Some,
    ensures
        kill_records(b.killing, b.killing.len()).contains(b.killing[i].1.record->0@),
{
    lemma_kill_records(b.killing, b.killing.len(), i);
}

proof fn lemma_kill_records(kills: Seq<(u64, Kill)>, n: nat, i: int)
    requires
        n <= kills.len(),
        0 <= i < n,
        kills[i].1.record is Some,
    ensures
        kill_records(kills, n).contains(kills[i].1.record->0@),
    decreases n,
{
    let before = kill_records(kills, (n - 1) as nat);
    let all = kill_records(kills, n);
    let r = kills[i].1.record->0@;
    if i == n - 1 {
        assert(all[before.len() as int] == r);
    } else {
        lemma_kill_records(kills, (n - 1) as nat, i);
        let j = choose|j: int| 0 <= j < before.len() && before[j] == r;
        assert(all[j] == r);
    }
}

/// A machine that starts from what a previous daemon left has every lease that was
/// taken back, as it was recorded, among its leases and among the admitted, with
/// its tokens; its ids start after all of theirs, and nobody waits.
pub proof fn law_a_restart_has_every_lease_that_was_taken_back(b: Books, adopt: Seq<Record>, n: nat)
    requires
        n <= adopt.len(),
        ascending(b.leases),
        ascending(b.scheduler.admitted),
        forall|i: int| 0 <= i < adopt.len() ==> (#[trigger] adopt[i]).id < u64::MAX,
        forall|i: int, j: int|
            0 <= i < j < adopt.len() ==> (#[trigger] adopt[i]).id != (#[trigger] adopt[j]).id,
    ensures
        ({
            let t = adopted(b, adopt, n);
            &&& ascending(t.leases)
            &&& ascending(t.scheduler.admitted)
            &&& t.scheduler.queue == b.scheduler.queue
            &&& t.next_id >= b.next_id
            &&& t.killing == b.killing
            &&& forall|i: int|
                0 <= i < n ==> {
                    let id = (#[trigger] adopt[i]).id;
                    &&& holds(t.leases, id)
                    &&& at(t.leases, id) == taken_back(adopt[i])
                    &&& holds(t.scheduler.admitted, id)
                    &&& at(t.scheduler.admitted, id).class == adopt[i].class
                    &&& at(t.scheduler.admitted, id).cores_held == adopt[i].cores_held
                    &&& t.next_id > id
                }
        }),
    decreases n,
{
    if n > 0 {
        let m = (n - 1) as nat;
        law_a_restart_has_every_lease_that_was_taken_back(b, adopt, m);
        let t = adopted(b, adopt, m);
        let u = adopted(b, adopt, n);
        let r = adopt[n - 1];
        lemma_put_but(t.leases, r.id, taken_back(r));
        let v = at(u.scheduler.admitted, r.id);
        let w = Admitted {
            class: r.class,
            cores_held: r.cores_held,
            label: r.label,
            share: fair(t.scheduler.params.pool_size as nat, t.scheduler.admitted.len()) as u32,
        };
        lemma_put_but(t.scheduler.admitted, r.id, w);
        assert forall|i: int| 0 <= i < n implies {
            let id = (#[trigger] adopt[i]).id;
            &&& holds(u.leases, id)
            &&& at(u.leases, id) == taken_back(adopt[i])
            &&& holds(u.scheduler.admitted, id)
            &&& at(u.scheduler.admitted, id).class == adopt[i].class
            &&& at(u.scheduler.admitted, id).cores_held == adopt[i].cores_held
            &&& u.next_id > id
        } by {
            if i < m {
                assert(adopt[i].id != adopt[n - 1].id);
                assert(holds(t.leases, adopt[i].id));
                assert(holds(t.scheduler.admitted, adopt[i].id));
            }
        }
    }
}

/// A machine that starts from what a previous daemon left has every teardown that
/// was not seen through, with its tokens and its record, and a new grace; so
/// nothing is admitted until they are.
pub proof fn law_a_restart_has_every_teardown(
    b: Books,
    resume: Seq<Record>,
    now_ms: u64,
    n: nat,
)
    requires
        n <= resume.len(),
        ascending(b.killing),
        forall|i: int| 0 <= i < resume.len() ==> (#[trigger] resume[i]).id < u64::MAX,
        forall|i: int|
            0 <= i < resume.len() ==> (#[trigger] resume[i]).pueue_task_id is Some,
        forall|i: int, j: int|
            0 <= i < j < resume.len() ==> (#[trigger] resume[i]).pueue_task_id != (
            #[trigger] resume[j]).pueue_task_id,
    ensures
        ({
            let t = resumed(b, resume, now_ms, n);
            &&& ascending(t.killing)
            &&& t.leases == b.leases
            &&& t.next_id >= b.next_id
            &&& n > 0 ==> t.holding()
            &&& forall|i: int|
                0 <= i < n ==> {
                    let task = (#[trigger] resume[i]).pueue_task_id->0 as u64;
                    &&& holds(t.killing, task)
                    &&& at(t.killing, task).tokens == resume[i].cores_held
                    &&& at(t.killing, task).record == Some(resume[i])
                    &&& !at(t.killing, task).escalated
                    &&& at(t.killing, task).deadline_ms >= now_ms
                    &&& t.next_id > resume[i].id
                }
        }),
    decreases n,
{
    if n > 0 {
        let m = (n - 1) as nat;
        law_a_restart_has_every_teardown(b, resume, now_ms, m);
        let t = resumed(b, resume, now_ms, m);
        let u = resumed(b, resume, now_ms, n);
        let r = resume[n - 1];
        let last = r.pueue_task_id->0 as u64;
        let kill = Kill {
            deadline_ms: later_by(now_ms, KILL_GRACE_MS),
            escalated: false,
            tokens: r.cores_held,
            record: Some(r),
        };
        lemma_put_but(t.killing, last, kill);
        assert(u.killing == put(t.killing, last, kill));
        assert forall|i: int| 0 <= i < n implies {
            let task = (#[trigger] resume[i]).pueue_task_id->0 as u64;
            &&& holds(u.killing, task)
            &&& at(u.killing, task).tokens == resume[i].cores_held
            &&& at(u.killing, task).record == Some(resume[i])
            &&& !at(u.killing, task).escalated
            &&& at(u.killing, task).deadline_ms >= now_ms
            &&& u.next_id > resume[i].id
        } by {
            if i < m {
                assert(resume[i].pueue_task_id != resume[n - 1].pueue_task_id);
                assert(holds(t.killing, resume[i].pueue_task_id->0 as u64));
            }
        }
    }
}

/// A pool that grows is given the tokens it grew by, less what is owed; one that
/// shrinks has as many taken out, and owes what is not there to be taken. The
/// queue is looked at again under the new parameters.
pub proof fn law_a_resized_pool_gains_or_gives_the_difference(b: Books, params: Params)
    requires
        b.debt + b.scheduler.params.pool_size <= u32::MAX,
    ensures
        ({
            let o = resized(b, params);
            let before = b.scheduler.params.pool_size;
            &&& params.pool_size > before && b.debt == 0 ==> o.effects == seq![
                Wanted::Release { tokens: (params.pool_size - before) as u32 },
            ] && o.books.debt == 0
            &&& params.pool_size > before && b.debt >= params.pool_size - before ==> o.effects.len()
                == 0 && o.books.debt == b.debt - (params.pool_size - before)
            &&& params.pool_size == before ==> o.effects.len() == 0 && o.books.debt == b.debt
            &&& params.pool_size < before ==> o.effects == seq![
                Wanted::Withdraw { tokens: (before - params.pool_size) as u32 },
            ] && o.books.debt == b.debt + (before - params.pool_size)
            &&& o.books.scheduler == settled(State { params, ..b.scheduler })
            &&& o.books.leases == b.leases
        }),
{
}

/// The exit code that a result stands for.
pub proof fn law_a_client_exits_as_its_task_did(code: i32, why: String)
    ensures
        exit_code_of(TaskResult::Success) == 0,
        exit_code_of(TaskResult::Failed(code)) == code,
        exit_code_of(TaskResult::Killed) == 130,
        exit_code_of(TaskResult::FailedToSpawn(why)) == 127,
        exit_code_of(TaskResult::Errored) == 1,
        exit_code_of(TaskResult::DependencyFailed) == 1,
{
}

/// A lease that waits is told how many are ahead of it: those in the queue and all
/// that are admitted. One without a client is told nothing.
pub proof fn law_a_waiting_lease_is_told_all_that_are_ahead(b: Books, now_ms: u64)
    requires
        b.stage is Ready,
        b.pending.len() > 0,
        b.pending[0] is Notify,
        b.pending[0]->ahead + b.scheduler.admitted.len() <= usize::MAX,
    ensures
        ({
            let id = b.pending[0]->Notify_id.0;
            let (t, turn) = stepped(b, now_ms);
            &&& t == (Books { pending: b.pending.skip(1), ..b })
            &&& turn is Do
            &&& holds(b.leases, id) && at(b.leases, id).connected ==> turn->Do_0 == seq![
                Wanted::Send {
                    lease: id,
                    event: Told::Queued {
                        id,
                        ahead: (b.pending[0]->ahead + b.scheduler.admitted.len()) as usize,
                    },
                },
            ]
            &&& !(holds(b.leases, id) && at(b.leases, id).connected) ==> turn->Do_0.len() == 0
        }),
{
}

/// The tasks that leases have are claimed, and no others are.
pub proof fn law_a_leases_task_is_claimed(leases: Seq<(u64, Lease)>, n: nat, task: usize)
    requires
        n <= leases.len(),
    ensures
        claimed(leases, n).contains(task) <==> exists|i: int|
            0 <= i < n && (#[trigger] leases[i]).1.pueue_task_id == Some(task),
    decreases n,
{
    if n > 0 {
        let m = (n - 1) as nat;
        law_a_leases_task_is_claimed(leases, m, task);
        let before = claimed(leases, m);
        let all = claimed(leases, n);
        if all.contains(task) {
            let j = choose|j: int| 0 <= j < all.len() && all[j] == task;
            if j < before.len() {
                assert(before[j] == task);
                assert(before.contains(task));
            } else {
                assert(leases[n - 1].1.pueue_task_id == Some(task));
            }
        }
        if exists|i: int| 0 <= i < n && (#[trigger] leases[i]).1.pueue_task_id == Some(task) {
            let i = choose|i: int|
                0 <= i < n && (#[trigger] leases[i]).1.pueue_task_id == Some(task);
            if i < m {
                assert(before.contains(task));
                let j = choose|j: int| 0 <= j < before.len() && before[j] == task;
                assert(all[j] == task);
            } else {
                assert(all[before.len() as int] == task);
            }
        }
    }
}

/// When pueued is gone every lease with a task is lost with it, for that reason, and
/// no other lease is; nothing is waited for any more.
pub proof fn law_every_running_lease_is_lost_with_pueued(b: Books, err: String, id: u64)
    requires
        b.sound(),
        holds(b.leases, id),
    ensures
        ({
            let o = lost(b, err);
            let new = o.books.later.skip(b.later.len() as int);
            &&& extends(b.later, o.books.later)
            &&& at(b.leases, id).pueue_task_id is Some ==> new.contains(
                Work::Ended { id, how: Ending::Lost(err) },
            )
            &&& at(b.leases, id).pueue_task_id is None ==> forall|w: int|
                0 <= w < new.len() ==> !ends_it(#[trigger] new[w], id)
            &&& !o.books.holding()
            &&& o.books.leases == b.leases
            &&& b.holding() ==> o.effects.contains(Wanted::Persist)
        }),
{
    let o = lost(b, err);
    let k = kills_given_up(b, b.killing, b.killing.len());
    lemma_kills_given_up_frame(b, b.killing, b.killing.len());
    lemma_submissions_frame(
        k.books,
        b.unreconciled,
        Seq::empty(),
        0,
        b.unreconciled.len(),
    );
    lemma_given_up_empty(k.books, b.unreconciled, b.unreconciled.len());
    let s = submissions_given_up(k.books, b.unreconciled, b.unreconciled.len());
    let list = losses(b.leases, err, b.leases.len());
    let tail = seq![Work::ResumeAll];
    assert(o.books.later =~= b.later + list + tail);
    lemma_extends(b.later, list + tail);
    assert(b.later + list + tail =~= b.later + (list + tail));
    let new = o.books.later.skip(b.later.len() as int);
    assert(new =~= list + tail);
    let i = rank(b.leases, id) as int;
    lemma_losses(b.leases, err, b.leases.len(), i);
    if at(b.leases, id).pueue_task_id is Some {
        let w = Work::Ended { id, how: Ending::Lost(err) };
        let j = choose|j: int| 0 <= j < list.len() && list[j] == w;
        assert(new[j] == w);
    } else {
        assert forall|w: int| 0 <= w < new.len() implies !ends_it(#[trigger] new[w], id) by {
            if w < list.len() {
                assert(new[w] == list[w]);
            }
        }
    }
    if b.holding() {
        assert(o.effects[(k.effects.len() + s.effects.len()) as int] == Wanted::Persist);
    }
}

proof fn lemma_given_up_empty(b: Books, list: Seq<Unreconciled>, n: nat)
    ensures
        submissions_given_up(b, list, n).books.unreconciled.len() == 0,
    decreases n,
{
    if n > 0 {
        lemma_given_up_empty(b, list, (n - 1) as nat);
    }
}

proof fn lemma_losses(leases: Seq<(u64, Lease)>, err: String, n: nat, i: int)
    requires
        n <= leases.len(),
        ascending(leases),
        0 <= i < leases.len(),
    ensures
        ({
            let all = losses(leases, err, n);
            &&& i < n && leases[i].1.pueue_task_id is Some ==> all.contains(
                Work::Ended { id: leases[i].0, how: Ending::Lost(err) },
            )
            &&& leases[i].1.pueue_task_id is None ==> forall|w: int|
                0 <= w < all.len() ==> !ends_it(#[trigger] all[w], leases[i].0)
        }),
    decreases n,
{
    if n > 0 {
        let m = (n - 1) as nat;
        lemma_losses(leases, err, m, i);
        let before = losses(leases, err, m);
        let all = losses(leases, err, n);
        if i < n && leases[i].1.pueue_task_id is Some {
            let w = Work::Ended { id: leases[i].0, how: Ending::Lost(err) };
            if i < m {
                let j = choose|j: int| 0 <= j < before.len() && before[j] == w;
                assert(all[j] == w);
            } else {
                assert(all[before.len() as int] == w);
            }
        }
        if leases[i].1.pueue_task_id is None {
            assert forall|w: int| 0 <= w < all.len() implies !ends_it(
                #[trigger] all[w],
                leases[i].0,
            ) by {
                if w < before.len() {
                    assert(all[w] == before[w]);
                } else {
                    assert(i != n - 1);
                    if i < n - 1 {
                        assert(leases[i].0 < leases[n - 1].0);
                    } else {
                        assert(leases[n - 1].0 < leases[i].0);
                    }
                }
            }
        }
    }
}

/// A lease that is ended on request is cancelled with the scheduler, and taken off
/// the books after everything that waits.
pub proof fn law_an_ended_lease_is_cancelled(b: Books, id: u64)
    ensures
        ended(b, id).scheduler == next(b.scheduler, Event::Cancel(LeaseId(id))),
        ended(b, id).later == b.later.push(Work::Forget(id)),
        ended(b, id).leases == b.leases,
        extends(b.pending, ended(b, id).pending),
        holds(b.scheduler.admitted, id) ==> ended(b, id).pending.contains(
            Action::Drop(LeaseId(id)),
        ),
{
    let ev = Event::Cancel(LeaseId(id));
    lemma_extends(b.pending, asked(b.scheduler, ev));
    if holds(b.scheduler.admitted, id) {
        law_a_teardown_is_asked_for_once(b.scheduler, ev, LeaseId(id));
        let all = asked(b.scheduler, ev);
        let i = choose|i: int| 0 <= i < all.len() && all[i] == Action::Drop(LeaseId(id));
        assert(ended(b, id).pending[b.pending.len() + i] == all[i]);
    }
}

/// The fifos that the tasks of a previous daemon were pointed at are remembered, to
/// be removed once none of them needs it.
pub proof fn law_old_fifos_are_remembered(
    b: Books,
    resume: Seq<Record>,
    adopt: Seq<Record>,
    now_ms: u64,
    path: Seq<char>,
)
    requires
        ({
            ||| exists|i: int|
                0 <= i < adopt.len() && maybe((#[trigger] adopt[i]).fifo) == Some(path)
            ||| exists|i: int|
                0 <= i < resume.len() && maybe((#[trigger] resume[i]).fifo) == Some(path)
                    && resume[i].pueue_task_id is Some
        }),
    ensures
        lists(
            adopted(
                resumed(b, resume, now_ms, resume.len()),
                adopt,
                adopt.len(),
            ).old_fifos,
            path,
        ),
{
    lemma_resumed_fifos(b, resume, now_ms, resume.len(), path);
    lemma_adopted_fifos(
        resumed(b, resume, now_ms, resume.len()),
        adopt,
        adopt.len(),
        path,
    );
}

proof fn lemma_noted(fifos: Seq<String>, fifo: Option<String>, path: Seq<char>)
    ensures
        lists(fifos, path) ==> lists(noted(fifos, fifo), path),
        maybe(fifo) == Some(path) ==> lists(noted(fifos, fifo), path),
{
    let all = noted(fifos, fifo);
    if lists(fifos, path) {
        let i = choose|i: int| 0 <= i < fifos.len() && (#[trigger] fifos[i])@ == path;
        assert(all[i] == fifos[i]);
    }
    if maybe(fifo) == Some(path) && !lists(fifos, path) {
        assert(all[fifos.len() as int]@ == path);
    }
}

proof fn lemma_resumed_fifos(
    b: Books,
    records: Seq<Record>,
    now_ms: u64,
    n: nat,
    path: Seq<char>,
)
    requires
        n <= records.len(),
    ensures
        (exists|i: int|
            0 <= i < n && maybe((#[trigger] records[i]).fifo) == Some(path)
                && records[i].pueue_task_id is Some) ==> lists(
            resumed(b, records, now_ms, n).old_fifos,
            path,
        ),
    decreases n,
{
    if n > 0 {
        let m = (n - 1) as nat;
        lemma_resumed_fifos(b, records, now_ms, m, path);
        let t = resumed(b, records, now_ms, m);
        lemma_noted(t.old_fifos, records[n - 1].fifo, path);
        if exists|i: int|
            0 <= i < n && maybe((#[trigger] records[i]).fifo) == Some(path)
                && records[i].pueue_task_id is Some {
            let i = choose|i: int|
                0 <= i < n && maybe((#[trigger] records[i]).fifo) == Some(path)
                    && records[i].pueue_task_id is Some;
            if i < m {
                assert(maybe(records[i].fifo) == Some(path));
            }
        }
    }
}

proof fn lemma_adopted_fifos(b: Books, records: Seq<Record>, n: nat, path: Seq<char>)
    requires
        n <= records.len(),
    ensures
        lists(b.old_fifos, path) ==> lists(adopted(b, records, n).old_fifos, path),
        (exists|i: int| 0 <= i < n && maybe((#[trigger] records[i]).fifo) == Some(path)) ==> lists(
            adopted(b, records, n).old_fifos,
            path,
        ),
    decreases n,
{
    if n > 0 {
        let m = (n - 1) as nat;
        lemma_adopted_fifos(b, records, m, path);
        let t = adopted(b, records, m);
        lemma_noted(t.old_fifos, records[n - 1].fifo, path);
        if exists|i: int| 0 <= i < n && maybe((#[trigger] records[i]).fifo) == Some(path) {
            let i = choose|i: int| 0 <= i < n && maybe((#[trigger] records[i]).fifo) == Some(path);
            if i < m {
                assert(maybe(records[i].fifo) == Some(path));
            }
        }
    }
}

/// A machine that has nothing on its books admits nobody and holds nothing, and its
/// first lease is number 1.
pub proof fn law_a_new_machine_is_empty(params: Params, settings: Settings, debt: u32)
    ensures
        ({
            let b = fresh(params, settings, debt);
            &&& b.scheduler.params == params
            &&& b.scheduler.queue.len() == 0 && b.scheduler.admitted.len() == 0
            &&& b.leases.len() == 0 && b.killing.len() == 0 && b.unreconciled.len() == 0
            &&& b.next_id == 1
            &&& b.debt == debt
            &&& at_rest(b)
        }),
{
}

/// An answer moves the admission under way on: from its drain to its record, from
/// there to its submission, and from there to its end; an admission whose lease is
/// gone ends at once. An answer to something else changes nothing.
pub proof fn law_an_answer_moves_the_admission_on(
    b: Books,
    got: u32,
    now_ms: u64,
    recorded: Result<(), String>,
    sent_at_ns: i64,
    answer: Result<usize, String>,
)
    ensures
        b.stage matches Stage::Draining { id, .. } ==> drained(b, got, now_ms).books.stage == (
        if holds(b.leases, id) {
            Stage::Recording { id }
        } else {
            Stage::Ready
        }),
        !(b.stage is Draining) ==> drained(b, got, now_ms).books == b && drained(
            b,
            got,
            now_ms,
        ).effects.len() == 0,
        b.stage matches Stage::Recording { id } ==> recorded_as(b, recorded, sent_at_ns).stage == (
        if holds(b.leases, id) && at(b.leases, id).start is Some && recorded is Ok {
            Stage::Submitting { id, sent_at_ns }
        } else {
            Stage::Ready
        }),
        !(b.stage is Recording) ==> recorded_as(b, recorded, sent_at_ns) == b,
        b.stage is Submitting ==> submitted(b, answer).books.stage is Ready,
        !(b.stage is Submitting) ==> submitted(b, answer).books == b && submitted(
            b,
            answer,
        ).effects.len() == 0,
{
}

/// What the client of a lease hears whose exit code is not known: that its task
/// disappeared, and which it was, or that pueued did, and why. Of a task that exited
/// there is nothing to say.
pub proof fn law_a_lost_exit_code_is_explained(task: usize, err: String, code: i32)
    ensures
        ending_notice(Ending::Vanished(task)) == Some(
            "pueue task "@ + decimal_of(task as nat)
                + " disappeared before it finished; its exit code is lost"@,
        ),
        ending_notice(Ending::Lost(err)) == Some(
            "pueued went away ("@ + err@ + "); task state unknown"@,
        ),
        ending_notice(Ending::Exited(code)) is None,
{
}

/// A lease that is taken back counts as one that was admitted when as many were: its
/// share is the fair one beside those that were taken back before it.
pub proof fn law_a_lease_taken_back_has_its_share(b: Books, adopt: Seq<Record>, n: nat)
    requires
        n <= adopt.len(),
        ascending(b.scheduler.admitted),
        forall|i: int|
            0 <= i < adopt.len() ==> !holds(b.scheduler.admitted, (#[trigger] adopt[i]).id),
        forall|i: int, j: int|
            0 <= i < j < adopt.len() ==> (#[trigger] adopt[i]).id != (#[trigger] adopt[j]).id,
    ensures
        ({
            let t = adopted(b, adopt, n);
            &&& ascending(t.scheduler.admitted)
            &&& t.scheduler.params == b.scheduler.params
            &&& t.scheduler.admitted.len() == b.scheduler.admitted.len() + n
            &&& forall|k: u64| #[trigger]
                holds(t.scheduler.admitted, k) ==> holds(b.scheduler.admitted, k) || exists|i: int|
                    0 <= i < n && (#[trigger] adopt[i]).id == k
            &&& forall|i: int|
                0 <= i < n ==> holds(t.scheduler.admitted, (#[trigger] adopt[i]).id) && at(
                    t.scheduler.admitted,
                    adopt[i].id,
                ).share == fair(
                    b.scheduler.params.pool_size as nat,
                    (b.scheduler.admitted.len() + i) as nat,
                ) as u32
        }),
    decreases n,
{
    if n > 0 {
        let m = (n - 1) as nat;
        law_a_lease_taken_back_has_its_share(b, adopt, m);
        let t = adopted(b, adopt, m);
        let u = adopted(b, adopt, n);
        let r = adopt[n - 1];
        let w = Admitted {
            class: r.class,
            cores_held: r.cores_held,
            label: r.label,
            share: fair(t.scheduler.params.pool_size as nat, t.scheduler.admitted.len()) as u32,
        };
        if holds(t.scheduler.admitted, r.id) {
            let i = choose|i: int| 0 <= i < m && (#[trigger] adopt[i]).id == r.id;
            assert(adopt[i].id != adopt[n - 1].id);
        }
        lemma_put(t.scheduler.admitted, r.id, w);
        lemma_put_but(t.scheduler.admitted, r.id, w);
        assert forall|k: u64| #[trigger] holds(u.scheduler.admitted, k) implies holds(
            b.scheduler.admitted,
            k,
        ) || exists|i: int| 0 <= i < n && (#[trigger] adopt[i]).id == k by {
            if k == r.id {
                assert(adopt[n - 1].id == k);
            } else {
                assert(holds(t.scheduler.admitted, k));
                if !holds(b.scheduler.admitted, k) {
                    let i = choose|i: int| 0 <= i < m && (#[trigger] adopt[i]).id == k;
                    assert(adopt[i].id == k);
                }
            }
        }
        assert forall|i: int| 0 <= i < n implies holds(
            u.scheduler.admitted,
            (#[trigger] adopt[i]).id,
        ) && at(u.scheduler.admitted, adopt[i].id).share == fair(
            b.scheduler.params.pool_size as nat,
            (b.scheduler.admitted.len() + i) as nat,
        ) as u32 by {
            if i < m {
                assert(adopt[i].id != adopt[n - 1].id);
                assert(holds(t.scheduler.admitted, adopt[i].id));
            }
        }
    }
}

/// No admission is lost on the way: one that is held back stays so, or is performed
/// next, unless its lease is torn down; and one that is pending stays so until it is
/// its turn, when it is held back, or its drain starts, or it is reported as failed.
pub proof fn law_no_admission_is_lost(b: Books, a: Action, now_ms: u64)
    requires
        b.stage is Ready,
        a is Admit,
    ensures
        ({
            let (t, turn) = stepped(b, now_ms);
            let id = a->Admit_id;
            &&& b.deferred.contains(a) && !(b.pending.len() > 0 && b.pending[0] == Action::Drop(id))
                ==> t.deferred.contains(a) || t.pending.contains(a)
            &&& b.pending.len() > 0 && b.pending.skip(1).contains(a) ==> t.pending.contains(a)
            &&& b.pending.len() > 0 && b.pending[0] == a ==> {
                ||| t.deferred.contains(a)
                ||| t.stage == (Stage::Draining { id: id.0, tokens: a->drain_target }) && turn
                    is Drain
                ||| t.scheduler == next(b.scheduler, Event::DrainFailed(id))
            }
        }),
{
    let (t, turn) = stepped(b, now_ms);
    let id = a->Admit_id;
    law_actions_are_performed_in_order(b, now_ms);
    if b.pending.len() > 0 && b.pending.skip(1).contains(a) {
        let rest = b.pending.skip(1);
        let i = choose|i: int| 0 <= i < rest.len() && rest[i] == a;
        assert(t.pending.take(rest.len() as int)[i] == a);
        assert(t.pending[i] == a);
    }
    if b.pending.len() > 0 && b.pending[0] == a && b.holding() {
        assert(t.deferred[b.deferred.len() as int] == a);
    }
    if b.deferred.contains(a) && !(b.pending.len() > 0 && b.pending[0] == Action::Drop(id)) {
        let i = choose|i: int| 0 <= i < b.deferred.len() && b.deferred[i] == a;
        if b.pending.len() > 0 {
            match b.pending[0] {
                Action::Drop(other) => {
                    lemma_kept_exactly(b.deferred, Sieve::AdmitOf(other.0));
                    assert(!Sieve::AdmitOf(other.0).stops(a));
                    assert(t.deferred.contains(a));
                },
                _ => {
                    assert(t.deferred[i] == a);
                },
            }
        } else if b.later.len() > 0 {
            match b.later[0] {
                Work::Resume => {
                    if b.holding() {
                        assert(t.deferred[i] == a);
                    } else {
                        assert(t.pending[b.pending.len() + i] == a);
                    }
                },
                Work::ResumeAll => {
                    assert(t.pending[b.pending.len() + i] == a);
                },
                _ => {
                    assert(t.deferred[i] == a);
                },
            }
        }
    }
}

/// What is held back goes last: behind the ends of the leases whose tasks are over,
/// since the tasks that it starts are not on the list that was looked at; and only
/// the fifos are swept after it.
pub proof fn law_what_was_held_back_goes_last(b: Books, tasks: Seq<Task>, now_ms: u64, err: String)
    ensures
        ({
            let all = polled(b, tasks, now_ms).books.later;
            let n = all.len() as int;
            &&& n >= b.later.len() + 2
            &&& all[n - 2] is Resume
            &&& all[n - 1] is Sweep
            &&& forall|i: int| b.later.len() <= i < n - 2 ==> (#[trigger] all[i]) is Ended
        }),
        ({
            let all = lost(b, err).books.later;
            let n = all.len() as int;
            &&& n >= b.later.len() + 1
            &&& all[n - 1] is ResumeAll
            &&& forall|i: int| b.later.len() <= i < n - 1 ==> (#[trigger] all[i]) is Ended
        }),
{
    let n = b.killing.len();
    let k = kills_settled(b, b.killing, tasks, now_ms, n);
    lemma_kills_settled_frame(b, b.killing, tasks, now_ms, n);
    lemma_submissions_frame(k.books, b.unreconciled, tasks, now_ms, b.unreconciled.len());
    lemma_only_ends(b.leases, tasks, err, b.leases.len());
    let list = ends(b.leases, tasks, b.leases.len());
    let all = polled(b, tasks, now_ms).books.later;
    assert(all =~= b.later + list + seq![Work::Resume, Work::Sweep]);
    assert forall|i: int| b.later.len() <= i < all.len() - 2 implies (#[trigger] all[i]) is Ended by {
        assert(all[i] == list[i - b.later.len()]);
    }
    let g = kills_given_up(b, b.killing, n);
    lemma_kills_given_up_frame(b, b.killing, n);
    lemma_submissions_frame(g.books, b.unreconciled, tasks, now_ms, b.unreconciled.len());
    let gone = losses(b.leases, err, b.leases.len());
    let rest = lost(b, err).books.later;
    assert(rest =~= b.later + gone + seq![Work::ResumeAll]);
    assert forall|i: int| b.later.len() <= i < rest.len() - 1 implies (#[trigger] rest[i])
        is Ended by {
        assert(rest[i] == gone[i - b.later.len()]);
    }
}

proof fn lemma_only_ends(leases: Seq<(u64, Lease)>, tasks: Seq<Task>, err: String, n: nat)
    ensures
        forall|i: int|
            0 <= i < ends(leases, tasks, n).len() ==> (#[trigger] ends(leases, tasks, n)[i])
                is Ended,
        forall|i: int|
            0 <= i < losses(leases, err, n).len() ==> (#[trigger] losses(leases, err, n)[i])
                is Ended,
    decreases n,
{
    if n > 0 {
        let m = (n - 1) as nat;
        lemma_only_ends(leases, tasks, err, m);
        let a = ends(leases, tasks, n);
        assert forall|i: int| 0 <= i < a.len() implies (#[trigger] a[i]) is Ended by {
            if i < ends(leases, tasks, m).len() {
                assert(a[i] == ends(leases, tasks, m)[i]);
            }
        }
        let l = losses(leases, err, n);
        assert forall|i: int| 0 <= i < l.len() implies (#[trigger] l[i]) is Ended by {
            if i < losses(leases, err, m).len() {
                assert(l[i] == losses(leases, err, m)[i]);
            }
        }
    }
}

} // verus!
