//! What the lease machine promises: nothing starts beside a task that nobody
//! accounts for, and no token is lost or made up.

use vstd::prelude::*;

#[allow(unused_imports)]
use crate::ledger::{
    ascending, at, holds, lemma_put, lemma_put_last, lemma_rank, lemma_without, put, rank, without,
};
#[allow(unused_imports)]
use crate::leases::{
    adopted, announced, claimed, cores_told, drained, ended, ending, failed, fed_but, finished,
    fresh, gone, kept, kill_records, kills_given_up, kills_settled, later_by, lease_records, leased,
    lost, plan_notices, polled, record_of, released, resized, resumed, stepped,
    submissions_given_up, submissions_settled, submitted, taken_back, told, torn_down, unanswered,
    unused, worked, Books, Kill, Lease, Settings, Stage, Turn, Unreconciled, Wanted, Work,
    KILL_GRACE_MS,
};
#[allow(unused_imports)]
use crate::protocol::Told;
#[allow(unused_imports)]
use crate::recovery::{
    distinct_tasks, law_each_task_is_taken_over_once, least, lemma_orphan_alive, orphan_of,
    recorded, sorted, Record, RecordView,
};
#[allow(unused_imports)]
use crate::scheduler::{law_events_keep_the_parameters, Action, Event, LeaseId, Params};
#[allow(unused_imports)]
use crate::status::Task;

verus! {

/// A sum.
pub open spec fn total(s: Seq<nat>) -> nat
    decreases s.len(),
{
    if s.len() == 0 {
        0
    } else {
        total(s.drop_last()) + s.last()
    }
}

proof fn lemma_total_insert(s: Seq<nat>, p: int, v: nat)
    requires
        0 <= p <= s.len(),
    ensures
        total(s.insert(p, v)) == total(s) + v,
    decreases s.len(),
{
    let t = s.insert(p, v);
    if p == s.len() {
        assert(t.drop_last() =~= s);
    } else {
        lemma_total_insert(s.drop_last(), p, v);
        assert(t.drop_last() =~= s.drop_last().insert(p, v));
    }
}

proof fn lemma_total_remove(s: Seq<nat>, p: int)
    requires
        0 <= p < s.len(),
    ensures
        total(s.remove(p)) + s[p] == total(s),
{
    lemma_total_insert(s.remove(p), p, s[p]);
    assert(s.remove(p).insert(p, s[p]) =~= s);
}

/// What each lease holds.
pub open spec fn shares(leases: Seq<(u64, Lease)>) -> Seq<nat> {
    Seq::new(leases.len(), |i: int| leases[i].1.cores_held as nat)
}

/// What each teardown holds.
pub open spec fn remains(kills: Seq<(u64, Kill)>) -> Seq<nat> {
    Seq::new(kills.len(), |i: int| kills[i].1.tokens as nat)
}

proof fn lemma_leased_total(leases: Seq<(u64, Lease)>, n: nat)
    requires
        n <= leases.len(),
    ensures
        leased(leases, n) == total(shares(leases).take(n as int)),
    decreases n,
{
    if n > 0 {
        lemma_leased_total(leases, (n - 1) as nat);
        assert(shares(leases).take(n as int).drop_last() =~= shares(leases).take(n - 1));
    }
}

proof fn lemma_ending_total(kills: Seq<(u64, Kill)>, n: nat)
    requires
        n <= kills.len(),
    ensures
        ending(kills, n) == total(remains(kills).take(n as int)),
    decreases n,
{
    if n > 0 {
        lemma_ending_total(kills, (n - 1) as nat);
        assert(remains(kills).take(n as int).drop_last() =~= remains(kills).take(n - 1));
    }
}

proof fn lemma_leased_without(leases: Seq<(u64, Lease)>, id: u64)
    requires
        holds(leases, id),
    ensures
        leased(without(leases, id), without(leases, id).len()) + at(leases, id).cores_held
            == leased(leases, leases.len()),
{
    let t = without(leases, id);
    let p = crate::ledger::rank(leases, id) as int;
    lemma_leased_total(leases, leases.len());
    lemma_leased_total(t, t.len());
    assert(shares(leases).take(leases.len() as int) =~= shares(leases));
    assert(shares(t).take(t.len() as int) =~= shares(t));
    lemma_total_remove(shares(leases), p);
    assert(shares(t) =~= shares(leases).remove(p));
}

proof fn lemma_leased_put(leases: Seq<(u64, Lease)>, id: u64, lease: Lease)
    ensures
        leased(put(leases, id, lease), put(leases, id, lease).len()) + (if holds(leases, id) {
            at(leases, id).cores_held as nat
        } else {
            0
        }) == leased(leases, leases.len()) + lease.cores_held,
{
    let t = put(leases, id, lease);
    let p = crate::ledger::rank(leases, id) as int;
    lemma_rank(leases, id);
    lemma_leased_total(leases, leases.len());
    lemma_leased_total(t, t.len());
    assert(shares(leases).take(leases.len() as int) =~= shares(leases));
    assert(shares(t).take(t.len() as int) =~= shares(t));
    if holds(leases, id) {
        lemma_total_remove(shares(leases), p);
        lemma_total_insert(shares(leases).remove(p), p, lease.cores_held as nat);
        assert(shares(t) =~= shares(leases).remove(p).insert(p, lease.cores_held as nat));
    } else {
        lemma_total_insert(shares(leases), p, lease.cores_held as nat);
        assert(shares(t) =~= shares(leases).insert(p, lease.cores_held as nat));
    }
}

proof fn lemma_ending_put(kills: Seq<(u64, Kill)>, task: u64, kill: Kill)
    requires
        !holds(kills, task),
    ensures
        ending(put(kills, task, kill), put(kills, task, kill).len()) == ending(
            kills,
            kills.len(),
        ) + kill.tokens,
{
    let t = put(kills, task, kill);
    let p = crate::ledger::rank(kills, task) as int;
    lemma_rank(kills, task);
    lemma_ending_total(kills, kills.len());
    lemma_ending_total(t, t.len());
    assert(remains(kills).take(kills.len() as int) =~= remains(kills));
    assert(remains(t).take(t.len() as int) =~= remains(t));
    lemma_total_insert(remains(kills), p, kill.tokens as nat);
    assert(remains(t) =~= remains(kills).insert(p, kill.tokens as nat));
}

proof fn lemma_ending_prefix(a: Seq<(u64, Kill)>, b: Seq<(u64, Kill)>, n: nat)
    requires
        n <= a.len(),
        n <= b.len(),
        forall|i: int| 0 <= i < n ==> (#[trigger] a[i]) == b[i],
    ensures
        ending(a, n) == ending(b, n),
    decreases n,
{
    if n > 0 {
        lemma_ending_prefix(a, b, (n - 1) as nat);
        assert(a[n - 1] == b[n - 1]);
    }
}

/// Tokens that effects put back into the pool.
pub open spec fn given(effects: Seq<Wanted>) -> nat
    decreases effects.len(),
{
    if effects.len() == 0 {
        0
    } else {
        given(effects.drop_last()) + match effects.last() {
            Wanted::Release { tokens } => tokens as nat,
            _ => 0,
        }
    }
}

/// Tokens that the pool is short of: what is out, less what it has no room for.
pub open spec fn short(b: Books) -> int {
    b.out() - b.debt
}

proof fn lemma_given_add(a: Seq<Wanted>, b: Seq<Wanted>)
    ensures
        given(a + b) == given(a) + given(b),
    decreases b.len(),
{
    if b.len() == 0 {
        assert(a + b =~= a);
    } else {
        assert((a + b).drop_last() =~= a + b.drop_last());
        lemma_given_add(a, b.drop_last());
    }
}

proof fn lemma_given_one(e: Wanted)
    ensures
        given(seq![e]) == match e {
            Wanted::Release { tokens } => tokens as nat,
            _ => 0,
        },
{
    assert(seq![e].drop_last() =~= Seq::empty());
    assert(given(Seq::<Wanted>::empty()) == 0);
    assert(seq![e].last() == e);
}

proof fn lemma_given_told(b: Books, id: u64, event: Told)
    ensures
        given(told(b, id, event)) == 0,
{
    lemma_given_one(Wanted::Send { lease: id, event });
    assert(given(Seq::<Wanted>::empty()) == 0);
}

/// Tokens that come back go to the debt first; the rest, and no more, goes into
/// the pool.
pub proof fn law_the_debt_is_paid_first(b: Books, tokens: u32)
    ensures
        ({
            let o = released(b, tokens);
            &&& given(o.effects) + (b.debt - o.books.debt) == tokens
            &&& o.books.debt > 0 ==> given(o.effects) == 0
            &&& o.books.out() == b.out()
        }),
{
    let owed = least(tokens as nat, b.debt as nat);
    lemma_given_one(Wanted::Release { tokens: (tokens - owed) as u32 });
    assert(given(Seq::<Wanted>::empty()) == 0);
}

/// A lease that is over gives back exactly what it held.
pub proof fn law_a_finished_lease_returns_its_tokens(b: Books, id: u64, exit_code: i32)
    requires
        b.sound(),
    ensures
        ({
            let o = finished(b, id, exit_code);
            &&& short(o.books) + given(o.effects) == short(b)
            &&& !holds(o.books.leases, id)
        }),
{
    let o = finished(b, id, exit_code);
    assert(given(Seq::<Wanted>::empty()) == 0);
    lemma_without(b.leases, id);
    if holds(b.leases, id) {
        let lease = at(b.leases, id);
        let bare = Books { leases: without(b.leases, id), ..b };
        lemma_leased_without(b.leases, id);
        law_the_debt_is_paid_first(bare, lease.cores_held);
        let r = released(bare, lease.cores_held);
        let tail: Seq<Wanted> = if lease.connected {
            seq![Wanted::Send { lease: id, event: Told::Finished { id, exit_code } }]
        } else {
            Seq::empty()
        };
        lemma_given_one(Wanted::Send { lease: id, event: Told::Finished { id, exit_code } });
        lemma_given_one(Wanted::Persist);
        lemma_given_add(r.effects, seq![Wanted::Persist]);
        lemma_given_add(r.effects + seq![Wanted::Persist], tail);
    }
}

/// A pool that a previous daemon's tasks hold more of than it has never grows past
/// its size: what they return beyond it is not put back.
pub proof fn law_a_recovered_pool_never_grows_past_its_size(
    b: Books,
    id: u64,
    exit_code: i32,
    free: nat,
    pool_size: nat,
)
    requires
        b.sound(),
        b.debt <= b.out(),
        free + short(b) == pool_size,
    ensures
        ({
            let o = finished(b, id, exit_code);
            &&& o.books.debt <= o.books.out()
            &&& free + given(o.effects) <= pool_size
            &&& free + given(o.effects) + short(o.books) == pool_size
        }),
{
    law_a_finished_lease_returns_its_tokens(b, id, exit_code);
    if holds(b.leases, id) {
        lemma_leased_without(b.leases, id);
    }
}

/// A lease that is torn down while its task runs keeps its tokens out until the
/// task is confirmed gone; none goes back into the pool.
pub proof fn law_a_task_being_torn_down_keeps_its_tokens(b: Books, id: u64, now_ms: u64)
    requires
        b.sound(),
        holds(b.leases, id),
        at(b.leases, id).pueue_task_id is Some,
        !holds(b.killing, at(b.leases, id).pueue_task_id->0 as u64),
    ensures
        ({
            let o = torn_down(b, id, now_ms);
            &&& given(o.effects) == 0
            &&& o.books.out() == b.out()
            &&& o.books.debt == b.debt
            &&& o.books.holding()
        }),
{
    let lease = at(b.leases, id);
    let task = lease.pueue_task_id->0;
    let kill = Kill {
        deadline_ms: later_by(now_ms, KILL_GRACE_MS),
        escalated: false,
        tokens: lease.cores_held,
        record: Some(record_of(id, lease, true)),
    };
    lemma_leased_without(b.leases, id);
    lemma_ending_put(b.killing, task as u64, kill);
    lemma_put(b.killing, task as u64, kill);
    lemma_given_one(Wanted::Terminate { task });
    lemma_given_one(Wanted::Persist);
    let done = Wanted::Send {
        lease: id,
        event: Told::Finished { id, exit_code: crate::leases::KILLED },
    };
    lemma_given_one(done);
    assert(given(Seq::<Wanted>::empty()) == 0);
    let head = seq![Wanted::Terminate { task }];
    lemma_given_add(head, seq![Wanted::Persist]);
    let tail: Seq<Wanted> = if lease.connected {
        seq![done]
    } else {
        Seq::empty()
    };
    lemma_given_add(head + seq![Wanted::Persist], tail);
}

proof fn lemma_torn_down(b: Books, id: u64, now_ms: u64)
    requires
        b.sound(),
        holds(b.leases, id) && at(b.leases, id).pueue_task_id is Some ==> !holds(
            b.killing,
            at(b.leases, id).pueue_task_id->0 as u64,
        ),
    ensures
        ({
            let o = torn_down(b, id, now_ms);
            short(o.books) + given(o.effects) == short(b)
        }),
{
    assert(given(Seq::<Wanted>::empty()) == 0);
    if holds(b.leases, id) {
        let lease = at(b.leases, id);
        if lease.pueue_task_id is Some {
            law_a_task_being_torn_down_keeps_its_tokens(b, id, now_ms);
        } else {
            let bare = Books {
                leases: without(b.leases, id),
                deferred: kept(b.deferred, crate::leases::Sieve::AdmitOf(id)),
                ..b
            };
            lemma_leased_without(b.leases, id);
            law_the_debt_is_paid_first(bare, lease.cores_held);
            let r = released(bare, lease.cores_held);
            let done = Wanted::Send {
                lease: id,
                event: Told::Finished { id, exit_code: crate::leases::KILLED },
            };
            let tail: Seq<Wanted> = if lease.connected {
                seq![done]
            } else {
                Seq::empty()
            };
            lemma_given_one(done);
            lemma_given_one(Wanted::Persist);
            lemma_given_add(r.effects, seq![Wanted::Persist]);
            lemma_given_add(r.effects + seq![Wanted::Persist], tail);
        }
    }
}

/// What a step asks to be put back into the pool.
pub open spec fn turn_gives(t: Turn) -> nat {
    match t {
        Turn::Do(effects) => given(effects),
        _ => 0,
    }
}

/// No task is both a lease's and being torn down.
pub open spec fn apart(b: Books) -> bool {
    forall|k: u64|
        #[trigger] holds(b.leases, k) && at(b.leases, k).pueue_task_id is Some ==> !holds(
            b.killing,
            at(b.leases, k).pueue_task_id->0 as u64,
        )
}

proof fn lemma_unused_gives_nothing(leases: Seq<(u64, Lease)>, fifos: Seq<String>)
    ensures
        given(unused(leases, fifos)) == 0,
    decreases fifos.len(),
{
    if fifos.len() > 0 {
        lemma_unused_gives_nothing(leases, fifos.drop_last());
        let e = Wanted::Unlink { path: fifos.last()@ };
        let before = unused(leases, fifos.drop_last());
        assert(before.push(e).drop_last() =~= before);
    }
}

/// Every step keeps the tokens: what goes back into the pool is what is no longer
/// out, less what was owed.
pub proof fn law_a_step_keeps_every_token(b: Books, now_ms: u64)
    requires
        b.sound(),
        apart(b),
    ensures
        short(stepped(b, now_ms).0) + turn_gives(stepped(b, now_ms).1) == short(b),
{
    assert(given(Seq::<Wanted>::empty()) == 0);
    if b.stage is Ready {
        if b.pending.len() > 0 {
            let t = Books { pending: b.pending.skip(1), ..b };
            match b.pending[0] {
                Action::Admit { id, drain_target, .. } => {},
                Action::Notify { id, ahead } => {
                    lemma_given_told(
                        t,
                        id.0,
                        Told::Queued {
                            id: id.0,
                            ahead: crate::leases::ahead_with(ahead, b.scheduler.admitted.len()),
                        },
                    );
                },
                Action::Drop(id) => {
                    lemma_torn_down(t, id.0, now_ms);
                },
            }
        } else if b.later.len() > 0 {
            let t = Books { later: b.later.skip(1), ..b };
            let w = b.later[0];
            match w {
                Work::Ended { id, how } => {
                    let code = crate::leases::ending_code(how);
                    law_a_finished_lease_returns_its_tokens(t, id, code);
                    let notice = match crate::leases::ending_notice(how) {
                        Some(text) => told(t, id, Told::Notice { text }),
                        None => Seq::empty(),
                    };
                    if let Some(text) = crate::leases::ending_notice(how) {
                        lemma_given_told(t, id, Told::Notice { text });
                    }
                    lemma_given_add(notice, finished(t, id, code).effects);
                },
                Work::Forget(id) => {
                    if holds(t.leases, id) {
                        let bare = Books { leases: without(t.leases, id), ..t };
                        let held = at(t.leases, id).cores_held;
                        lemma_leased_without(t.leases, id);
                        law_the_debt_is_paid_first(bare, held);
                        lemma_given_one(Wanted::Persist);
                        lemma_given_add(
                            released(bare, held).effects,
                            seq![Wanted::Persist],
                        );
                    }
                },
                Work::Resume => {},
                Work::ResumeAll => {},
                Work::Sweep => {
                    lemma_unused_gives_nothing(t.leases, t.old_fifos);
                },
            }
        }
    }
}

/// A drain puts what it took on the books of the lease it was for, which held
/// nothing before, and the lease goes on record before pueued is asked for its task.
pub proof fn law_a_drain_is_on_the_books(b: Books, id: u64, tokens: u32, got: u32, now_ms: u64)
    requires
        b.wf(),
        b.stage == (Stage::Draining { id, tokens }),
    ensures
        short(drained(b, got, now_ms).books) == short(b) + got,
        given(drained(b, got, now_ms).effects) == 0,
        drained(b, got, now_ms).books.stage == (Stage::Recording { id }),
        at(drained(b, got, now_ms).books.leases, id).cores_held == got,
        at(drained(b, got, now_ms).books.leases, id).submitted_at_ms == Some(now_ms),
{
    let lease = at(b.leases, id);
    lemma_put(
        b.leases,
        id,
        Lease { cores_held: got, submitted_at_ms: Some(now_ms), ..lease },
    );
    lemma_leased_put(
        b.leases,
        id,
        Lease { cores_held: got, submitted_at_ms: Some(now_ms), ..lease },
    );
    assert(given(Seq::<Wanted>::empty()) == 0);
    lemma_given_told(
        b,
        id,
        Told::Notice {
            text: "no tokens came free in time; the task starts on its implicit one"@,
        },
    );
}

proof fn lemma_failed(b: Books, id: u64, text: Seq<char>)
    requires
        (Books { stage: Stage::Ready, ..b }).sound(),
    ensures
        short(failed(b, id, text).books) + given(failed(b, id, text).effects) == short(b),
{
    let r = Books { stage: Stage::Ready, ..b };
    let t = fed_but(
        r,
        Event::DrainFailed(LeaseId(id)),
        crate::leases::Sieve::DropOf(id),
    );
    if holds(b.leases, id) {
        let lease = at(b.leases, id);
        let bare = Books { leases: without(t.leases, id), ..t };
        lemma_leased_without(b.leases, id);
        law_the_debt_is_paid_first(bare, lease.cores_held);
        let o = released(bare, lease.cores_held);
        let done = Wanted::Send { lease: id, event: Told::Finished { id, exit_code: 1 } };
        let tail: Seq<Wanted> = if lease.connected {
            seq![done]
        } else {
            Seq::empty()
        };
        assert(given(Seq::<Wanted>::empty()) == 0);
        lemma_given_one(done);
        lemma_given_one(Wanted::Persist);
        lemma_given_add(o.effects, seq![Wanted::Persist]);
        lemma_given_add(o.effects + seq![Wanted::Persist], tail);
    }
    assert(given(Seq::<Wanted>::empty()) == 0);
    lemma_given_told(t, id, Told::Notice { text });
    lemma_given_add(told(t, id, Told::Notice { text }), finished(t, id, 1).effects);
}

/// A grant that cannot be recorded is given back: its lease ends, its tokens return
/// and its task is never asked for.
pub proof fn law_an_unrecorded_grant_is_given_back(b: Books, id: u64, text: Seq<char>)
    requires
        b.sound(),
    ensures
        short(failed(b, id, text).books) + given(failed(b, id, text).effects) == short(b),
        !holds(failed(b, id, text).books.leases, id),
        failed(b, id, text).books.stage is Ready,
{
    lemma_failed(b, id, text);
    lemma_without(b.leases, id);
}

/// pueued's answer keeps the tokens: where none came they stay out with the
/// submission.
pub proof fn law_a_submission_keeps_every_token(b: Books, answer: Result<usize, String>)
    requires
        b.sound(),
    ensures
        short(submitted(b, answer).books) + given(submitted(b, answer).effects) == short(b),
{
    assert(given(Seq::<Wanted>::empty()) == 0);
    if let Stage::Submitting { id, sent_at_ns } = b.stage {
        if holds(b.leases, id) {
            let lease = at(b.leases, id);
            match answer {
                Ok(task) => {
                    lemma_leased_put(
                        b.leases,
                        id,
                        Lease { pueue_task_id: Some(task), ..lease },
                    );
                    let event = Told::Admitted {
                        id,
                        pueue_task_id: task,
                        class: crate::classify::class_name(lease.class),
                        cores: cores_told(b, id, lease),
                        pool_size: b.scheduler.params.pool_size,
                        peers: if b.scheduler.admitted.len() > 0 {
                            (b.scheduler.admitted.len() - 1) as usize
                        } else {
                            0
                        },
                    };
                    lemma_given_told(b, id, event);
                    lemma_given_one(Wanted::Persist);
                    lemma_given_add(seq![Wanted::Persist], told(b, id, event));
                },
                Err(err) => {
                    let bare = Lease { cores_held: 0, ..lease };
                    let u = Unreconciled {
                        label: lease.label,
                        since_ns: sent_at_ns,
                        tokens: lease.cores_held,
                    };
                    let t = Books {
                        leases: put(b.leases, id, bare),
                        unreconciled: b.unreconciled.push(u),
                        ..b
                    };
                    lemma_leased_put(b.leases, id, bare);
                    assert(b.unreconciled.len() == 0);
                    assert(b.unreconciled.push(u) =~= seq![u]);
                    assert(unanswered(seq![u], 1) == unanswered(seq![u], 0) + u.tokens);
                    assert(unanswered(b.unreconciled, 0) == 0);
                    lemma_put(b.leases, id, bare);
                    let ready = Books { stage: Stage::Ready, ..t };
                    assert(ready.sound()) by {
                        assert forall|k: u64| #[trigger] holds(ready.leases, k) implies k
                            < ready.next_id && crate::leases::startable(at(ready.leases, k)) by {
                            if k != id {
                                assert(holds(b.leases, k));
                            }
                        }
                    }
                    lemma_failed(t, id, "bzbd could not start the task: "@ + err@);
                },
            }
        }
    }
}

proof fn lemma_kills_settled(
    b: Books,
    kills: Seq<(u64, Kill)>,
    tasks: Seq<Task>,
    now_ms: u64,
    n: nat,
)
    requires
        n <= kills.len(),
    ensures
        ({
            let o = kills_settled(b, kills, tasks, now_ms, n);
            &&& ending(o.books.killing, o.books.killing.len()) + given(o.effects) + (b.debt
                - o.books.debt) == ending(kills, n)
            &&& o.books == (Books { killing: o.books.killing, debt: o.books.debt, ..b })
            &&& o.books.debt <= b.debt
            &&& forall|i: int|
                0 <= i < o.books.killing.len() ==> exists|j: int|
                    0 <= j < n && kills[j] == #[trigger] o.books.killing[i]
        }),
    decreases n,
{
    assert(given(Seq::<Wanted>::empty()) == 0);
    if n > 0 {
        let m = (n - 1) as nat;
        lemma_kills_settled(b, kills, tasks, now_ms, m);
        let o = kills_settled(b, kills, tasks, now_ms, m);
        let (task, kill) = kills[n - 1];
        let after = kills_settled(b, kills, tasks, now_ms, n);
        if gone(tasks, task) {
            let r = released(o.books, kill.tokens);
            law_the_debt_is_paid_first(o.books, kill.tokens);
            lemma_given_add(o.effects, r.effects);
        } else {
            let ks = o.books.killing;
            lemma_ending_prefix(ks, ks.push((task, kill)), ks.len());
            let e = Wanted::Kill { task: task as usize };
            assert(o.effects.push(e).drop_last() =~= o.effects);
        }
        assert forall|i: int| 0 <= i < after.books.killing.len() implies exists|j: int|
            0 <= j < n && kills[j] == #[trigger] after.books.killing[i] by {
            if i < o.books.killing.len() {
                assert(after.books.killing[i] == o.books.killing[i]);
                let j = choose|j: int| 0 <= j < m && kills[j] == o.books.killing[i];
                assert(kills[j] == after.books.killing[i]);
            } else {
                assert(kills[n - 1] == after.books.killing[i]);
            }
        }
    }
}

proof fn lemma_keys_kept(kills: Seq<(u64, Kill)>, rest: Seq<(u64, Kill)>, task: u64)
    requires
        ascending(kills),
        !holds(kills, task),
        forall|i: int|
            0 <= i < rest.len() ==> exists|j: int|
                0 <= j < kills.len() && kills[j] == #[trigger] rest[i],
    ensures
        !holds(rest, task),
{
    if holds(rest, task) {
        let i = rank(rest, task) as int;
        assert(rest[i].0 == task);
        let j = choose|j: int| 0 <= j < kills.len() && kills[j] == rest[i];
        lemma_rank(kills, task);
        crate::ledger::lemma_rank_unique(kills, task, j);
    }
}

/// A look at pueued's list keeps the tokens: what is gone gives them back, what was
/// started after all keeps them until it is.
pub proof fn law_a_poll_keeps_every_token(b: Books, tasks: Seq<Task>, now_ms: u64)
    requires
        b.sound(),
        b.unreconciled.len() > 0 ==> (match orphan_of(
            tasks,
            b.unreconciled[0].label@,
            b.unreconciled[0].since_ns,
            claimed(b.leases, b.leases.len()),
        ) {
            Some(task) => !holds(b.killing, task as u64),
            None => true,
        }),
    ensures
        short(polled(b, tasks, now_ms).books) + given(polled(b, tasks, now_ms).effects) == short(
            b,
        ),
{
    assert(given(Seq::<Wanted>::empty()) == 0);
    let k = kills_settled(b, b.killing, tasks, now_ms, b.killing.len());
    lemma_kills_settled(b, b.killing, tasks, now_ms, b.killing.len());
    let list = b.unreconciled;
    let s = submissions_settled(k.books, list, tasks, now_ms, list.len());
    let settled: Seq<Wanted> = if k.books.killing.len() < b.killing.len() {
        seq![Wanted::Persist]
    } else {
        Seq::empty()
    };
    lemma_given_one(Wanted::Persist);
    lemma_given_add(k.effects, settled);
    lemma_given_add(k.effects + settled, s.effects);
    assert(unanswered(list, 0) == 0);
    assert(unanswered(Seq::<Unreconciled>::empty(), 0) == 0);
    if list.len() == 0 {
        assert(s.books.unreconciled.len() == 0);
        assert(s.effects.len() == 0);
    } else {
        let u = list[0];
        assert(list.len() == 1);
        assert(unanswered(list, 1) == unanswered(list, 0) + u.tokens);
        let z = submissions_settled(k.books, list, tasks, now_ms, 0);
        assert(z.effects =~= Seq::empty());
        match orphan_of(tasks, u.label@, u.since_ns, claimed(b.leases, b.leases.len())) {
            Some(task) => {
                let kill = Kill {
                    deadline_ms: later_by(now_ms, KILL_GRACE_MS),
                    escalated: false,
                    tokens: u.tokens,
                    record: None,
                };
                lemma_keys_kept(b.killing, k.books.killing, task as u64);
                lemma_ending_put(k.books.killing, task as u64, kill);
                let e = Wanted::Terminate { task };
                assert(z.effects.push(e).drop_last() =~= z.effects);
            },
            None => {
                law_the_debt_is_paid_first(z.books, u.tokens);
                let r = released(z.books, u.tokens);
                lemma_given_add(z.effects, r.effects);
            },
        }
    }
}

proof fn lemma_kills_given_up(b: Books, kills: Seq<(u64, Kill)>, n: nat)
    requires
        n <= kills.len(),
    ensures
        ({
            let o = kills_given_up(b, kills, n);
            &&& given(o.effects) + (b.debt - o.books.debt) == ending(kills, n)
            &&& o.books == (Books { killing: Seq::empty(), debt: o.books.debt, ..b })
        }),
    decreases n,
{
    assert(given(Seq::<Wanted>::empty()) == 0);
    if n > 0 {
        let m = (n - 1) as nat;
        lemma_kills_given_up(b, kills, m);
        let o = kills_given_up(b, kills, m);
        law_the_debt_is_paid_first(o.books, kills[n - 1].1.tokens);
        lemma_given_add(o.effects, released(o.books, kills[n - 1].1.tokens).effects);
    }
}

proof fn lemma_submissions_given_up(b: Books, list: Seq<Unreconciled>, n: nat)
    requires
        n <= list.len(),
    ensures
        ({
            let o = submissions_given_up(b, list, n);
            &&& given(o.effects) + (b.debt - o.books.debt) == unanswered(list, n)
            &&& o.books == (Books { unreconciled: Seq::empty(), debt: o.books.debt, ..b })
        }),
    decreases n,
{
    assert(given(Seq::<Wanted>::empty()) == 0);
    if n > 0 {
        let m = (n - 1) as nat;
        lemma_submissions_given_up(b, list, m);
        let o = submissions_given_up(b, list, m);
        law_the_debt_is_paid_first(o.books, list[n - 1].tokens);
        lemma_given_add(o.effects, released(o.books, list[n - 1].tokens).effects);
    }
}

/// Losing pueued returns the tokens of every teardown and of every unanswered
/// submission, and holds nothing back any more.
pub proof fn law_losing_pueued_gives_up_what_was_asked_of_it(b: Books, err: String)
    ensures
        ({
            let o = lost(b, err);
            &&& short(o.books) + given(o.effects) == short(b)
            &&& !o.books.holding()
            &&& o.books.out() == leased(b.leases, b.leases.len())
        }),
{
    let k = kills_given_up(b, b.killing, b.killing.len());
    lemma_kills_given_up(b, b.killing, b.killing.len());
    let s = submissions_given_up(k.books, b.unreconciled, b.unreconciled.len());
    lemma_submissions_given_up(k.books, b.unreconciled, b.unreconciled.len());
    let tail: Seq<Wanted> = if b.holding() {
        seq![Wanted::Persist]
    } else {
        Seq::empty()
    };
    assert(given(Seq::<Wanted>::empty()) == 0);
    lemma_given_one(Wanted::Persist);
    lemma_given_add(k.effects, s.effects);
    lemma_given_add(k.effects + s.effects, tail);
    assert(ending(Seq::<(u64, Kill)>::empty(), 0) == 0);
    assert(unanswered(Seq::<Unreconciled>::empty(), 0) == 0);
}

/// A pool of another size takes nothing from the leases: one that grew gets the
/// difference, less what was owed; one that shrank owes it.
pub proof fn law_a_resized_pool_leaves_the_leases_alone(b: Books, params: Params)
    requires
        b.debt + b.scheduler.params.pool_size <= u32::MAX,
    ensures
        ({
            let o = resized(b, params);
            &&& o.books.leases == b.leases
            &&& o.books.out() == b.out()
            &&& given(o.effects) + (b.debt - o.books.debt) == params.pool_size
                - b.scheduler.params.pool_size
        }),
{
    let before = b.scheduler.params.pool_size;
    let s = crate::scheduler::State { params, ..b.scheduler };
    let t = Books {
        scheduler: crate::scheduler::settled(s),
        pending: b.pending + crate::scheduler::settling(s),
        ..b
    };
    if params.pool_size >= before {
        law_the_debt_is_paid_first(t, (params.pool_size - before) as u32);
    } else {
        lemma_given_one(Wanted::Withdraw { tokens: (before - params.pool_size) as u32 });
    }
}

/// Nothing is started while a task that nobody accounts for may be on the
/// machine: an admission is held back.
pub proof fn law_nothing_starts_beside_an_unaccounted_task(b: Books, now_ms: u64)
    requires
        b.holding(),
    ensures
        !(stepped(b, now_ms).1 is Drain),
        stepped(b, now_ms).0.stage == b.stage,
{
}

/// An admission that is held back is not lost: it waits with the others, in order.
pub proof fn law_an_admission_held_back_waits(b: Books, now_ms: u64)
    requires
        b.holding(),
        b.stage is Ready,
        b.pending.len() > 0,
        b.pending[0] is Admit,
    ensures
        stepped(b, now_ms).0.deferred == b.deferred.push(b.pending[0]),
{
}

/// Nobody is told about a lease that has no connection.
pub proof fn law_an_orphan_has_nobody_to_tell(b: Books, id: u64, event: Told)
    requires
        !holds(b.leases, id) || !at(b.leases, id).connected,
    ensures
        told(b, id, event) == Seq::<Wanted>::empty(),
{
}

/// A lease that is cancelled is off the books once the work that this leaves is
/// done.
pub proof fn law_a_cancelled_lease_leaves_the_books(b: Books, id: u64)
    requires
        b.sound(),
        holds(b.leases, id),
    ensures
        ended(b, id).later.last() == Work::Forget(id),
        !holds(worked(ended(b, id), Work::Forget(id)).books.leases, id),
{
    lemma_without(b.leases, id);
    let t = ended(b, id);
    assert(t.leases == b.leases);
}

proof fn lemma_adopted_out(b: Books, records: Seq<Record>, n: nat)
    requires
        n <= records.len(),
        ascending(b.leases),
        b.leases.len() == 0,
        forall|i: int, j: int|
            0 <= i < j < records.len() ==> (#[trigger] records[i]).id != (
            #[trigger] records[j]).id,
    ensures
        ({
            let t = adopted(b, records, n);
            &&& ascending(t.leases)
            &&& leased(t.leases, t.leases.len()) == recorded(records, n)
            &&& t.killing == b.killing
            &&& t.unreconciled == b.unreconciled
            &&& t.debt == b.debt
            &&& forall|k: u64| #[trigger]
                holds(t.leases, k) ==> exists|i: int| 0 <= i < n && (#[trigger] records[i]).id == k
        }),
    decreases n,
{
    if n > 0 {
        let m = (n - 1) as nat;
        lemma_adopted_out(b, records, m);
        let t = adopted(b, records, m);
        let r = records[n - 1];
        if holds(t.leases, r.id) {
            let i = choose|i: int| 0 <= i < m && (#[trigger] records[i]).id == r.id;
            assert(records[i].id != records[n - 1].id);
        }
        lemma_put(t.leases, r.id, taken_back(r));
        lemma_leased_put(t.leases, r.id, taken_back(r));
        let after = adopted(b, records, n);
        assert forall|k: u64| #[trigger] holds(after.leases, k) implies exists|i: int|
            0 <= i < n && (#[trigger] records[i]).id == k by {
            if k == r.id {
                assert(records[n - 1].id == k);
            } else {
                assert(holds(t.leases, k));
                let i = choose|i: int| 0 <= i < m && (#[trigger] records[i]).id == k;
                assert(records[i].id == k);
            }
        }
    }
}

proof fn lemma_resumed_out(b: Books, records: Seq<Record>, now_ms: u64, n: nat)
    requires
        n <= records.len(),
        ascending(b.killing),
        b.killing.len() == 0,
        forall|i: int|
            0 <= i < records.len() ==> (#[trigger] records[i]).pueue_task_id is Some,
        forall|i: int, j: int|
            0 <= i < j < records.len() ==> (#[trigger] records[i]).pueue_task_id != (
            #[trigger] records[j]).pueue_task_id,
    ensures
        ({
            let t = resumed(b, records, now_ms, n);
            &&& ascending(t.killing)
            &&& ending(t.killing, t.killing.len()) == recorded(records, n)
            &&& t.leases == b.leases
            &&& t.unreconciled == b.unreconciled
            &&& t.debt == b.debt
            &&& forall|k: u64| #[trigger]
                holds(t.killing, k) ==> exists|i: int|
                    0 <= i < n && (#[trigger] records[i]).pueue_task_id->0 == k
        }),
    decreases n,
{
    if n > 0 {
        let m = (n - 1) as nat;
        lemma_resumed_out(b, records, now_ms, m);
        let t = resumed(b, records, now_ms, m);
        let r = records[n - 1];
        assert(r.pueue_task_id is Some);
        let task = r.pueue_task_id->0 as u64;
        let kill = Kill {
            deadline_ms: later_by(now_ms, KILL_GRACE_MS),
            escalated: false,
            tokens: r.cores_held,
            record: Some(r),
        };
        if holds(t.killing, task) {
            let i = choose|i: int|
                0 <= i < m && (#[trigger] records[i]).pueue_task_id->0 == task;
            assert(records[i].pueue_task_id != records[n - 1].pueue_task_id);
            assert(records[i].pueue_task_id is Some);
        }
        lemma_put(t.killing, task, kill);
        lemma_ending_put(t.killing, task, kill);
        let after = resumed(b, records, now_ms, n);
        assert forall|k: u64| #[trigger] holds(after.killing, k) implies exists|i: int|
            0 <= i < n && (#[trigger] records[i]).pueue_task_id->0 == k by {
            if k == task {
                assert(records[n - 1].pueue_task_id->0 == k);
            } else {
                assert(holds(t.killing, k));
                let i = choose|i: int|
                    0 <= i < m && (#[trigger] records[i]).pueue_task_id->0 == k;
                assert(records[i].pueue_task_id->0 == k);
            }
        }
    }
}

/// A restart keeps the tokens: what is out at the start is what the records of the
/// previous daemon hold, each of them counted once.
pub proof fn law_a_restart_keeps_every_token(
    params: Params,
    settings: Settings,
    debt: u32,
    adopt: Seq<Record>,
    resume: Seq<Record>,
    now_ms: u64,
)
    requires
        forall|i: int, j: int|
            0 <= i < j < adopt.len() ==> (#[trigger] adopt[i]).id != (#[trigger] adopt[j]).id,
        forall|i: int| 0 <= i < resume.len() ==> (#[trigger] resume[i]).pueue_task_id is Some,
        forall|i: int, j: int|
            0 <= i < j < resume.len() ==> (#[trigger] resume[i]).pueue_task_id != (
            #[trigger] resume[j]).pueue_task_id,
    ensures
        ({
            let b = adopted(
                resumed(fresh(params, settings, debt), resume, now_ms, resume.len()),
                adopt,
                adopt.len(),
            );
            &&& b.out() == recorded(adopt, adopt.len()) + recorded(resume, resume.len())
            &&& b.debt == debt
        }),
{
    let start = fresh(params, settings, debt);
    lemma_resumed_out(start, resume, now_ms, resume.len());
    let mid = resumed(start, resume, now_ms, resume.len());
    lemma_adopted_out(mid, adopt, adopt.len());
    assert(unanswered(Seq::<Unreconciled>::empty(), 0) == 0);
}

/// Whether every teardown of a lease is on record with the tokens it holds.
pub open spec fn on_record(kills: Seq<(u64, Kill)>) -> bool {
    forall|i: int|
        0 <= i < kills.len() ==> match (#[trigger] kills[i]).1.record {
            Some(record) => record.cores_held == kills[i].1.tokens,
            None => true,
        }
}

proof fn lemma_on_record_put(kills: Seq<(u64, Kill)>, task: u64, kill: Kill)
    requires
        on_record(kills),
        kill.record is Some ==> kill.record->0.cores_held == kill.tokens,
    ensures
        on_record(put(kills, task, kill)),
{
    let t = put(kills, task, kill);
    let p = rank(kills, task) as int;
    lemma_rank(kills, task);
    assert forall|i: int| 0 <= i < t.len() implies match (#[trigger] t[i]).1.record {
        Some(record) => record.cores_held == t[i].1.tokens,
        None => true,
    } by {
        if i == p {
        } else if holds(kills, task) || i < p {
            assert(t[i] == kills[i]);
        } else {
            assert(t[i] == kills[i - 1]);
        }
    }
}

proof fn lemma_on_record_settled(
    b: Books,
    kills: Seq<(u64, Kill)>,
    tasks: Seq<Task>,
    now_ms: u64,
    n: nat,
)
    requires
        on_record(kills),
        n <= kills.len(),
    ensures
        on_record(kills_settled(b, kills, tasks, now_ms, n).books.killing),
    decreases n,
{
    if n > 0 {
        lemma_on_record_settled(b, kills, tasks, now_ms, (n - 1) as nat);
        let before = kills_settled(b, kills, tasks, now_ms, (n - 1) as nat).books.killing;
        let last = kills[n - 1];
        assert(on_record(before.push(last))) by {
            let t = before.push(last);
            assert forall|i: int| 0 <= i < t.len() implies match (#[trigger] t[i]).1.record {
                Some(record) => record.cores_held == t[i].1.tokens,
                None => true,
            } by {
                if i < before.len() {
                    assert(t[i] == before[i]);
                }
            }
        }
    }
}

proof fn lemma_on_record_submissions(
    b: Books,
    list: Seq<Unreconciled>,
    tasks: Seq<Task>,
    now_ms: u64,
    n: nat,
)
    requires
        on_record(b.killing),
    ensures
        on_record(submissions_settled(b, list, tasks, now_ms, n).books.killing),
    decreases n,
{
    if n > 0 {
        lemma_on_record_submissions(b, list, tasks, now_ms, (n - 1) as nat);
        let before = submissions_settled(b, list, tasks, now_ms, (n - 1) as nat).books;
        let u = list[n - 1];
        if let Some(task) = orphan_of(
            tasks,
            u.label@,
            u.since_ns,
            claimed(b.leases, b.leases.len()),
        ) {
            lemma_on_record_put(
                before.killing,
                task as u64,
                Kill {
                    deadline_ms: later_by(now_ms, KILL_GRACE_MS),
                    escalated: false,
                    tokens: u.tokens,
                    record: None,
                },
            );
        }
    }
}

/// A teardown is on record, tokens and all, until it is over: no step, no look at
/// pueued's list and no answer of pueued changes that.
pub proof fn law_teardowns_stay_on_record(
    b: Books,
    tasks: Seq<Task>,
    answer: Result<usize, String>,
    got: u32,
    err: String,
    now_ms: u64,
)
    requires
        on_record(b.killing),
    ensures
        on_record(stepped(b, now_ms).0.killing),
        on_record(polled(b, tasks, now_ms).books.killing),
        on_record(drained(b, got, now_ms).books.killing),
        on_record(submitted(b, answer).books.killing),
        on_record(lost(b, err).books.killing),
{
    if b.stage is Ready && b.pending.len() > 0 {
        if let Action::Drop(id) = b.pending[0] {
            if holds(b.leases, id.0) && at(b.leases, id.0).pueue_task_id is Some {
                let lease = at(b.leases, id.0);
                lemma_on_record_put(
                    b.killing,
                    lease.pueue_task_id->0 as u64,
                    Kill {
                        deadline_ms: later_by(now_ms, KILL_GRACE_MS),
                        escalated: false,
                        tokens: lease.cores_held,
                        record: Some(record_of(id.0, lease, true)),
                    },
                );
            }
        }
    }
    lemma_on_record_settled(b, b.killing, tasks, now_ms, b.killing.len());
    lemma_on_record_submissions(
        kills_settled(b, b.killing, tasks, now_ms, b.killing.len()).books,
        b.unreconciled,
        tasks,
        now_ms,
        b.unreconciled.len(),
    );
    law_losing_pueued_gives_up_what_was_asked_of_it(b, err);
}

/// A restarted daemon has the teardowns it took over on record.
pub proof fn law_a_restart_has_its_teardowns_on_record(
    params: Params,
    settings: Settings,
    debt: u32,
    adopt: Seq<Record>,
    resume: Seq<Record>,
    now_ms: u64,
    n: nat,
    m: nat,
)
    requires
        n <= resume.len(),
        m <= adopt.len(),
    ensures
        on_record(
            adopted(resumed(fresh(params, settings, debt), resume, now_ms, n), adopt, m).killing,
        ),
    decreases n + m,
{
    if m > 0 {
        law_a_restart_has_its_teardowns_on_record(
            params,
            settings,
            debt,
            adopt,
            resume,
            now_ms,
            n,
            (m - 1) as nat,
        );
    } else if n > 0 {
        law_a_restart_has_its_teardowns_on_record(
            params,
            settings,
            debt,
            adopt,
            resume,
            now_ms,
            (n - 1) as nat,
            0,
        );
        let r = resume[n - 1];
        if let Some(task) = r.pueue_task_id {
            lemma_on_record_put(
                resumed(fresh(params, settings, debt), resume, now_ms, (n - 1) as nat).killing,
                task as u64,
                Kill {
                    deadline_ms: later_by(now_ms, KILL_GRACE_MS),
                    escalated: false,
                    tokens: r.cores_held,
                    record: Some(r),
                },
            );
        }
    }
}

/// Tokens that records hold.
pub open spec fn noted_tokens(records: Seq<RecordView>) -> nat
    decreases records.len(),
{
    if records.len() == 0 {
        0
    } else {
        noted_tokens(records.drop_last()) + records.last().cores_held as nat
    }
}

/// Tokens of those among the first `n` teardowns that end a task no lease was
/// recorded for: one that an unanswered submission had started after all.
pub open spec fn unrecorded(kills: Seq<(u64, Kill)>, n: nat) -> nat
    decreases n,
{
    if n == 0 {
        0
    } else {
        unrecorded(kills, (n - 1) as nat) + match kills[n - 1].1.record {
            Some(_) => 0,
            None => kills[n - 1].1.tokens as nat,
        }
    }
}

proof fn lemma_noted_add(a: Seq<RecordView>, b: Seq<RecordView>)
    ensures
        noted_tokens(a + b) == noted_tokens(a) + noted_tokens(b),
    decreases b.len(),
{
    if b.len() == 0 {
        assert(a + b =~= a);
    } else {
        assert((a + b).drop_last() =~= a + b.drop_last());
        lemma_noted_add(a, b.drop_last());
    }
}

proof fn lemma_noted_leases(leases: Seq<(u64, Lease)>, n: nat)
    requires
        n <= leases.len(),
    ensures
        noted_tokens(lease_records(leases, n)) == leased(leases, n),
    decreases n,
{
    if n > 0 {
        lemma_noted_leases(leases, (n - 1) as nat);
        assert(lease_records(leases, n).drop_last() =~= lease_records(leases, (n - 1) as nat));
    }
}

proof fn lemma_noted_kills(kills: Seq<(u64, Kill)>, n: nat)
    requires
        on_record(kills),
        n <= kills.len(),
    ensures
        noted_tokens(kill_records(kills, n)) + unrecorded(kills, n) == ending(kills, n),
    decreases n,
{
    if n > 0 {
        lemma_noted_kills(kills, (n - 1) as nat);
        assert(kills[n - 1].1.record is Some ==> kill_records(kills, n).drop_last()
            =~= kill_records(kills, (n - 1) as nat));
    }
}

/// What is out is on record, so that a restarted daemon finds it: all of it but the
/// tokens of submissions that pueued never answered.
pub proof fn law_what_is_out_is_on_record(b: Books)
    requires
        on_record(b.killing),
    ensures
        noted_tokens(
            lease_records(b.leases, b.leases.len()) + kill_records(b.killing, b.killing.len()),
        ) + unrecorded(b.killing, b.killing.len()) + unanswered(
            b.unreconciled,
            b.unreconciled.len(),
        ) == b.out(),
{
    lemma_noted_leases(b.leases, b.leases.len());
    lemma_noted_kills(b.killing, b.killing.len());
    lemma_noted_add(
        lease_records(b.leases, b.leases.len()),
        kill_records(b.killing, b.killing.len()),
    );
}

proof fn lemma_notices_give_nothing(b: Books, id: u64, lines: Seq<Seq<char>>, n: nat)
    ensures
        given(plan_notices(b, id, lines, n)) == 0,
    decreases n,
{
    assert(given(Seq::<Wanted>::empty()) == 0);
    if n > 0 {
        lemma_notices_give_nothing(b, id, lines, (n - 1) as nat);
        let line = Told::Notice { text: lines[n - 1] };
        lemma_given_told(b, id, line);
        lemma_given_add(plan_notices(b, id, lines, (n - 1) as nat), told(b, id, line));
    }
}

/// A lease that enters the books moves no token.
pub proof fn law_a_new_lease_moves_no_token(b: Books, id: u64, lease: Lease)
    requires
        b.sound(),
        !holds(b.leases, id),
        lease.cores_held == 0,
    ensures
        short(Books { leases: put(b.leases, id, lease), ..b }) == short(b),
{
    lemma_leased_put(b.leases, id, lease);
}

/// Queueing a lease and asking for its end move no token: what an end gives back comes
/// with the work that it leaves.
pub proof fn law_a_request_moves_no_token(b: Books, id: u64)
    ensures
        short(announced(b, id).books) == short(b),
        given(announced(b, id).effects) == 0,
        short(ended(b, id)) == short(b),
{
    assert(given(Seq::<Wanted>::empty()) == 0);
    if holds(b.leases, id) && at(b.leases, id).start is Some {
        let lines = at(b.leases, id).start->0.plan@.notices;
        let place = Told::Queued { id, ahead: (b.leases.len() - 1) as usize };
        lemma_notices_give_nothing(b, id, lines, lines.len());
        lemma_given_told(b, id, place);
        lemma_given_add(plan_notices(b, id, lines, lines.len()), told(b, id, place));
    }
}

/// Whether the tokens in the pipe and those that the books account for make up the
/// pool.
pub open spec fn adds_up(b: Books, free: int) -> bool {
    free + short(b) == b.scheduler.params.pool_size
}

proof fn lemma_settled_scheduler(
    b: Books,
    kills: Seq<(u64, Kill)>,
    list: Seq<Unreconciled>,
    tasks: Seq<Task>,
    now_ms: u64,
    n: nat,
)
    ensures
        kills_settled(b, kills, tasks, now_ms, n).books.scheduler == b.scheduler,
        submissions_settled(b, list, tasks, now_ms, n).books.scheduler == b.scheduler,
        kills_given_up(b, kills, n).books.scheduler == b.scheduler,
        submissions_given_up(b, list, n).books.scheduler == b.scheduler,
    decreases n,
{
    if n > 0 {
        lemma_settled_scheduler(b, kills, list, tasks, now_ms, (n - 1) as nat);
    }
}

/// The pool keeps adding up to its size, as long as pueued gives no two tasks the
/// same id: a drain puts on the books what it takes out, and a step, a failure to put
/// that on record, pueued's answer, a look at its list and its loss each put back exactly
/// what they take off the books.
pub proof fn law_the_pool_keeps_adding_up(
    b: Books,
    free: int,
    got: u32,
    tasks: Seq<Task>,
    answer: Result<usize, String>,
    err: String,
    now_ms: u64,
)
    requires
        b.wf(),
        apart(b),
        b.unreconciled.len() > 0 ==> (match orphan_of(
            tasks,
            b.unreconciled[0].label@,
            b.unreconciled[0].since_ns,
            claimed(b.leases, b.leases.len()),
        ) {
            Some(task) => !holds(b.killing, task as u64),
            None => true,
        }),
        adds_up(b, free),
    ensures
        adds_up(stepped(b, now_ms).0, free + turn_gives(stepped(b, now_ms).1)),
        b.stage is Draining ==> adds_up(
            drained(b, got, now_ms).books,
            free - got + given(drained(b, got, now_ms).effects),
        ),
        b.stage matches Stage::Recording { id } ==> adds_up(
            failed(b, id, err@).books,
            free + given(failed(b, id, err@).effects),
        ),
        adds_up(submitted(b, answer).books, free + given(submitted(b, answer).effects)),
        adds_up(polled(b, tasks, now_ms).books, free + given(polled(b, tasks, now_ms).effects)),
        adds_up(lost(b, err).books, free + given(lost(b, err).effects)),
{
    if let Stage::Draining { id, tokens } = b.stage {
        law_a_drain_is_on_the_books(b, id, tokens, got, now_ms);
    }
    if let Stage::Recording { id } = b.stage {
        lemma_failed(b, id, err@);
        law_events_keep_the_parameters(b.scheduler, Event::DrainFailed(LeaseId(id)));
    }
    law_a_step_keeps_every_token(b, now_ms);
    law_a_submission_keeps_every_token(b, answer);
    law_a_poll_keeps_every_token(b, tasks, now_ms);
    law_losing_pueued_gives_up_what_was_asked_of_it(b, err);
    if b.stage is Ready {
        if b.pending.len() > 0 {
            if let Action::Admit { id, .. } = b.pending[0] {
                law_events_keep_the_parameters(b.scheduler, Event::DrainFailed(id));
            }
        } else if b.later.len() > 0 {
            if let Work::Ended { id, .. } = b.later[0] {
                law_events_keep_the_parameters(b.scheduler, Event::Finished(LeaseId(id)));
            }
        }
    }
    if let Stage::Submitting { id, .. } = b.stage {
        if holds(b.leases, id) {
            let lease = at(b.leases, id);
            law_events_keep_the_parameters(
                b.scheduler,
                Event::Started { id: LeaseId(id), cores_held: lease.cores_held },
            );
            law_events_keep_the_parameters(b.scheduler, Event::DrainFailed(LeaseId(id)));
        }
    }
    lemma_settled_scheduler(b, b.killing, b.unreconciled, tasks, now_ms, b.killing.len());
    lemma_settled_scheduler(
        kills_settled(b, b.killing, tasks, now_ms, b.killing.len()).books,
        b.killing,
        b.unreconciled,
        tasks,
        now_ms,
        b.unreconciled.len(),
    );
    lemma_settled_scheduler(
        kills_given_up(b, b.killing, b.killing.len()).books,
        b.killing,
        b.unreconciled,
        tasks,
        now_ms,
        b.unreconciled.len(),
    );
}

/// Whether every task is one lease's alone, or is being torn down and no lease's.
pub open spec fn own_tasks(b: Books) -> bool {
    &&& apart(b)
    &&& forall|j: u64, k: u64|
        j != k && #[trigger] holds(b.leases, j) && #[trigger] holds(b.leases, k) && at(
            b.leases,
            j,
        ).pueue_task_id is Some ==> at(b.leases, j).pueue_task_id != at(b.leases, k).pueue_task_id
}

/// Fewer leases with the tasks they had leave the tasks apart.
proof fn lemma_own_kept(b: Books, after: Books)
    requires
        own_tasks(b),
        after.killing == b.killing,
        forall|k: u64| #[trigger]
            holds(after.leases, k) ==> holds(b.leases, k) && at(after.leases, k).pueue_task_id
                == at(b.leases, k).pueue_task_id,
    ensures
        own_tasks(after),
{
    assert forall|j: u64, k: u64|
        j != k && #[trigger] holds(after.leases, j) && #[trigger] holds(after.leases, k) && at(
            after.leases,
            j,
        ).pueue_task_id is Some implies at(after.leases, j).pueue_task_id != at(
        after.leases,
        k,
    ).pueue_task_id by {
        assert(holds(b.leases, j) && holds(b.leases, k));
    }
    assert forall|k: u64|
        #[trigger] holds(after.leases, k) && at(
            after.leases,
            k,
        ).pueue_task_id is Some implies !holds(
        after.killing,
        at(after.leases, k).pueue_task_id->0 as u64,
    ) by {
        assert(holds(b.leases, k));
    }
}

proof fn lemma_own_put(b: Books, id: u64, v: Lease)
    requires
        b.sound(),
        own_tasks(b),
        holds(b.leases, id),
        v.pueue_task_id == at(b.leases, id).pueue_task_id,
    ensures
        own_tasks(Books { leases: put(b.leases, id, v), ..b }),
{
    let after = Books { leases: put(b.leases, id, v), ..b };
    lemma_put(b.leases, id, v);
    assert forall|k: u64| #[trigger] holds(after.leases, k) implies holds(b.leases, k) && at(
        after.leases,
        k,
    ).pueue_task_id == at(b.leases, k).pueue_task_id by {
        assert(k != id ==> (holds(b.leases, k) <==> holds(after.leases, k)));
    }
    lemma_own_kept(b, after);
}

proof fn lemma_own_started(b: Books, id: u64, task: usize)
    requires
        b.sound(),
        own_tasks(b),
        holds(b.leases, id),
        !holds(b.killing, task as u64),
        forall|k: u64|
            #[trigger] holds(b.leases, k) ==> at(b.leases, k).pueue_task_id != Some(task),
    ensures
        own_tasks(
            Books {
                leases: put(
                    b.leases,
                    id,
                    Lease { pueue_task_id: Some(task), ..at(b.leases, id) },
                ),
                ..b
            },
        ),
{
    let v = Lease { pueue_task_id: Some(task), ..at(b.leases, id) };
    let after = put(b.leases, id, v);
    lemma_put(b.leases, id, v);
    assert forall|k: u64| #[trigger] holds(after, k) && k != id implies holds(b.leases, k) && at(
        after,
        k,
    ) == at(b.leases, k) by {
        assert(holds(b.leases, k) <==> holds(after, k));
    }
}

proof fn lemma_settled_ascending(
    b: Books,
    kills: Seq<(u64, Kill)>,
    tasks: Seq<Task>,
    now_ms: u64,
    n: nat,
)
    requires
        ascending(kills),
        n <= kills.len(),
    ensures
        ascending(kills_settled(b, kills, tasks, now_ms, n).books.killing),
        forall|i: int|
            0 <= i < kills_settled(b, kills, tasks, now_ms, n).books.killing.len() && n
                < kills.len() ==> (#[trigger] kills_settled(
                b,
                kills,
                tasks,
                now_ms,
                n,
            ).books.killing[i]).0 < kills[n as int].0,
    decreases n,
{
    if n > 0 {
        let m = (n - 1) as nat;
        lemma_settled_ascending(b, kills, tasks, now_ms, m);
        let before = kills_settled(b, kills, tasks, now_ms, m).books.killing;
        let after = kills_settled(b, kills, tasks, now_ms, n).books.killing;
        if after.len() > before.len() {
            lemma_put_last(before, kills[n - 1].0, after.last().1);
            assert(after =~= before.push((kills[n - 1].0, after.last().1)));
        }
        if n < kills.len() {
            assert(kills[n - 1].0 < kills[n as int].0);
        }
    }
}

proof fn lemma_own_without(b: Books, id: u64)
    requires
        ascending(b.leases),
        own_tasks(b),
    ensures
        own_tasks(Books { leases: without(b.leases, id), ..b }),
{
    let after = Books { leases: without(b.leases, id), ..b };
    lemma_without(b.leases, id);
    assert forall|k: u64| #[trigger] holds(after.leases, k) implies holds(b.leases, k) && at(
        after.leases,
        k,
    ).pueue_task_id == at(b.leases, k).pueue_task_id by {
        assert(k != id);
        assert(holds(b.leases, k) <==> holds(after.leases, k));
    }
    lemma_own_kept(b, after);
}

proof fn lemma_own_torn_down(b: Books, id: u64, now_ms: u64)
    requires
        b.sound(),
        own_tasks(b),
    ensures
        own_tasks(torn_down(b, id, now_ms).books),
{
    lemma_own_without(b, id);
    lemma_without(b.leases, id);
    if holds(b.leases, id) {
        let lease = at(b.leases, id);
        if let Some(task) = lease.pueue_task_id {
            lemma_put(
                b.killing,
                task as u64,
                Kill {
                    deadline_ms: later_by(now_ms, KILL_GRACE_MS),
                    escalated: false,
                    tokens: lease.cores_held,
                    record: Some(record_of(id, lease, true)),
                },
            );
            let t = torn_down(b, id, now_ms).books;
            assert forall|k: u64|
                #[trigger] holds(t.leases, k) && at(
                    t.leases,
                    k,
                ).pueue_task_id is Some implies !holds(
                t.killing,
                at(t.leases, k).pueue_task_id->0 as u64,
            ) by {
                assert(k != id);
                assert(holds(b.leases, k));
                assert(at(b.leases, k) == at(t.leases, k));
                assert(at(b.leases, id).pueue_task_id != at(b.leases, k).pueue_task_id);
                assert(!holds(b.killing, at(b.leases, k).pueue_task_id->0 as u64));
            }
        }
    }
}

proof fn lemma_claimed(leases: Seq<(u64, Lease)>, i: int, n: nat)
    requires
        0 <= i < n <= leases.len(),
        leases[i].1.pueue_task_id is Some,
    ensures
        claimed(leases, n).contains(leases[i].1.pueue_task_id->0),
    decreases n,
{
    let before = claimed(leases, (n - 1) as nat);
    let all = claimed(leases, n);
    if i == n - 1 {
        assert(all[before.len() as int] == leases[i].1.pueue_task_id->0);
    } else {
        lemma_claimed(leases, i, (n - 1) as nat);
        let at = choose|at: int|
            0 <= at < before.len() && before[at] == leases[i].1.pueue_task_id->0;
        assert(all[at] == before[at]);
    }
}

/// Tasks stay apart, step by step: as long as pueued gives no task the id of one that
/// is on the books, every task is one lease's alone or being torn down.
pub proof fn law_tasks_stay_apart(
    b: Books,
    tasks: Seq<Task>,
    answer: Result<usize, String>,
    got: u32,
    err: String,
    now_ms: u64,
)
    requires
        b.sound(),
        own_tasks(b),
        answer matches Ok(task) ==> !holds(b.killing, task as u64) && forall|k: u64|
            #[trigger] holds(b.leases, k) ==> at(b.leases, k).pueue_task_id != Some(task),
    ensures
        own_tasks(stepped(b, now_ms).0),
        own_tasks(drained(b, got, now_ms).books),
        own_tasks(submitted(b, answer).books),
        own_tasks(polled(b, tasks, now_ms).books),
        own_tasks(lost(b, err).books),
{
    if b.stage is Ready {
        if b.pending.len() > 0 {
            if let Action::Drop(id) = b.pending[0] {
                lemma_own_torn_down(Books { pending: b.pending.skip(1), ..b }, id.0, now_ms);
            }
        } else if b.later.len() > 0 {
            match b.later[0] {
                Work::Ended { id, .. } => {
                    lemma_own_without(b, id);
                },
                Work::Forget(id) => {
                    lemma_own_without(b, id);
                },
                _ => {},
            }
        }
    }
    if let Stage::Draining { id, .. } = b.stage {
        if holds(b.leases, id) {
            let lease = at(b.leases, id);
            lemma_own_put(
                b,
                id,
                Lease { cores_held: got, submitted_at_ms: Some(now_ms), ..lease },
            );
        }
    }
    if let Stage::Submitting { id, .. } = b.stage {
        if holds(b.leases, id) {
            let lease = at(b.leases, id);
            match answer {
                Ok(task) => {
                    lemma_own_started(b, id, task);
                },
                Err(_) => {
                    let v = Lease { cores_held: 0, ..lease };
                    lemma_own_put(b, id, v);
                    lemma_put(b.leases, id, v);
                    lemma_own_without(Books { leases: put(b.leases, id, v), ..b }, id);
                },
            }
        }
    }
    lemma_own_polled(b, tasks, now_ms);
    lemma_own_lost(b, err);
}

/// Tasks start apart: on empty books there are none, and a lease enters without one.
pub proof fn law_tasks_start_apart(
    params: Params,
    settings: Settings,
    debt: u32,
    b: Books,
    id: u64,
    lease: Lease,
)
    requires
        b.sound(),
        own_tasks(b),
        !holds(b.leases, id),
        lease.pueue_task_id is None,
    ensures
        own_tasks(fresh(params, settings, debt)),
        own_tasks(Books { leases: put(b.leases, id, lease), ..b }),
{
    let none = fresh(params, settings, debt);
    assert forall|k: u64| !#[trigger] holds(none.leases, k) by {}
    let after = put(b.leases, id, lease);
    lemma_put(b.leases, id, lease);
    assert forall|k: u64| #[trigger] holds(after, k) && k != id implies holds(b.leases, k) && at(
        after,
        k,
    ) == at(b.leases, k) by {
        assert(holds(b.leases, k) <==> holds(after, k));
    }
}

proof fn lemma_own_polled(b: Books, tasks: Seq<Task>, now_ms: u64)
    requires
        b.sound(),
        own_tasks(b),
    ensures
        own_tasks(polled(b, tasks, now_ms).books),
{
    let kills = b.killing;
    let k = kills_settled(b, kills, tasks, now_ms, kills.len());
    lemma_kills_settled(b, kills, tasks, now_ms, kills.len());
    lemma_settled_ascending(b, kills, tasks, now_ms, kills.len());
    assert forall|o: u64| !#[trigger] holds(kills, o) implies !holds(k.books.killing, o) by {
        lemma_keys_kept(kills, k.books.killing, o);
    }
    let list = b.unreconciled;
    let s = submissions_settled(k.books, list, tasks, now_ms, list.len());
    if list.len() > 0 {
        let u = list[0];
        assert(list.len() == 1);
        let z = submissions_settled(k.books, list, tasks, now_ms, 0);
        assert(z.books.killing == k.books.killing);
        let taken = claimed(b.leases, b.leases.len());
        if let Some(task) = orphan_of(tasks, u.label@, u.since_ns, taken) {
            lemma_orphan_alive(tasks, u.label@, u.since_ns, taken);
            lemma_put(
                k.books.killing,
                task as u64,
                Kill {
                    deadline_ms: later_by(now_ms, KILL_GRACE_MS),
                    escalated: false,
                    tokens: u.tokens,
                    record: None,
                },
            );
            assert forall|j: u64|
                #[trigger] holds(b.leases, j) && at(
                    b.leases,
                    j,
                ).pueue_task_id is Some implies !holds(
                s.books.killing,
                at(b.leases, j).pueue_task_id->0 as u64,
            ) by {
                let i = rank(b.leases, j) as int;
                lemma_claimed(b.leases, i, b.leases.len());
                assert(at(b.leases, j).pueue_task_id->0 != task);
                assert(!holds(kills, at(b.leases, j).pueue_task_id->0 as u64));
            }
        }
    }
}

proof fn lemma_own_lost(b: Books, err: String)
    requires
        own_tasks(b),
    ensures
        own_tasks(lost(b, err).books),
{
    law_losing_pueued_gives_up_what_was_asked_of_it(b, err);
    lemma_given_up_leases(b, b.killing, b.unreconciled, b.killing.len());
    lemma_given_up_leases(
        kills_given_up(b, b.killing, b.killing.len()).books,
        b.killing,
        b.unreconciled,
        b.unreconciled.len(),
    );
}

proof fn lemma_given_up_leases(
    b: Books,
    kills: Seq<(u64, Kill)>,
    list: Seq<Unreconciled>,
    n: nat,
)
    ensures
        kills_given_up(b, kills, n).books.leases == b.leases,
        submissions_given_up(b, list, n).books.leases == b.leases,
    decreases n,
{
    if n > 0 {
        lemma_given_up_leases(b, kills, list, (n - 1) as nat);
    }
}

/// Every task being torn down after a restart is that of a teardown taken over.
proof fn lemma_resumed_tasks(b: Books, resume: Seq<Record>, now_ms: u64, n: nat)
    requires
        n <= resume.len(),
        b.killing.len() == 0,
        b.leases.len() == 0,
    ensures
        ascending(resumed(b, resume, now_ms, n).killing),
        resumed(b, resume, now_ms, n).leases.len() == 0,
        forall|t: u64| #[trigger]
            holds(resumed(b, resume, now_ms, n).killing, t) ==> exists|j: int|
                0 <= j < n && (#[trigger] resume[j]).pueue_task_id is Some
                    && resume[j].pueue_task_id->0 as u64 == t,
    decreases n,
{
    if n > 0 {
        let m = (n - 1) as nat;
        lemma_resumed_tasks(b, resume, now_ms, m);
        let before = resumed(b, resume, now_ms, m);
        let after = resumed(b, resume, now_ms, n);
        let r = resume[m as int];
        if let Some(task) = r.pueue_task_id {
            lemma_put(
                before.killing,
                task as u64,
                Kill {
                    deadline_ms: later_by(now_ms, KILL_GRACE_MS),
                    escalated: false,
                    tokens: r.cores_held,
                    record: Some(r),
                },
            );
        }
        assert forall|t: u64| #[trigger] holds(after.killing, t) implies exists|j: int|
            0 <= j < n && (#[trigger] resume[j]).pueue_task_id is Some
                && resume[j].pueue_task_id->0 as u64 == t by {
            if r.pueue_task_id is Some && r.pueue_task_id->0 as u64 == t {
                assert(resume[m as int].pueue_task_id is Some);
            } else {
                assert(holds(before.killing, t) <==> holds(after.killing, t));
                let j = choose|j: int|
                    0 <= j < m && (#[trigger] resume[j]).pueue_task_id is Some
                        && resume[j].pueue_task_id->0 as u64 == t;
                assert(resume[j].pueue_task_id is Some);
            }
        }
    }
}

/// Every lease after a restart is that of a record taken back.
proof fn lemma_adopted_tasks(b: Books, adopt: Seq<Record>, n: nat)
    requires
        n <= adopt.len(),
        b.leases.len() == 0,
    ensures
        ascending(adopted(b, adopt, n).leases),
        adopted(b, adopt, n).killing == b.killing,
        forall|k: u64| #[trigger]
            holds(adopted(b, adopt, n).leases, k) ==> exists|i: int|
                0 <= i < n && (#[trigger] adopt[i]).id == k && at(adopted(b, adopt, n).leases, k)
                    == taken_back(adopt[i]),
    decreases n,
{
    if n > 0 {
        let m = (n - 1) as nat;
        lemma_adopted_tasks(b, adopt, m);
        let before = adopted(b, adopt, m).leases;
        let after = adopted(b, adopt, n).leases;
        let r = adopt[m as int];
        lemma_put(before, r.id, taken_back(r));
        assert forall|k: u64| #[trigger] holds(after, k) implies exists|i: int|
            0 <= i < n && (#[trigger] adopt[i]).id == k && at(after, k) == taken_back(
                adopt[i],
            ) by {
            if k == r.id {
                assert(adopt[m as int].id == k);
            } else {
                assert(holds(before, k) <==> holds(after, k));
                let i = choose|i: int|
                    0 <= i < m && (#[trigger] adopt[i]).id == k && at(before, k) == taken_back(
                        adopt[i],
                    );
                assert(adopt[i].id == k);
            }
        }
    }
}

/// Tasks are apart after a restart: where no two records of the previous daemon name one
/// task, every task is one lease's alone or being torn down.
pub proof fn law_tasks_restart_apart(
    params: Params,
    settings: Settings,
    debt: u32,
    records: Seq<Record>,
    tasks: Seq<Task>,
    now_ms: u64,
)
    requires
        distinct_tasks(records),
    ensures
        ({
            let s = sorted(records, tasks, records.len());
            own_tasks(
                adopted(
                    resumed(
                        fresh(params, settings, debt),
                        s.killing,
                        now_ms,
                        s.killing.len(),
                    ),
                    s.adopted,
                    s.adopted.len(),
                ),
            )
        }),
{
    let s = sorted(records, tasks, records.len());
    law_each_task_is_taken_over_once(records, tasks, records.len());
    let start = fresh(params, settings, debt);
    let mid = resumed(start, s.killing, now_ms, s.killing.len());
    let b = adopted(mid, s.adopted, s.adopted.len());
    lemma_resumed_tasks(start, s.killing, now_ms, s.killing.len());
    lemma_adopted_tasks(mid, s.adopted, s.adopted.len());
    assert forall|k: u64|
        #[trigger] holds(b.leases, k) && at(b.leases, k).pueue_task_id is Some implies !holds(
        b.killing,
        at(b.leases, k).pueue_task_id->0 as u64,
    ) by {
        let i = choose|i: int|
            0 <= i < s.adopted.len() && (#[trigger] s.adopted[i]).id == k && at(b.leases, k)
                == taken_back(s.adopted[i]);
        let task = at(b.leases, k).pueue_task_id->0;
        if holds(b.killing, task as u64) {
            assert(holds(mid.killing, task as u64));
            let j = choose|j: int|
                0 <= j < s.killing.len() && (#[trigger] s.killing[j]).pueue_task_id is Some
                    && s.killing[j].pueue_task_id->0 as u64 == task as u64;
            assert(s.adopted[i].pueue_task_id != s.killing[j].pueue_task_id);
        }
    }
    assert forall|j: u64, k: u64|
        j != k && #[trigger] holds(b.leases, j) && #[trigger] holds(b.leases, k) && at(
            b.leases,
            j,
        ).pueue_task_id is Some implies at(b.leases, j).pueue_task_id != at(
        b.leases,
        k,
    ).pueue_task_id by {
        let x = choose|x: int|
            0 <= x < s.adopted.len() && (#[trigger] s.adopted[x]).id == j && at(b.leases, j)
                == taken_back(s.adopted[x]);
        let y = choose|y: int|
            0 <= y < s.adopted.len() && (#[trigger] s.adopted[y]).id == k && at(b.leases, k)
                == taken_back(s.adopted[y]);
        if x < y {
            assert(s.adopted[x].pueue_task_id != s.adopted[y].pueue_task_id);
        } else {
            assert(s.adopted[y].pueue_task_id is Some ==> s.adopted[y].pueue_task_id
                != s.adopted[x].pueue_task_id);
        }
    }
}

} // verus!
