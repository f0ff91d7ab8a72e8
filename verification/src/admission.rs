//! A lease is admitted once: it stands in one place on its way there, and holds no
//! tokens before its drain.

use vstd::prelude::*;

#[allow(unused_imports)]
use crate::ledger::{at, holds, lemma_put, lemma_without, put, without};
#[allow(unused_imports)]
use crate::leases::{
    announced, drained, ended, failed, fed, fed_but, finished, kept, kills_given_up,
    kills_settled, lemma_kills_given_up_frame, lemma_kills_settled_frame, lost, polled, resized,
    stepped, submissions_given_up, submissions_settled, submitted, torn_down, worked, Books,
    Lease, Sieve, Stage, Unreconciled, Work,
};
#[allow(unused_imports)]
use crate::scheduler::{
    admissions, admitted_from_head, applied, asked, drops, head_admitted, moved, next, order,
    place_of, settled, settling, target, Action, Event, LeaseId, Params, Request, State,
};
#[allow(unused_imports)]
use crate::status::Task;

verus! {

/// How many times the queue holds a lease.
pub open spec fn queued_of(queue: Seq<Request>, id: u64) -> nat
    decreases queue.len(),
{
    if queue.len() == 0 {
        0
    } else {
        queued_of(queue.drop_last(), id) + if queue.last().id.0 == id {
            1nat
        } else {
            0nat
        }
    }
}

/// How many times actions admit a lease.
pub open spec fn admits_of(actions: Seq<Action>, id: u64) -> nat
    decreases actions.len(),
{
    if actions.len() == 0 {
        0
    } else {
        admits_of(actions.drop_last(), id) + if admits_it(actions.last(), id) {
            1nat
        } else {
            0nat
        }
    }
}

/// Whether an action admits a lease.
pub open spec fn admits_it(a: Action, id: u64) -> bool {
    a matches Action::Admit { id: of, .. } && of.0 == id
}

/// How many drains are ahead of a lease: the places at which it waits, is admitted, is
/// held back or is being drained for.
pub open spec fn due(b: Books, id: u64) -> nat {
    queued_of(b.scheduler.queue, id) + admits_of(b.pending, id) + admits_of(b.deferred, id)
        + if b.stage matches Stage::Draining { id: of, .. } && of == id {
        1nat
    } else {
        0nat
    }
}

/// Whether every lease has at most one drain ahead of it and holds no tokens until then;
/// so the one that is being drained for, which is on the books, holds none.
pub open spec fn orderly(b: Books) -> bool {
    &&& forall|id: u64| #[trigger]
        due(b, id) <= 1 && (due(b, id) == 1 ==> id < b.next_id && (holds(b.leases, id) ==> at(
            b.leases,
            id,
        ).cores_held == 0))
    &&& b.stage matches Stage::Draining { id, .. } ==> holds(b.leases, id) && at(
        b.leases,
        id,
    ).cores_held == 0
}

proof fn lemma_admits_add(a: Seq<Action>, b: Seq<Action>, id: u64)
    ensures
        admits_of(a + b, id) == admits_of(a, id) + admits_of(b, id),
    decreases b.len(),
{
    if b.len() == 0 {
        assert(a + b =~= a);
    } else {
        assert((a + b).drop_last() =~= a + b.drop_last());
        assert((a + b).last() == b.last());
        lemma_admits_add(a, b.drop_last(), id);
    }
}

proof fn lemma_admits_one(a: Action, id: u64)
    ensures
        admits_of(seq![a], id) == if admits_it(a, id) {
            1nat
        } else {
            0nat
        },
{
    assert(seq![a].drop_last() =~= Seq::empty());
    assert(seq![a].last() == a);
    assert(admits_of(Seq::<Action>::empty(), id) == 0);
}

proof fn lemma_admits_first(actions: Seq<Action>, id: u64)
    requires
        actions.len() > 0,
    ensures
        admits_of(actions, id) == admits_of(actions.skip(1), id) + if admits_it(actions[0], id) {
            1nat
        } else {
            0nat
        },
{
    assert(seq![actions[0]] + actions.skip(1) =~= actions);
    lemma_admits_add(seq![actions[0]], actions.skip(1), id);
    lemma_admits_one(actions[0], id);
}

proof fn lemma_admits_none(actions: Seq<Action>, id: u64)
    requires
        forall|i: int| 0 <= i < actions.len() ==> order(#[trigger] actions[i]) != 1,
    ensures
        admits_of(actions, id) == 0,
    decreases actions.len(),
{
    if actions.len() > 0 {
        assert(order(actions[actions.len() - 1]) != 1);
        lemma_admits_none(actions.drop_last(), id);
    }
}

proof fn lemma_admits_kept(actions: Seq<Action>, sieve: Sieve, id: u64)
    ensures
        admits_of(kept(actions, sieve), id) <= admits_of(actions, id),
    decreases actions.len(),
{
    if actions.len() > 0 {
        let before = kept(actions.drop_last(), sieve);
        lemma_admits_kept(actions.drop_last(), sieve, id);
        assert(before.push(actions.last()).drop_last() =~= before);
    }
}

proof fn lemma_queued_first(queue: Seq<Request>, id: u64)
    requires
        queue.len() > 0,
    ensures
        queued_of(queue, id) == queued_of(queue.skip(1), id) + if queue[0].id.0 == id {
            1nat
        } else {
            0nat
        },
    decreases queue.len(),
{
    let rest = queue.skip(1);
    if rest.len() == 0 {
        assert(queue.drop_last() =~= Seq::empty());
        assert(queued_of(Seq::<Request>::empty(), id) == 0);
    } else {
        lemma_queued_first(queue.drop_last(), id);
        assert(queue.drop_last().skip(1) =~= rest.drop_last());
        assert(rest.last() == queue.last());
    }
}

proof fn lemma_queued_removed(queue: Seq<Request>, p: int, id: u64)
    requires
        0 <= p < queue.len(),
    ensures
        queued_of(queue.remove(p), id) <= queued_of(queue, id),
    decreases queue.len(),
{
    if p == queue.len() - 1 {
        assert(queue.remove(p) =~= queue.drop_last());
    } else {
        lemma_queued_removed(queue.drop_last(), p, id);
        assert(queue.remove(p).drop_last() =~= queue.drop_last().remove(p));
        assert(queue.remove(p).last() == queue.last());
    }
}

/// Admitting from the head moves leases from the queue to the admissions.
proof fn lemma_admitted_from_head(s: State, id: u64)
    ensures
        queued_of(admitted_from_head(s).queue, id) + admits_of(admissions(s), id) == queued_of(
            s.queue,
            id,
        ),
    decreases s.queue.len(),
{
    if s.queue.len() > 0 && target(s, s.queue[0]) is Some {
        let t = head_admitted(s);
        lemma_admitted_from_head(t, id);
        lemma_queued_first(s.queue, id);
        let r = s.queue[0];
        let a = Action::Admit {
            id: r.id,
            class: r.class,
            drain_target: target(s, r)->0 as u32,
        };
        lemma_admits_add(seq![a], admissions(t), id);
        lemma_admits_one(a, id);
    }
}

proof fn lemma_moved_admits_none(queue: Seq<Request>, notified: Seq<(u64, usize)>, n: nat, id: u64)
    ensures
        admits_of(moved(queue, notified, n), id) == 0,
    decreases n,
{
    if n > 0 {
        let k = (n - 1) as nat;
        lemma_moved_admits_none(queue, notified, k, id);
        let before = moved(queue, notified, k);
        let all = moved(queue, notified, n);
        if all.len() > before.len() {
            assert(all.drop_last() =~= before);
        }
    }
}

proof fn lemma_settled(s: State, id: u64)
    ensures
        queued_of(settled(s).queue, id) + admits_of(settling(s), id) == queued_of(s.queue, id),
{
    let t = admitted_from_head(s);
    lemma_admitted_from_head(s, id);
    lemma_moved_admits_none(t.queue, t.notified, t.queue.len(), id);
    lemma_admits_add(admissions(s), moved(t.queue, t.notified, t.queue.len()), id);
}

/// An event queues a lease that it submits, and no other.
proof fn lemma_asked(s: State, ev: Event, id: u64)
    ensures
        queued_of(next(s, ev).queue, id) + admits_of(asked(s, ev), id) <= queued_of(s.queue, id)
            + if ev matches Event::Submit(r) && r.id.0 == id {
            1nat
        } else {
            0nat
        },
{
    let u = applied(s, ev);
    lemma_settled(u, id);
    lemma_admits_none(drops(s, ev), id);
    lemma_admits_add(drops(s, ev), settling(u), id);
    match ev {
        Event::Submit(r) => {
            assert(s.queue.push(r).drop_last() =~= s.queue);
        },
        Event::Cancel(of) => {
            if !holds(s.admitted, of.0) && place_of(s.queue, of) < s.queue.len() {
                lemma_queued_removed(s.queue, place_of(s.queue, of) as int, id);
            }
        },
        _ => {},
    }
}

/// Fewer drains ahead, for leases that hold what they held, keep the order.
proof fn lemma_fewer(b: Books, t: Books)
    requires
        orderly(b),
        t.next_id >= b.next_id,
        t.stage matches Stage::Draining { id, .. } ==> holds(t.leases, id),
        forall|id: u64| #[trigger] due(t, id) <= due(b, id),
        forall|id: u64| #[trigger]
            holds(t.leases, id) ==> due(t, id) == 0 || at(t.leases, id).cores_held == 0 || (holds(
                b.leases,
                id,
            ) && at(t.leases, id).cores_held == at(b.leases, id).cores_held),
    ensures
        orderly(t),
{
    assert forall|id: u64| #[trigger]
        due(t, id) <= 1 && (due(t, id) == 1 ==> id < t.next_id && (holds(t.leases, id) ==> at(
            t.leases,
            id,
        ).cores_held == 0)) by {
        assert(due(b, id) <= 1);
    }
    if let Stage::Draining { id, .. } = t.stage {
        assert(due(t, id) <= 1);
    }
}

proof fn lemma_fed(b: Books, ev: Event, sieve: Sieve)
    requires
        orderly(b),
        !(ev is Submit),
    ensures
        orderly(fed(b, ev)),
        orderly(fed_but(b, ev, sieve)),
{
    let t = fed(b, ev);
    let u = fed_but(b, ev, sieve);
    assert forall|id: u64| #[trigger] due(t, id) <= due(b, id) by {
        lemma_asked(b.scheduler, ev, id);
        lemma_admits_add(b.pending, asked(b.scheduler, ev), id);
    }
    assert forall|id: u64| #[trigger] due(u, id) <= due(b, id) by {
        lemma_asked(b.scheduler, ev, id);
        lemma_admits_kept(asked(b.scheduler, ev), sieve, id);
        lemma_admits_add(b.pending, kept(asked(b.scheduler, ev), sieve), id);
    }
    lemma_fewer(b, t);
    lemma_fewer(b, u);
}

proof fn lemma_left(b: Books, t: Books, id: u64)
    requires
        b.sound(),
        orderly(b),
        t.leases == without(b.leases, id),
        t.next_id == b.next_id,
        t.stage == b.stage,
        b.stage matches Stage::Draining { id: of, .. } ==> of != id,
        forall|k: u64| #[trigger] due(t, k) <= due(b, k),
    ensures
        orderly(t),
{
    lemma_without(b.leases, id);
    assert forall|k: u64| #[trigger] holds(t.leases, k) implies due(t, k) == 0 || at(
        t.leases,
        k,
    ).cores_held == 0 || (holds(b.leases, k) && at(t.leases, k).cores_held == at(
        b.leases,
        k,
    ).cores_held) by {
        assert(k != id);
        assert(holds(b.leases, k) <==> holds(t.leases, k));
    }
    if let Stage::Draining { id: of, .. } = b.stage {
        assert(holds(b.leases, of));
    }
    lemma_fewer(b, t);
}

proof fn lemma_finished(b: Books, id: u64, exit_code: i32)
    requires
        b.sound(),
        orderly(b),
        b.stage is Ready,
    ensures
        orderly(finished(b, id, exit_code).books),
{
    let t = finished(b, id, exit_code).books;
    assert forall|k: u64| #[trigger] due(t, k) <= due(b, k) by {}
    if holds(b.leases, id) {
        lemma_left(b, t, id);
    }
}

proof fn lemma_torn_down(b: Books, id: u64, now_ms: u64)
    requires
        b.sound(),
        orderly(b),
        b.stage is Ready,
    ensures
        orderly(torn_down(b, id, now_ms).books),
{
    let t = torn_down(b, id, now_ms).books;
    if holds(b.leases, id) {
        assert forall|k: u64| #[trigger] due(t, k) <= due(b, k) by {
            lemma_admits_kept(b.deferred, Sieve::AdmitOf(id), k);
        }
        lemma_left(b, t, id);
    }
}

/// One piece of work keeps the order, where no admission is under way or it is to forget
/// a lease that has no drain ahead of it.
pub proof fn lemma_worked_orderly(b: Books, w: Work)
    requires
        b.sound(),
        orderly(b),
        b.stage is Ready || (w matches Work::Forget(id) && due(b, id) == 0),
    ensures
        orderly(worked(b, w).books),
{
    let t = worked(b, w).books;
    match w {
        Work::Ended { id, how } => {
            let code = crate::leases::ending_code(how);
            lemma_finished(b, id, code);
            lemma_fed(
                finished(b, id, code).books,
                Event::Finished(LeaseId(id)),
                Sieve::DropOf(id),
            );
        },
        Work::Forget(id) => {
            assert forall|k: u64| #[trigger] due(t, k) <= due(b, k) by {}
            if holds(b.leases, id) {
                lemma_left(b, t, id);
            }
        },
        Work::Resume | Work::ResumeAll => {
            assert forall|k: u64| #[trigger] due(t, k) <= due(b, k) by {
                lemma_admits_add(b.pending, b.deferred, k);
                assert(admits_of(Seq::<Action>::empty(), k) == 0);
            }
            lemma_fewer(b, t);
        },
        Work::Sweep => {
            assert forall|k: u64| #[trigger] due(t, k) <= due(b, k) by {}
            lemma_fewer(b, t);
        },
    }
}

/// A step keeps the order.
pub proof fn lemma_stepped_orderly(b: Books, now_ms: u64)
    requires
        b.sound(),
        orderly(b),
    ensures
        orderly(stepped(b, now_ms).0),
{
    if b.stage is Ready {
        if b.pending.len() > 0 {
            let a = b.pending[0];
            let c = Books { pending: b.pending.skip(1), ..b };
            let t = stepped(b, now_ms).0;
            assert forall|k: u64| #[trigger]
                due(c, k) + (if admits_it(a, k) {
                    1nat
                } else {
                    0nat
                }) == due(b, k) by {
                lemma_admits_first(b.pending, k);
            }
            assert forall|k: u64| #[trigger] due(c, k) <= due(b, k) by {}
            lemma_fewer(b, c);
            match a {
                Action::Admit { id, .. } => {
                    if c.holding() {
                        assert forall|k: u64| #[trigger] due(t, k) <= due(b, k) by {
                            assert(due(c, k) <= due(b, k));
                            assert(c.deferred.push(a).drop_last() =~= c.deferred);
                        }
                        lemma_fewer(b, t);
                    } else if holds(c.leases, id.0) && at(c.leases, id.0).start is Some {
                        assert forall|k: u64| #[trigger] due(t, k) <= due(b, k) by {
                            assert(due(c, k) <= due(b, k));
                        }
                        lemma_fewer(b, t);
                    } else {
                        lemma_fed(c, Event::DrainFailed(id), Sieve::DropOf(id.0));
                    }
                },
                Action::Notify { .. } => {},
                Action::Drop(id) => {
                    lemma_torn_down(c, id.0, now_ms);
                },
            }
        } else if b.later.len() > 0 {
            let c = Books { later: b.later.skip(1), ..b };
            assert forall|k: u64| #[trigger] due(c, k) <= due(b, k) by {}
            lemma_fewer(b, c);
            lemma_worked_orderly(c, b.later[0]);
        }
    }
}

/// The end of a drain keeps the order: it was the lease's only one.
pub proof fn lemma_drained_orderly(b: Books, got: u32, now_ms: u64)
    requires
        b.sound(),
        orderly(b),
    ensures
        orderly(drained(b, got, now_ms).books),
{
    let t = drained(b, got, now_ms).books;
    if let Stage::Draining { id, .. } = b.stage {
        assert(due(b, id) <= 1);
        assert forall|k: u64| #[trigger] due(t, k) <= due(b, k) by {}
        if holds(b.leases, id) {
            let lease = at(b.leases, id);
            lemma_put(
                b.leases,
                id,
                Lease { cores_held: got, submitted_at_ms: Some(now_ms), ..lease },
            );
            assert forall|k: u64| #[trigger] holds(t.leases, k) implies due(t, k) == 0 || at(
                t.leases,
                k,
            ).cores_held == 0 || (holds(b.leases, k) && at(t.leases, k).cores_held == at(
                b.leases,
                k,
            ).cores_held) by {
                if k == id {
                    assert(due(b, k) <= 1);
                } else {
                    assert(holds(b.leases, k) <==> holds(t.leases, k));
                }
            }
        }
        lemma_fewer(b, t);
    }
}

/// An admission that is given up keeps the order.
pub proof fn lemma_failed_orderly(b: Books, id: u64, text: Seq<char>)
    requires
        (Books { stage: Stage::Ready, ..b }).sound(),
        orderly(b),
    ensures
        orderly(failed(b, id, text).books),
{
    let c = Books { stage: Stage::Ready, ..b };
    assert forall|k: u64| #[trigger] due(c, k) <= due(b, k) by {}
    lemma_fewer(b, c);
    lemma_fed(c, Event::DrainFailed(LeaseId(id)), Sieve::DropOf(id));
    let t = fed_but(c, Event::DrainFailed(LeaseId(id)), Sieve::DropOf(id));
    let u = failed(b, id, text).books;
    assert forall|k: u64| #[trigger] due(u, k) <= due(t, k) by {}
    if holds(t.leases, id) {
        lemma_without(t.leases, id);
        assert forall|k: u64| #[trigger] holds(u.leases, k) implies due(u, k) == 0 || at(
            u.leases,
            k,
        ).cores_held == 0 || (holds(t.leases, k) && at(u.leases, k).cores_held == at(
            t.leases,
            k,
        ).cores_held) by {
            assert(k != id);
            assert(holds(t.leases, k) <==> holds(u.leases, k));
        }
    }
    lemma_fewer(t, u);
}

/// Books that differ in nothing the order speaks of.
pub proof fn lemma_same_order(b: Books, t: Books)
    requires
        orderly(b),
        t.scheduler == b.scheduler,
        t.pending == b.pending,
        t.deferred == b.deferred,
        t.leases == b.leases,
        t.next_id >= b.next_id,
        !(t.stage is Draining) || t.stage == b.stage,
    ensures
        orderly(t),
{
    assert forall|k: u64| #[trigger] due(t, k) <= due(b, k) by {}
    lemma_fewer(b, t);
}

/// pueued's answer keeps the order.
pub proof fn lemma_submitted_orderly(b: Books, answer: Result<usize, String>)
    requires
        b.sound(),
        orderly(b),
    ensures
        orderly(submitted(b, answer).books),
{
    if let Stage::Submitting { id, sent_at_ns } = b.stage {
        let ready = Books { stage: Stage::Ready, ..b };
        lemma_same_order(b, ready);
        if holds(b.leases, id) {
            let lease = at(b.leases, id);
            match answer {
                Ok(task) => {
                    let v = Lease { pueue_task_id: Some(task), ..lease };
                    let t = Books { leases: put(b.leases, id, v), ..ready };
                    lemma_order_put(b, t, id, v);
                    lemma_fed(
                        t,
                        Event::Started { id: LeaseId(id), cores_held: lease.cores_held },
                        Sieve::DropOf(id),
                    );
                },
                Err(err) => {
                    let v = Lease { cores_held: 0, ..lease };
                    let t = Books {
                        leases: put(b.leases, id, v),
                        unreconciled: b.unreconciled.push(
                            Unreconciled {
                                label: lease.label,
                                since_ns: sent_at_ns,
                                tokens: lease.cores_held,
                            },
                        ),
                        ..b
                    };
                    lemma_order_put(b, t, id, v);
                    crate::leases::lemma_unanswered_sound(b, t, id, v);
                    lemma_failed_orderly(t, id, "bzbd could not start the task: "@ + err@);
                },
            }
        }
    }
}

proof fn lemma_order_put(b: Books, t: Books, id: u64, v: Lease)
    requires
        b.sound(),
        orderly(b),
        t.scheduler == b.scheduler,
        t.pending == b.pending,
        t.deferred == b.deferred,
        t.leases == put(b.leases, id, v),
        t.next_id == b.next_id,
        !(b.stage is Draining),
        !(t.stage is Draining),
        v.cores_held == 0 || (holds(b.leases, id) && v.cores_held == at(
            b.leases,
            id,
        ).cores_held),
    ensures
        orderly(t),
{
    lemma_put(b.leases, id, v);
    assert forall|k: u64| #[trigger] due(t, k) <= due(b, k) by {}
    assert forall|k: u64| #[trigger] holds(t.leases, k) implies due(t, k) == 0 || at(
        t.leases,
        k,
    ).cores_held == 0 || (holds(b.leases, k) && at(t.leases, k).cores_held == at(
        b.leases,
        k,
    ).cores_held) by {
        if k != id {
            assert(holds(b.leases, k) <==> holds(t.leases, k));
        }
    }
    lemma_fewer(b, t);
}

/// A lease that enters has no drain ahead of it yet.
pub proof fn lemma_entered_orderly(b: Books, lease: Lease)
    requires
        b.sound(),
        orderly(b),
        b.next_id < u64::MAX,
        lease.cores_held == 0,
    ensures
        ({
            let t = Books {
                leases: put(b.leases, b.next_id, lease),
                next_id: (b.next_id + 1) as u64,
                ..b
            };
            orderly(t) && due(t, b.next_id) == 0
        }),
{
    let id = b.next_id;
    let t = Books { leases: put(b.leases, id, lease), next_id: (id + 1) as u64, ..b };
    lemma_put(b.leases, id, lease);
    assert forall|k: u64| #[trigger] due(t, k) <= due(b, k) by {}
    assert(due(b, id) == 0);
    assert forall|k: u64| #[trigger] holds(t.leases, k) implies due(t, k) == 0 || at(
        t.leases,
        k,
    ).cores_held == 0 || (holds(b.leases, k) && at(t.leases, k).cores_held == at(
        b.leases,
        k,
    ).cores_held) by {
        if k != id {
            assert(holds(b.leases, k) <==> holds(t.leases, k));
        }
    }
    lemma_fewer(b, t);
}

/// A lease that joins the queue once keeps the order.
pub proof fn lemma_announced_orderly(b: Books, id: u64)
    requires
        b.sound(),
        orderly(b),
        due(b, id) == 0,
        holds(b.leases, id) ==> at(b.leases, id).cores_held == 0,
    ensures
        orderly(announced(b, id).books),
{
    let t = announced(b, id).books;
    if holds(b.leases, id) && at(b.leases, id).start is Some {
        let lease = at(b.leases, id);
        let ev = Event::Submit(
            Request {
                id: LeaseId(id),
                class: lease.class,
                cores_wanted: crate::leases::wanted_cores(
                    lease.start->0.plan@,
                    b.settings.static_default,
                ),
                label: lease.label,
            },
        );
        assert forall|k: u64| #[trigger]
            due(t, k) <= 1 && (due(t, k) == 1 ==> k < t.next_id && (holds(t.leases, k) ==> at(
                t.leases,
                k,
            ).cores_held == 0)) by {
            lemma_asked(b.scheduler, ev, k);
            lemma_admits_kept(asked(b.scheduler, ev), Sieve::NotifyOf(id), k);
            lemma_admits_add(b.pending, kept(asked(b.scheduler, ev), Sieve::NotifyOf(id)), k);
            assert(due(b, k) <= 1);
        }
        if let Stage::Draining { id: of, .. } = t.stage {
            assert(due(t, of) <= 1);
        }
    }
}

/// A lease that is ended keeps the order.
pub proof fn lemma_ended_orderly(b: Books, id: u64)
    requires
        orderly(b),
    ensures
        orderly(ended(b, id)),
{
    lemma_fed(b, Event::Cancel(LeaseId(id)), Sieve::DropOf(id));
    lemma_same_order(fed(b, Event::Cancel(LeaseId(id))), ended(b, id));
}

/// New parameters keep the order.
pub proof fn lemma_resized_orderly(b: Books, params: Params)
    requires
        orderly(b),
    ensures
        orderly(resized(b, params).books),
{
    let s = State { params, ..b.scheduler };
    let t = resized(b, params).books;
    assert forall|k: u64| #[trigger] due(t, k) <= due(b, k) by {
        lemma_settled(s, k);
        lemma_admits_add(b.pending, settling(s), k);
    }
    lemma_fewer(b, t);
}

/// Settling unanswered submissions, or giving them up, touches them, the teardowns and
/// the debt.
pub proof fn lemma_submissions_frame(
    b: Books,
    list: Seq<Unreconciled>,
    tasks: Seq<Task>,
    now_ms: u64,
    n: nat,
)
    ensures
        ({
            let t = submissions_settled(b, list, tasks, now_ms, n).books;
            t == (Books { killing: t.killing, unreconciled: t.unreconciled, debt: t.debt, ..b })
        }),
        ({
            let t = submissions_given_up(b, list, n).books;
            t == (Books { unreconciled: t.unreconciled, debt: t.debt, ..b })
        }),
    decreases n,
{
    if n > 0 {
        lemma_submissions_frame(b, list, tasks, now_ms, (n - 1) as nat);
    }
}

/// A look at pueued's list keeps the order.
pub proof fn lemma_polled_orderly(b: Books, tasks: Seq<Task>, now_ms: u64)
    requires
        orderly(b),
    ensures
        orderly(polled(b, tasks, now_ms).books),
{
    lemma_kills_settled_frame(b, b.killing, tasks, now_ms, b.killing.len());
    lemma_submissions_frame(
        kills_settled(b, b.killing, tasks, now_ms, b.killing.len()).books,
        b.unreconciled,
        tasks,
        now_ms,
        b.unreconciled.len(),
    );
    lemma_same_order(b, polled(b, tasks, now_ms).books);
}

/// The loss of pueued keeps the order.
pub proof fn lemma_lost_orderly(b: Books, err: String)
    requires
        orderly(b),
    ensures
        orderly(lost(b, err).books),
{
    lemma_kills_given_up_frame(b, b.killing, b.killing.len());
    lemma_submissions_frame(
        kills_given_up(b, b.killing, b.killing.len()).books,
        b.unreconciled,
        Seq::empty(),
        0,
        b.unreconciled.len(),
    );
    lemma_same_order(b, lost(b, err).books);
}

/// Where nobody waits and nothing is pending, the order is kept.
pub proof fn lemma_nothing_due(b: Books)
    requires
        b.scheduler.queue.len() == 0,
        b.pending.len() == 0,
        b.deferred.len() == 0,
        b.stage is Ready,
    ensures
        orderly(b),
{
    assert forall|k: u64| #[trigger] due(b, k) == 0 by {}
}

} // verus!
