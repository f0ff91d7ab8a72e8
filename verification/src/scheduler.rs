//! The admission state machine: no input or output, no time source.
//!
//! The queue is first in, first out, and only its head is considered. A lease
//! at the head is admitted when fewer than `max_concurrent` leases are, and
//! then by its class:
//!
//! - a jobserver lease at once, taking no tokens up front;
//! - a static lease with `clamp(cores_wanted, 1, fair)` tokens to drain, where
//!   `fair = ceil(pool_size / (admitted + 1))` is the fair share at that
//!   moment, and also what `cores_wanted` defaults to;
//! - an exclusive lease (`none`) only when nothing at all is admitted, with the
//!   whole pool to drain.
//!
//! An exclusive lease at the head therefore makes everything behind it wait.
//! The machine is driven by [`Event`]s and answers with [`Action`]s.

use std::collections::VecDeque;

use vstd::prelude::*;

pub use crate::classify::Class;
use crate::ledger::Ledger;

#[allow(unused_imports)]
use crate::ledger::{ascending, at, holds, lemma_put, lemma_put_again, lemma_without, put, without};

verus! {

/// Identifies one lease for its whole lifetime.
#[derive(Debug, Clone, Copy, PartialEq, Eq, PartialOrd, Ord, Hash, Structural)]
pub struct LeaseId(pub u64);

/// A queued lease request.
#[derive(Debug, PartialEq, Eq)]
pub struct Request {
    pub id: LeaseId,
    pub class: Class,
    /// Target of a static lease; the fair share when absent.
    pub cores_wanted: Option<u32>,
    /// Human-readable label.
    pub label: String,
}

impl Clone for Request {
    fn clone(&self) -> (r: Self)
        ensures
            r == *self,
    {
        Request {
            id: self.id,
            class: self.class,
            cores_wanted: self.cores_wanted,
            label: self.label.clone(),
        }
    }
}

/// Admission parameters.
#[derive(Debug, Clone, Copy, PartialEq, Eq, Structural)]
pub struct Params {
    /// Tokens in the pool.
    pub pool_size: u32,
    /// Maximum leases admitted at once.
    pub max_concurrent: u32,
}

/// Something that happened outside the machine.
#[derive(Debug, PartialEq, Eq)]
pub enum Event {
    /// A client asked for a lease; it joins the tail of the queue.
    Submit(Request),
    /// The client went away while queued, or its running task must be torn down.
    Cancel(LeaseId),
    /// The drain is finished and the task launched.
    Started { id: LeaseId, cores_held: u32 },
    /// The task exited or was killed.
    Finished(LeaseId),
    /// The lease could not be started.
    DrainFailed(LeaseId),
}

/// Something that must be done. Always in this order: drops, then admissions
/// in queue order, then notifications in queue order.
#[derive(Debug, Clone, Copy, PartialEq, Eq, Structural)]
pub enum Action {
    /// Drain `drain_target` tokens and start the task, then report back with
    /// [`Event::Started`].
    Admit { id: LeaseId, class: Class, drain_target: u32 },
    /// The lease's queue position changed: `ahead` leases are in front of it.
    Notify { id: LeaseId, ahead: usize },
    /// The lease is gone: tear down anything started for it and return its
    /// tokens.
    Drop(LeaseId),
}

/// An admitted lease, as [`Scheduler::snapshot`] reports it.
#[derive(Debug, PartialEq, Eq)]
pub struct AdmittedLease {
    pub id: LeaseId,
    pub class: Class,
    /// Tokens actually collected, 0 until [`Event::Started`] arrives.
    pub cores_held: u32,
    pub label: String,
}

/// Read-only view of the machine.
#[derive(Debug, PartialEq, Eq)]
pub struct Snapshot {
    /// Waiting leases, head first.
    pub queued: Vec<Request>,
    /// Admitted leases, in ascending order of their ids.
    pub admitted: Vec<AdmittedLease>,
    /// `pool_size` less what is held, never below 0.
    pub free_estimate: u32,
}

/// What the machine keeps of an admitted lease.
pub struct Admitted {
    pub class: Class,
    pub cores_held: u32,
    pub label: String,
    /// The fair share of the pool at the moment of admission.
    pub share: u32,
}

/// The machine's state, mathematically.
#[verifier::ext_equal]
pub struct State {
    pub params: Params,
    /// Waiting leases, head first.
    pub queue: Seq<Request>,
    /// Admitted leases by id, ascending.
    pub admitted: Seq<(u64, Admitted)>,
    /// The position last reported for each lease that was then waiting.
    pub notified: Seq<(u64, usize)>,
}

/// The fair share of `pool` tokens with `count` leases already admitted, at
/// least 1.
pub open spec fn fair(pool: nat, count: nat) -> nat {
    let up = (pool + count) / (count + 1);
    if up < 1 {
        1
    } else {
        up
    }
}

/// `wanted` brought into `1..=fair`, and `fair` itself where nothing is wanted.
pub open spec fn share(pool: nat, count: nat, wanted: Option<u32>) -> nat {
    match wanted {
        Some(n) => if n < 1 {
            1
        } else if n > fair(pool, count) {
            fair(pool, count)
        } else {
            n as nat
        },
        None => fair(pool, count),
    }
}

/// Whether an exclusive lease is among the admitted.
pub open spec fn exclusive(admitted: Seq<(u64, Admitted)>) -> bool {
    exists|i: int| 0 <= i < admitted.len() && (#[trigger] admitted[i]).1.class == Class::Exclusive
}

/// Tokens to drain for `r` at the head of the queue; `None` while it has to
/// wait.
pub open spec fn target(s: State, r: Request) -> Option<nat> {
    let pool = s.params.pool_size as nat;
    if s.admitted.len() >= s.params.max_concurrent || exclusive(s.admitted) {
        None
    } else {
        match r.class {
            Class::Jobserver => Some(0),
            Class::Static => Some(share(pool, s.admitted.len(), r.cores_wanted)),
            Class::Exclusive => if s.admitted.len() == 0 {
                Some(share(pool, 0, Some(s.params.pool_size)))
            } else {
                None
            },
        }
    }
}

/// The state after the head of the queue was admitted.
pub open spec fn head_admitted(s: State) -> State {
    let r = s.queue[0];
    State {
        queue: s.queue.skip(1),
        admitted: put(
            s.admitted,
            r.id.0,
            Admitted {
                class: r.class,
                cores_held: 0,
                label: r.label,
                share: fair(s.params.pool_size as nat, s.admitted.len()) as u32,
            },
        ),
        ..s
    }
}

/// The state once no head qualifies any more.
pub open spec fn admitted_from_head(s: State) -> State
    decreases s.queue.len(),
{
    if s.queue.len() > 0 && target(s, s.queue[0]) is Some {
        admitted_from_head(head_admitted(s))
    } else {
        s
    }
}

/// The admissions made on the way there, in queue order.
pub open spec fn admissions(s: State) -> Seq<Action>
    decreases s.queue.len(),
{
    if s.queue.len() > 0 && target(s, s.queue[0]) is Some {
        let r = s.queue[0];
        seq![
            Action::Admit {
                id: r.id,
                class: r.class,
                drain_target: target(s, r)->0 as u32,
            },
        ] + admissions(head_admitted(s))
    } else {
        Seq::empty()
    }
}

/// Notifications for the first `n` waiting leases whose position is not the one
/// last reported.
pub open spec fn moved(queue: Seq<Request>, notified: Seq<(u64, usize)>, n: nat) -> Seq<Action>
    decreases n,
{
    if n == 0 {
        Seq::empty()
    } else {
        let k = (n - 1) as nat;
        let id = queue[k as int].id;
        let before = moved(queue, notified, k);
        if holds(notified, id.0) && at(notified, id.0) == k {
            before
        } else {
            before.push(Action::Notify { id, ahead: k as usize })
        }
    }
}

/// The positions of the first `n` waiting leases.
pub open spec fn positions(queue: Seq<Request>, n: nat) -> Seq<(u64, usize)>
    decreases n,
{
    if n == 0 {
        Seq::empty()
    } else {
        put(positions(queue, (n - 1) as nat), queue[n - 1].id.0, (n - 1) as usize)
    }
}

/// The state after the queue was admitted from and reported on.
pub open spec fn settled(s: State) -> State {
    let t = admitted_from_head(s);
    State { notified: positions(t.queue, t.queue.len()), ..t }
}

/// What settling asks for.
pub open spec fn settling(s: State) -> Seq<Action> {
    let t = admitted_from_head(s);
    admissions(s) + moved(t.queue, t.notified, t.queue.len())
}

/// Where `id` first stands in `queue`; its length where it does not.
pub open spec fn place_of(queue: Seq<Request>, id: LeaseId) -> nat
    decreases queue.len(),
{
    if queue.len() == 0 || queue[0].id == id {
        0
    } else {
        1 + place_of(queue.skip(1), id)
    }
}

/// The queue without the first request of `id`.
pub open spec fn unqueued(queue: Seq<Request>, id: LeaseId) -> Seq<Request> {
    if place_of(queue, id) < queue.len() {
        queue.remove(place_of(queue, id) as int)
    } else {
        queue
    }
}

/// What an event does by itself, before the queue is looked at.
pub open spec fn applied(s: State, ev: Event) -> State {
    match ev {
        Event::Submit(r) => State { queue: s.queue.push(r), ..s },
        Event::Started { id, cores_held } => if holds(s.admitted, id.0) {
            State {
                admitted: put(
                    s.admitted,
                    id.0,
                    Admitted { cores_held, ..at(s.admitted, id.0) },
                ),
                ..s
            }
        } else {
            s
        },
        Event::Finished(id) => State { admitted: without(s.admitted, id.0), ..s },
        Event::Cancel(id) => if holds(s.admitted, id.0) {
            State { admitted: without(s.admitted, id.0), ..s }
        } else {
            State { queue: unqueued(s.queue, id), ..s }
        },
        Event::DrainFailed(id) => State { admitted: without(s.admitted, id.0), ..s },
    }
}

/// The teardowns an event asks for.
pub open spec fn drops(s: State, ev: Event) -> Seq<Action> {
    match ev {
        Event::Cancel(id) | Event::DrainFailed(id) => if holds(s.admitted, id.0) {
            seq![Action::Drop(id)]
        } else {
            Seq::empty()
        },
        _ => Seq::empty(),
    }
}

/// The state after `ev`.
pub open spec fn next(s: State, ev: Event) -> State {
    settled(applied(s, ev))
}

/// What `ev` asks for.
pub open spec fn asked(s: State, ev: Event) -> Seq<Action> {
    drops(s, ev) + settling(applied(s, ev))
}

/// Tokens held by the first `n` of `admitted`.
pub open spec fn held(admitted: Seq<(u64, Admitted)>, n: nat) -> nat
    decreases n,
{
    if n == 0 {
        0
    } else {
        held(admitted, (n - 1) as nat) + admitted[n - 1].1.cores_held as nat
    }
}

impl State {
    /// What every reachable state keeps.
    pub open spec fn wf(self) -> bool {
        &&& ascending(self.admitted)
        &&& ascending(self.notified)
        &&& self.admitted.len() <= u32::MAX
    }

    /// Tokens that the admitted leases hold.
    pub open spec fn held(self) -> nat {
        held(self.admitted, self.admitted.len())
    }
}

proof fn lemma_place_of(queue: Seq<Request>, id: LeaseId, i: int)
    requires
        0 <= i <= queue.len(),
        forall|j: int| 0 <= j < i ==> (#[trigger] queue[j]).id != id,
        i < queue.len() ==> queue[i].id == id,
    ensures
        place_of(queue, id) == i,
    decreases queue.len(),
{
    if queue.len() > 0 && queue[0].id != id {
        let t = queue.skip(1);
        assert forall|j: int| 0 <= j < i - 1 implies (#[trigger] t[j]).id != id by {
            assert(t[j] == queue[j + 1]);
        }
        if i < queue.len() {
            assert(t[i - 1] == queue[i]);
        }
        lemma_place_of(t, id, i - 1);
    }
}

proof fn lemma_fair_bound(pool: nat, count: nat)
    ensures
        fair(pool, count) <= pool || fair(pool, count) == 1,
        pool <= u32::MAX ==> fair(pool, count) <= u32::MAX,
{
    let up = (pool + count) / (count + 1);
    assert(up <= pool || up == 0) by (nonlinear_arith)
        requires
            up == (pool + count) / (count + 1),
            pool >= 0,
            count >= 0,
    ;
}

/// First-in-first-out admission. Drive it with [`Scheduler::handle`].
pub struct Scheduler {
    params: Params,
    queue: VecDeque<Request>,
    admitted: Ledger<Admitted>,
    notified: Ledger<usize>,
}

impl View for Scheduler {
    type V = State;

    closed spec fn view(&self) -> State {
        State {
            params: self.params,
            queue: self.queue@,
            admitted: self.admitted@,
            notified: self.notified@,
        }
    }
}

impl Scheduler {
    /// A machine with nothing queued and nothing admitted.
    pub fn new(params: Params) -> (r: Self)
        ensures
            r@ == (State {
                params,
                queue: Seq::empty(),
                admitted: Seq::empty(),
                notified: Seq::empty(),
            }),
            r@.wf(),
    {
        Scheduler {
            params,
            queue: VecDeque::new(),
            admitted: Ledger::new(),
            notified: Ledger::new(),
        }
    }

    /// Feeds one event, and gives the actions that it asks for. An event that
    /// names a lease the machine does not know is ignored.
    pub fn handle(&mut self, ev: Event) -> (r: Vec<Action>)
        requires
            old(self)@.wf(),
        ensures
            final(self)@ == next(old(self)@, ev),
            r@ == asked(old(self)@, ev),
            final(self)@.wf(),
    {
        let ghost before = self@;
        let ghost event = ev;
        let mut actions: Vec<Action> = Vec::new();
        proof {
            match ev {
                Event::Submit(_) => {},
                Event::Started { id, cores_held } => {
                    lemma_put(
                        before.admitted,
                        id.0,
                        Admitted { cores_held, ..at(before.admitted, id.0) },
                    );
                },
                Event::Finished(id) | Event::Cancel(id) | Event::DrainFailed(id) => {
                    lemma_without(before.admitted, id.0);
                },
            }
        }
        match ev {
            Event::Submit(r) => {
                self.queue.push_back(r);
            },
            Event::Started { id, cores_held } => {
                if let Some(lease) = self.admitted.take(id.0) {
                    let lease = Admitted { cores_held, ..lease };
                    proof {
                        lemma_put_again(before.admitted, id.0, lease);
                    }
                    self.admitted.set(id.0, lease);
                }
            },
            Event::Finished(id) => {
                let _ = self.admitted.take(id.0);
            },
            Event::Cancel(id) => {
                match self.admitted.take(id.0) {
                    Some(_) => {
                        actions.push(Action::Drop(id));
                    },
                    None => {
                        self.unqueue(id);
                    },
                }
            },
            Event::DrainFailed(id) => {
                if let Some(_) = self.admitted.take(id.0) {
                    actions.push(Action::Drop(id));
                }
            },
        }
        assert(self@ =~= applied(before, event));
        assert(actions@ =~= drops(before, event));
        let mut more = self.settle();
        actions.append(&mut more);
        actions
    }

    /// Takes the first request of `id` out of the queue.
    fn unqueue(&mut self, id: LeaseId)
        ensures
            final(self)@ == (State { queue: unqueued(old(self)@.queue, id), ..old(self)@ }),
    {
        let mut i: usize = 0;
        while i < self.queue.len() && self.queue[i].id != id
            invariant
                i <= self.queue@.len(),
                forall|j: int| 0 <= j < i ==> (#[trigger] self.queue@[j]).id != id,
            decreases self.queue@.len() - i,
        {
            i = i + 1;
        }
        proof {
            lemma_place_of(self.queue@, id, i as int);
        }
        if i < self.queue.len() {
            let _ = self.queue.remove(i);
        }
    }

    /// Admits from the head of the queue while it qualifies, then reports every
    /// position that changed.
    pub fn settle(&mut self) -> (r: Vec<Action>)
        requires
            old(self)@.wf(),
        ensures
            final(self)@ == settled(old(self)@),
            r@ == settling(old(self)@),
            final(self)@.wf(),
    {
        let mut actions = self.admit_from_head();
        let mut more = self.notify_queue();
        actions.append(&mut more);
        actions
    }

    /// Takes back a lease that is already running, with the tokens it holds.
    pub fn adopt(&mut self, r: Request, cores_held: u32)
        requires
            old(self)@.wf(),
            old(self)@.admitted.len() < u32::MAX,
        ensures
            final(self)@.wf(),
            final(self)@ == (State {
                admitted: put(
                    old(self)@.admitted,
                    r.id.0,
                    Admitted {
                        class: r.class,
                        cores_held,
                        label: r.label,
                        share: fair(
                            old(self)@.params.pool_size as nat,
                            old(self)@.admitted.len(),
                        ) as u32,
                    },
                ),
                ..old(self)@
            }),
    {
        let share = self.fair_share(None);
        proof {
            lemma_put(
                self@.admitted,
                r.id.0,
                Admitted { class: r.class, cores_held, label: r.label, share },
            );
        }
        self.admitted.set(
            r.id.0,
            Admitted { class: r.class, cores_held, label: r.label, share },
        );
    }

    /// What admissions go by.
    pub fn params(&self) -> (r: Params)
        ensures
            r == self@.params,
    {
        self.params
    }

    /// How many leases are admitted.
    pub fn admitted_count(&self) -> (r: usize)
        ensures
            r == self@.admitted.len(),
    {
        self.admitted.len()
    }

    /// The fair share an admitted lease was sized at.
    pub fn share_of(&self, id: LeaseId) -> (r: Option<u32>)
        ensures
            r is Some <==> holds(self@.admitted, id.0),
            r matches Some(n) ==> n == at(self@.admitted, id.0).share,
    {
        match self.admitted.get(id.0) {
            Some(lease) => Some(lease.share),
            None => None,
        }
    }

    /// The queue, the admitted leases and the free tokens as they stand.
    pub fn snapshot(&self) -> (r: Snapshot)
        ensures
            r.queued@ == self@.queue,
            r.admitted@.len() == self@.admitted.len(),
            forall|i: int|
                0 <= i < r.admitted@.len() ==> (#[trigger] r.admitted@[i]) == (AdmittedLease {
                    id: LeaseId(self@.admitted[i].0),
                    class: self@.admitted[i].1.class,
                    cores_held: self@.admitted[i].1.cores_held,
                    label: self@.admitted[i].1.label,
                }),
            r.free_estimate == if self@.params.pool_size >= self@.held() {
                self@.params.pool_size - self@.held()
            } else {
                0
            },
    {
        let mut queued: Vec<Request> = Vec::new();
        let mut i: usize = 0;
        while i < self.queue.len()
            invariant
                i <= self.queue@.len(),
                queued@ == self.queue@.take(i as int),
            decreases self.queue@.len() - i,
        {
            queued.push(self.queue[i].clone());
            i = i + 1;
            assert(self.queue@.take(i as int) =~= self.queue@.take(i - 1).push(
                self.queue@[i - 1],
            ));
        }
        let mut admitted: Vec<AdmittedLease> = Vec::new();
        let mut total: u32 = 0;
        let mut j: usize = 0;
        while j < self.admitted.len()
            invariant
                j <= self.admitted@.len(),
                admitted@.len() == j,
                forall|k: int|
                    0 <= k < j ==> (#[trigger] admitted@[k]) == (AdmittedLease {
                        id: LeaseId(self.admitted@[k].0),
                        class: self.admitted@[k].1.class,
                        cores_held: self.admitted@[k].1.cores_held,
                        label: self.admitted@[k].1.label,
                    }),
                total == if held(self.admitted@, j as nat) <= u32::MAX {
                    held(self.admitted@, j as nat)
                } else {
                    u32::MAX as nat
                },
            decreases self.admitted@.len() - j,
        {
            let lease = self.admitted.value(j);
            total = total.saturating_add(lease.cores_held);
            admitted.push(
                AdmittedLease {
                    id: LeaseId(self.admitted.key(j)),
                    class: lease.class,
                    cores_held: lease.cores_held,
                    label: lease.label.clone(),
                },
            );
            j = j + 1;
        }
        Snapshot { queued, admitted, free_estimate: self.params.pool_size.saturating_sub(total) }
    }

    /// New parameters. Held tokens are never revoked: a smaller pool only
    /// affects later admissions and the free estimate.
    pub fn set_params(&mut self, p: Params)
        ensures
            final(self)@ == (State { params: p, ..old(self)@ }),
    {
        self.params = p;
    }

    fn admit_from_head(&mut self) -> (r: Vec<Action>)
        requires
            old(self)@.wf(),
        ensures
            final(self)@ == admitted_from_head(old(self)@),
            r@ == admissions(old(self)@),
            final(self)@.wf(),
    {
        let ghost start = self@;
        let mut actions: Vec<Action> = Vec::new();
        let mut head = self.head_target();
        while head.is_some()
            invariant
                self@.wf(),
                head is Some <==> self@.queue.len() > 0 && target(self@, self@.queue[0]) is Some,
                head matches Some(n) ==> n == target(self@, self@.queue[0])->0,
                admitted_from_head(start) == admitted_from_head(self@),
                admissions(start) == actions@ + admissions(self@),
            decreases self@.queue.len(),
        {
            let drain_target = head.unwrap();
            let ghost here = self@;
            let share = self.fair_share(None);
            match self.queue.pop_front() {
                Some(r) => {
                    let id = r.id;
                    let class = r.class;
                    let lease = Admitted { class, cores_held: 0, label: r.label, share };
                    proof {
                        lemma_put(here.admitted, id.0, lease);
                    }
                    actions.push(Action::Admit { id, class, drain_target });
                    self.admitted.set(id.0, lease);
                    assert(self@ =~= head_admitted(here)) by {
                        assert(self@.queue =~= here.queue.skip(1));
                    }
                },
                None => {},
            }
            head = self.head_target();
        }
        assert(actions@ + admissions(self@) =~= actions@);
        actions
    }

    /// The drain target of the head of the queue, while it qualifies.
    fn head_target(&self) -> (r: Option<u32>)
        requires
            self@.wf(),
        ensures
            r is Some <==> self@.queue.len() > 0 && target(self@, self@.queue[0]) is Some,
            r matches Some(n) ==> n == target(self@, self@.queue[0])->0,
    {
        if self.queue.len() == 0 {
            None
        } else {
            self.drain_target(&self.queue[0])
        }
    }

    /// Tokens to drain for `r`, or `None` while it cannot be admitted.
    fn drain_target(&self, r: &Request) -> (n: Option<u32>)
        requires
            self@.wf(),
        ensures
            n is Some <==> target(self@, *r) is Some,
            n matches Some(t) ==> t == target(self@, *r)->0,
    {
        if self.admitted.len() as u32 >= self.params.max_concurrent {
            return None;
        }
        let mut i: usize = 0;
        while i < self.admitted.len()
            invariant
                i <= self.admitted@.len(),
                forall|j: int|
                    0 <= j < i ==> (#[trigger] self.admitted@[j]).1.class != Class::Exclusive,
            decreases self.admitted@.len() - i,
        {
            if self.admitted.value(i).class == Class::Exclusive {
                assert(self@.admitted[i as int].1.class == Class::Exclusive);
                return None;
            }
            i = i + 1;
        }
        match r.class {
            Class::Jobserver => Some(0),
            Class::Static => Some(self.fair_share(r.cores_wanted)),
            Class::Exclusive => if self.admitted.len() == 0 {
                Some(self.fair_share(Some(self.params.pool_size)))
            } else {
                None
            },
        }
    }

    fn fair_share(&self, cores_wanted: Option<u32>) -> (r: u32)
        requires
            self@.admitted.len() < u32::MAX,
        ensures
            r == share(self@.params.pool_size as nat, self@.admitted.len(), cores_wanted),
            share(self@.params.pool_size as nat, self@.admitted.len(), None)
                <= u32::MAX,
    {
        let count = self.admitted.len() as u64;
        let pool = self.params.pool_size as u64;
        proof {
            lemma_fair_bound(pool as nat, count as nat);
        }
        let up = (pool + count) / (count + 1);
        let fair: u32 = if up < 1 {
            1
        } else {
            up as u32
        };
        match cores_wanted {
            Some(n) => if n < 1 {
                1
            } else if n > fair {
                fair
            } else {
                n
            },
            None => fair,
        }
    }

    fn notify_queue(&mut self) -> (r: Vec<Action>)
        requires
            old(self)@.wf(),
        ensures
            final(self)@ == (State {
                notified: positions(old(self)@.queue, old(self)@.queue.len()),
                ..old(self)@
            }),
            r@ == moved(old(self)@.queue, old(self)@.notified, old(self)@.queue.len()),
            final(self)@.wf(),
    {
        let mut actions: Vec<Action> = Vec::new();
        let mut notified: Ledger<usize> = Ledger::new();
        let mut ahead: usize = 0;
        while ahead < self.queue.len()
            invariant
                ahead <= self.queue@.len(),
                notified@ == positions(self.queue@, ahead as nat),
                ascending(notified@),
                actions@ == moved(self.queue@, self.notified@, ahead as nat),
            decreases self.queue@.len() - ahead,
        {
            let id = self.queue[ahead].id;
            let known = match self.notified.get(id.0) {
                Some(n) => *n == ahead,
                None => false,
            };
            if !known {
                actions.push(Action::Notify { id, ahead });
            }
            notified.set(id.0, ahead);
            ahead = ahead + 1;
        }
        self.notified = notified;
        actions
    }
}

/// A state in which the head of the queue, if there is one, has to wait.
pub open spec fn blocked(s: State) -> bool {
    s.queue.len() > 0 ==> target(s, s.queue[0]) is None
}

/// At most one exclusive lease is admitted, and then nothing else is.
pub open spec fn alone(s: State) -> bool {
    exclusive(s.admitted) ==> s.admitted.len() == 1
}

/// Whether no two waiting leases have the same id.
pub open spec fn distinct(queue: Seq<Request>) -> bool {
    forall|i: int, j: int|
        0 <= i < j < queue.len() ==> (#[trigger] queue[i]).id != (#[trigger] queue[j]).id
}

/// Where an action stands in the order in which they are asked for.
pub open spec fn order(a: Action) -> int {
    match a {
        Action::Drop(_) => 0,
        Action::Admit { .. } => 1,
        Action::Notify { .. } => 2,
    }
}

/// What an admission asks for: the lease at place `i` of the queue.
pub open spec fn admits(a: Action, queue: Seq<Request>, i: int) -> bool {
    a matches Action::Admit { id, class, drain_target } && id == queue[i].id && class
        == queue[i].class
}

/// First in, first out: the leases admitted are the first ones of the queue, in
/// its order, and the rest stays queued as it was.
pub proof fn law_first_in_first_out(s: State)
    ensures
        admissions(s).len() <= s.queue.len(),
        admitted_from_head(s).queue == s.queue.skip(admissions(s).len() as int),
        forall|i: int|
            0 <= i < admissions(s).len() ==> admits(#[trigger] admissions(s)[i], s.queue, i),
    decreases s.queue.len(),
{
    if s.queue.len() > 0 && target(s, s.queue[0]) is Some {
        let t = head_admitted(s);
        law_first_in_first_out(t);
        let n = admissions(s).len() as int;
        assert(t.queue.skip(n - 1) =~= s.queue.skip(n));
        assert forall|i: int| 0 <= i < n implies admits(
            #[trigger] admissions(s)[i],
            s.queue,
            i,
        ) by {
            if i > 0 {
                assert(admissions(s)[i] == admissions(t)[i - 1]);
                assert(admits(admissions(t)[i - 1], t.queue, i - 1));
                assert(t.queue[i - 1] == s.queue[i]);
            }
        }
    } else {
        assert(s.queue.skip(0) =~= s.queue);
    }
}

/// Head-of-line blocking: once an event is dealt with, what is left waiting
/// starts with a lease that may not be admitted.
pub proof fn law_only_a_blocked_head_waits(s: State, ev: Event)
    ensures
        blocked(next(s, ev)),
{
    lemma_blocked(applied(s, ev));
    let t = admitted_from_head(applied(s, ev));
    if t.queue.len() > 0 {
        assert(target(next(s, ev), t.queue[0]) == target(t, t.queue[0]));
    }
}

proof fn lemma_blocked(s: State)
    ensures
        blocked(admitted_from_head(s)),
        admitted_from_head(s).params == s.params,
        admitted_from_head(s).notified == s.notified,
    decreases s.queue.len(),
{
    if s.queue.len() > 0 && target(s, s.queue[0]) is Some {
        lemma_blocked(head_admitted(s));
    }
}

/// No event changes the parameters, and neither does settling.
pub proof fn law_events_keep_the_parameters(s: State, ev: Event)
    ensures
        next(s, ev).params == s.params,
        settled(s).params == s.params,
{
    lemma_blocked(applied(s, ev));
    lemma_blocked(s);
}

/// No event takes the number of admitted leases past `max_concurrent`: it stays
/// within it, or within what it was when that was already more.
pub proof fn law_admitted_leases_stay_within_the_limit(s: State, ev: Event)
    requires
        s.wf(),
    ensures
        next(s, ev).admitted.len() <= s.params.max_concurrent || next(s, ev).admitted.len()
            <= s.admitted.len(),
{
    lemma_applied(s, ev);
    lemma_limit(applied(s, ev));
}

proof fn lemma_applied(s: State, ev: Event)
    requires
        s.wf(),
    ensures
        applied(s, ev).wf(),
        applied(s, ev).admitted.len() <= s.admitted.len(),
        applied(s, ev).params == s.params,
        alone(s) ==> alone(applied(s, ev)),
{
    match ev {
        Event::Submit(_) => {},
        Event::Started { id, cores_held } => {
            let v = Admitted { cores_held, ..at(s.admitted, id.0) };
            lemma_put(s.admitted, id.0, v);
            lemma_exclusive(s.admitted, id.0, v);
        },
        Event::Finished(id) | Event::Cancel(id) | Event::DrainFailed(id) => {
            lemma_without(s.admitted, id.0);
            lemma_exclusive(s.admitted, id.0, arbitrary());
        },
    }
}

proof fn lemma_exclusive(s: Seq<(u64, Admitted)>, k: u64, v: Admitted)
    ensures
        exclusive(without(s, k)) ==> exclusive(s),
        exclusive(put(s, k, v)) ==> exclusive(s) || v.class == Class::Exclusive,
        holds(s, k) && at(s, k).class == Class::Exclusive ==> exclusive(s),
{
    let p = crate::ledger::rank(s, k) as int;
    crate::ledger::lemma_rank(s, k);
    let t = without(s, k);
    if exclusive(t) {
        let i = choose|i: int| 0 <= i < t.len() && (#[trigger] t[i]).1.class == Class::Exclusive;
        let from = if !holds(s, k) || i < p { i } else { i + 1 };
        assert(s[from] == t[i]);
    }
    let u = put(s, k, v);
    if exclusive(u) && v.class != Class::Exclusive {
        let i = choose|i: int| 0 <= i < u.len() && (#[trigger] u[i]).1.class == Class::Exclusive;
        let from = if holds(s, k) || i < p { i } else { i - 1 };
        assert(s[from] == u[i]);
    }
    if holds(s, k) {
        assert(s[p].1 == at(s, k));
    }
}

proof fn lemma_limit(s: State)
    requires
        s.wf(),
    ensures
        admitted_from_head(s).wf(),
        admitted_from_head(s).admitted.len() <= s.params.max_concurrent || admitted_from_head(
            s,
        ).admitted.len() <= s.admitted.len(),
        alone(s) ==> alone(admitted_from_head(s)),
    decreases s.queue.len(),
{
    if s.queue.len() > 0 && target(s, s.queue[0]) is Some {
        let t = head_admitted(s);
        let r = s.queue[0];
        let v = Admitted {
            class: r.class,
            cores_held: 0,
            label: r.label,
            share: fair(s.params.pool_size as nat, s.admitted.len()) as u32,
        };
        lemma_put(s.admitted, r.id.0, v);
        lemma_exclusive(s.admitted, r.id.0, v);
        lemma_limit(t);
    }
}

/// An exclusive lease has the machine to itself: where that holds, no event
/// ends it, and neither does a change of parameters.
pub proof fn law_an_exclusive_lease_is_alone(s: State, ev: Event, p: Params)
    requires
        s.wf(),
        alone(s),
    ensures
        alone(next(s, ev)),
        alone(State { params: p, ..s }),
        alone(settled(State { params: p, ..s })),
{
    lemma_applied(s, ev);
    lemma_limit(applied(s, ev));
    lemma_limit(State { params: p, ..s });
}

/// What an admission drains: nothing for a jobserver lease; for any other at
/// least one token and at most the fair share, which is within the pool.
pub proof fn law_a_drain_target_is_a_fair_share(s: State, r: Request)
    requires
        target(s, r) is Some,
    ensures
        r.class == Class::Jobserver ==> target(s, r)->0 == 0,
        r.class != Class::Jobserver ==> 1 <= target(s, r)->0 <= fair(
            s.params.pool_size as nat,
            s.admitted.len(),
        ),
        s.params.pool_size >= 1 ==> target(s, r)->0 <= s.params.pool_size,
        r.class == Class::Exclusive && s.params.pool_size >= 1 ==> target(s, r)->0
            == s.params.pool_size,
{
    lemma_fair_bound(s.params.pool_size as nat, s.admitted.len());
    if s.admitted.len() == 0 {
        assert((s.params.pool_size as nat + 0) / 1 == s.params.pool_size);
    }
}

/// Actions come in order: drops, admissions, notifications.
pub proof fn law_actions_come_in_order(s: State, ev: Event)
    ensures
        forall|i: int, j: int|
            0 <= i < j < asked(s, ev).len() ==> order(#[trigger] asked(s, ev)[i]) <= order(
                #[trigger] asked(s, ev)[j],
            ),
{
    let t = applied(s, ev);
    let u = admitted_from_head(t);
    law_first_in_first_out(t);
    lemma_moved(u.queue, u.notified, u.queue.len());
    let a = drops(s, ev);
    let b = admissions(t);
    let c = moved(u.queue, u.notified, u.queue.len());
    assert forall|i: int| 0 <= i < asked(s, ev).len() implies order(#[trigger] asked(s, ev)[i])
        == (if i < a.len() {
        0int
    } else if i < a.len() + b.len() {
        1int
    } else {
        2int
    }) by {
        if a.len() <= i < a.len() + b.len() {
            assert(admits(b[i - a.len()], t.queue, i - a.len()));
        }
        if a.len() + b.len() <= i {
            assert(order(c[i - a.len() - b.len()]) == 2);
        }
    }
}

proof fn lemma_moved(queue: Seq<Request>, notified: Seq<(u64, usize)>, n: nat)
    ensures
        forall|i: int|
            0 <= i < moved(queue, notified, n).len() ==> order(
                #[trigger] moved(queue, notified, n)[i],
            ) == 2,
    decreases n,
{
    if n > 0 {
        let k = (n - 1) as nat;
        lemma_moved(queue, notified, k);
        let before = moved(queue, notified, k);
        let all = moved(queue, notified, n);
        assert forall|i: int| 0 <= i < all.len() implies order(#[trigger] all[i]) == 2 by {
            if i < before.len() {
                assert(all[i] == before[i]);
            }
        }
    }
}

/// After an event every waiting lease has been told its position: the one last
/// reported is where it stands. A lease that did not move is told nothing.
pub proof fn law_every_waiting_lease_knows_its_position(s: State, ev: Event, i: int)
    requires
        distinct(next(s, ev).queue),
        next(s, ev).queue.len() <= usize::MAX,
        0 <= i < next(s, ev).queue.len(),
    ensures
        holds(next(s, ev).notified, next(s, ev).queue[i].id.0),
        at(next(s, ev).notified, next(s, ev).queue[i].id.0) == i,
{
    let queue = next(s, ev).queue;
    lemma_positions(queue, queue.len());
}

proof fn lemma_positions(queue: Seq<Request>, n: nat)
    requires
        n <= queue.len() <= usize::MAX,
        distinct(queue),
    ensures
        ascending(positions(queue, n)),
        forall|i: int|
            0 <= i < n ==> holds(positions(queue, n), (#[trigger] queue[i]).id.0) && at(
                positions(queue, n),
                queue[i].id.0,
            ) == i,
    decreases n,
{
    if n > 0 {
        let k = (n - 1) as nat;
        lemma_positions(queue, k);
        lemma_put(positions(queue, k), queue[k as int].id.0, k as usize);
        assert forall|i: int| 0 <= i < n implies holds(
            positions(queue, n),
            (#[trigger] queue[i]).id.0,
        ) && at(positions(queue, n), queue[i].id.0) == i by {
            if i < k {
                assert(queue[i].id != queue[k as int].id);
                assert(holds(positions(queue, k), queue[i].id.0));
            }
        }
    }
}

/// An event that names no lease the machine knows changes nothing and asks for
/// nothing, once the machine has settled.
pub proof fn law_an_unknown_lease_is_ignored(s: State, ev: Event)
    requires
        distinct(s.queue),
        s.queue.len() <= usize::MAX,
        blocked(s),
        s.notified == positions(s.queue, s.queue.len()),
        match ev {
            Event::Submit(_) => false,
            Event::Started { id, .. } | Event::Finished(id) | Event::DrainFailed(id) => !holds(
                s.admitted,
                id.0,
            ),
            Event::Cancel(id) => !holds(s.admitted, id.0) && forall|i: int|
                0 <= i < s.queue.len() ==> (#[trigger] s.queue[i]).id != id,
        },
    ensures
        next(s, ev) == s,
        asked(s, ev) == Seq::<Action>::empty(),
{
    if let Event::Cancel(id) = ev {
        lemma_place_of(s.queue, id, s.queue.len() as int);
    }
    assert(applied(s, ev) =~= s);
    lemma_positions(s.queue, s.queue.len());
    lemma_unmoved(s.queue, s.notified, s.queue.len());
}

proof fn lemma_unmoved(queue: Seq<Request>, notified: Seq<(u64, usize)>, n: nat)
    requires
        n <= queue.len(),
        forall|i: int|
            0 <= i < n ==> holds(notified, (#[trigger] queue[i]).id.0) && at(
                notified,
                queue[i].id.0,
            ) == i,
    ensures
        moved(queue, notified, n) == Seq::<Action>::empty(),
    decreases n,
{
    if n > 0 {
        lemma_unmoved(queue, notified, (n - 1) as nat);
        assert(holds(notified, queue[n - 1].id.0));
    }
}

/// A submitted lease is not lost: it is admitted at once or waits at the end of
/// the queue.
pub proof fn law_a_submitted_lease_is_admitted_or_waits(s: State, r: Request)
    ensures
        ({
            let queue = s.queue.push(r);
            let n = admissions(applied(s, Event::Submit(r))).len() as int;
            &&& n <= queue.len()
            &&& next(s, Event::Submit(r)).queue == queue.skip(n)
            &&& n == queue.len() ==> exists|i: int|
                0 <= i < asked(s, Event::Submit(r)).len() && admits(
                    #[trigger] asked(s, Event::Submit(r))[i],
                    seq![r],
                    0,
                )
        }),
{
    let t = applied(s, Event::Submit(r));
    law_first_in_first_out(t);
    let n = admissions(t).len() as int;
    let all = asked(s, Event::Submit(r));
    if n == t.queue.len() {
        assert(all[n - 1] == admissions(t)[n - 1]);
        assert(admits(admissions(t)[n - 1], t.queue, n - 1));
        assert(t.queue[n - 1] == r);
    }
}

/// A call of the machine.
pub enum Call {
    /// [`Scheduler::handle`].
    Handle(Event),
    /// [`Scheduler::settle`].
    Settle,
    /// [`Scheduler::set_params`].
    SetParams(Params),
    /// [`Scheduler::adopt`].
    Adopt(Request, u32),
}

/// The state after a call.
pub open spec fn called(s: State, call: Call) -> State {
    match call {
        Call::Handle(ev) => next(s, ev),
        Call::Settle => settled(s),
        Call::SetParams(params) => State { params, ..s },
        Call::Adopt(r, cores_held) => State {
            admitted: put(
                s.admitted,
                r.id.0,
                Admitted {
                    class: r.class,
                    cores_held,
                    label: r.label,
                    share: fair(s.params.pool_size as nat, s.admitted.len()) as u32,
                },
            ),
            ..s
        },
    }
}

/// What a call returns.
pub open spec fn returned(s: State, call: Call) -> Seq<Action> {
    match call {
        Call::Handle(ev) => asked(s, ev),
        Call::Settle => settling(s),
        Call::SetParams(_) | Call::Adopt(..) => Seq::empty(),
    }
}

/// The state of a machine made with `params`, after `calls`.
pub open spec fn run(params: Params, calls: Seq<Call>) -> State
    decreases calls.len(),
{
    if calls.len() == 0 {
        State { params, queue: Seq::empty(), admitted: Seq::empty(), notified: Seq::empty() }
    } else {
        called(run(params, calls.drop_last()), calls.last())
    }
}

/// The position in the last notification of `id` among `actions`.
pub open spec fn reported(actions: Seq<Action>, id: LeaseId) -> Option<usize>
    decreases actions.len(),
{
    if actions.len() == 0 {
        None
    } else {
        match actions.last() {
            Action::Notify { id: of, ahead } => if of == id {
                Some(ahead)
            } else {
                reported(actions.drop_last(), id)
            },
            _ => reported(actions.drop_last(), id),
        }
    }
}

/// Whether a call submits a lease of this id.
pub open spec fn submits(call: Call, id: LeaseId) -> bool {
    call matches Call::Handle(Event::Submit(r)) && r.id == id
}

/// The position in the last notification that `calls` returned for `id` since it was
/// submitted.
pub open spec fn last_told(params: Params, calls: Seq<Call>, id: LeaseId) -> Option<usize>
    decreases calls.len(),
{
    if calls.len() == 0 {
        None
    } else {
        let before = calls.drop_last();
        match reported(returned(run(params, before), calls.last()), id) {
            Some(ahead) => Some(ahead),
            None => if submits(calls.last(), id) {
                None
            } else {
                last_told(params, before, id)
            },
        }
    }
}

/// Whether `calls` submit a lease of this id.
pub open spec fn submitted(calls: Seq<Call>, id: LeaseId) -> bool {
    exists|i: int| 0 <= i < calls.len() && submits(#[trigger] calls[i], id)
}

/// Whether no two leases are submitted under one id.
pub open spec fn unique_ids(calls: Seq<Call>) -> bool {
    forall|i: int, j: int, id: LeaseId|
        0 <= i < j < calls.len() ==> !(#[trigger] submits(calls[i], id) && #[trigger] submits(
            calls[j],
            id,
        ))
}

/// Whether the queue always fits in memory.
pub open spec fn queue_fits(params: Params, calls: Seq<Call>) -> bool
    decreases calls.len(),
{
    run(params, calls).queue.len() <= usize::MAX && (calls.len() > 0 ==> queue_fits(
        params,
        calls.drop_last(),
    ))
}

/// Whether of two notifications the first has fewer leases ahead, and is another
/// lease's.
pub open spec fn in_queue_order(a: Action, b: Action) -> bool {
    a matches Action::Notify { id, ahead } ==> (b matches Action::Notify {
        id: other,
        ahead: behind,
    } ==> ahead < behind && id != other)
}

/// A lease is told its position exactly when it moved: over any calls with unique ids, a
/// call returns a notification if and only if the lease then stands there and its last
/// notification since it was submitted, if any, said otherwise. Notifications come in
/// the order of the queue, at most one for each lease.
pub proof fn law_a_lease_is_told_exactly_when_it_moved(
    params: Params,
    calls: Seq<Call>,
    call: Call,
)
    requires
        unique_ids(calls.push(call)),
        queue_fits(params, calls.push(call)),
    ensures
        forall|id: LeaseId, ahead: usize|
            #![trigger returned(run(params, calls), call).contains(Action::Notify { id, ahead })]
            returned(run(params, calls), call).contains(Action::Notify { id, ahead }) <==> {
                let queue = run(params, calls.push(call)).queue;
                &&& ahead < queue.len()
                &&& queue[ahead as int].id == id
                &&& last_told(params, calls, id) != Some(ahead)
            },
        forall|i: int, j: int|
            0 <= i < j < returned(run(params, calls), call).len() ==> in_queue_order(
                #[trigger] returned(run(params, calls), call)[i],
                #[trigger] returned(run(params, calls), call)[j],
            ),
{
    let s = run(params, calls);
    let all = calls.push(call);
    assert(all.drop_last() =~= calls);
    let t = run(params, all);
    assert(t == called(s, call));
    lemma_unique_before(calls, call);
    reveal_with_fuel(queue_fits, 2);
    lemma_history(params, calls);
    if call is Handle || call is Settle {
        lemma_told(params, calls, call);
    } else {
        assert forall|id: LeaseId, ahead: usize|
            #![trigger returned(s, call).contains(Action::Notify { id, ahead })]
            returned(s, call).contains(Action::Notify { id, ahead }) <==> (ahead < t.queue.len()
                && t.queue[ahead as int].id == id && last_told(params, calls, id) != Some(
                ahead,
            )) by {
            if ahead < t.queue.len() && t.queue[ahead as int].id == id {
                assert(last_told(params, calls, s.queue[ahead as int].id) == Some(ahead));
            }
        }
    }
}

/// Whether a lease of this id waits.
spec fn waits(queue: Seq<Request>, id: LeaseId) -> bool {
    exists|j: int| 0 <= j < queue.len() && (#[trigger] queue[j]).id == id
}

proof fn lemma_unique_before(calls: Seq<Call>, call: Call)
    requires
        unique_ids(calls.push(call)),
    ensures
        unique_ids(calls),
        forall|id: LeaseId| #[trigger] submits(call, id) ==> !submitted(calls, id),
        forall|id: LeaseId| #[trigger]
            submitted(calls.push(call), id) <==> submitted(calls, id) || submits(call, id),
{
    let all = calls.push(call);
    assert forall|i: int, j: int, id: LeaseId| 0 <= i < j < calls.len() implies !(
    #[trigger] submits(calls[i], id) && #[trigger] submits(calls[j], id)) by {
        assert(all[i] == calls[i] && all[j] == calls[j]);
        assert(!(submits(all[i], id) && submits(all[j], id)));
    }
    assert forall|id: LeaseId| #[trigger] submits(call, id) implies !submitted(calls, id) by {
        if submitted(calls, id) {
            let i = choose|i: int| 0 <= i < calls.len() && submits(#[trigger] calls[i], id);
            assert(all[i] == calls[i]);
            assert(all[calls.len() as int] == call);
            assert(!(submits(all[i], id) && submits(all[calls.len() as int], id)));
        }
    }
    assert forall|id: LeaseId| #[trigger] submitted(all, id) <==> submitted(calls, id) || submits(
        call,
        id,
    ) by {
        if submitted(calls, id) {
            let i = choose|i: int| 0 <= i < calls.len() && submits(#[trigger] calls[i], id);
            assert(submits(all[i], id));
        }
        if submits(call, id) {
            assert(submits(all[calls.len() as int], id));
        }
        if submitted(all, id) {
            let i = choose|i: int| 0 <= i < all.len() && submits(#[trigger] all[i], id);
            if i < calls.len() {
                assert(submits(calls[i], id));
            }
        }
    }
}

proof fn lemma_positions_only(queue: Seq<Request>, n: nat, id: LeaseId) -> (i: int)
    requires
        n <= queue.len() <= usize::MAX,
        distinct(queue),
        holds(positions(queue, n), id.0),
    ensures
        0 <= i < n,
        queue[i].id == id,
    decreases n,
{
    let k = (n - 1) as nat;
    if queue[k as int].id == id {
        k as int
    } else {
        let before = positions(queue, k);
        lemma_positions(queue, k);
        lemma_put(before, queue[k as int].id.0, k as usize);
        assert(holds(before, id.0));
        lemma_positions_only(queue, k, id)
    }
}

proof fn lemma_moved_exactly(queue: Seq<Request>, notified: Seq<(u64, usize)>, n: nat)
    requires
        n <= queue.len() <= usize::MAX,
        distinct(queue),
    ensures
        forall|id: LeaseId, ahead: usize| #[trigger]
            moved(queue, notified, n).contains(Action::Notify { id, ahead }) <==> ahead < n
                && queue[ahead as int].id == id && !(holds(notified, id.0) && at(notified, id.0)
                == ahead),
        forall|id: LeaseId|
            (#[trigger] reported(moved(queue, notified, n), id)) matches Some(ahead) ==> ahead < n
                && queue[ahead as int].id == id && !(holds(notified, id.0) && at(notified, id.0)
                == ahead),
        forall|k: int|
            0 <= k < n && !(holds(notified, (#[trigger] queue[k]).id.0) && at(
                notified,
                queue[k].id.0,
            ) == k) ==> reported(moved(queue, notified, n), queue[k].id) == Some(k as usize),
        forall|i: int|
            0 <= i < moved(queue, notified, n).len() ==> (#[trigger] moved(
                queue,
                notified,
                n,
            )[i]) is Notify,
        forall|i: int, j: int|
            0 <= i < j < moved(queue, notified, n).len() ==> in_queue_order(
                #[trigger] moved(queue, notified, n)[i],
                #[trigger] moved(queue, notified, n)[j],
            ),
    decreases n,
{
    if n > 0 {
        let k = (n - 1) as nat;
        lemma_moved_exactly(queue, notified, k);
        let before = moved(queue, notified, k);
        let all = moved(queue, notified, n);
        let id = queue[k as int].id;
        if !(holds(notified, id.0) && at(notified, id.0) == k) {
            let a = Action::Notify { id, ahead: k as usize };
            assert(all == before.push(a));
            assert(all.drop_last() =~= before);
            assert(all[before.len() as int] == a);
            assert forall|other: LeaseId| #[trigger] reported(all, other) == (if other == id {
                Some(k as usize)
            } else {
                reported(before, other)
            }) by {}
            assert forall|other: LeaseId, ahead: usize| #[trigger]
                all.contains(Action::Notify { id: other, ahead }) <==> before.contains(
                    Action::Notify { id: other, ahead },
                ) || (other == id && ahead == k) by {
                let b = Action::Notify { id: other, ahead };
                if before.contains(b) {
                    let i = choose|i: int| 0 <= i < before.len() && before[i] == b;
                    assert(all[i] == b);
                }
            }
            assert forall|i: int, j: int| 0 <= i < j < all.len() implies in_queue_order(
                #[trigger] all[i],
                #[trigger] all[j],
            ) by {
                assert(all[i] == before[i]);
                if j < before.len() {
                    assert(all[j] == before[j]);
                } else if let Action::Notify { id: other, ahead } = before[i] {
                    assert(before.contains(Action::Notify { id: other, ahead }));
                    assert(queue[ahead as int].id != queue[k as int].id);
                }
            }
            assert forall|i: int| 0 <= i < n && !(holds(notified, (#[trigger] queue[i]).id.0)
                && at(notified, queue[i].id.0) == i) implies reported(all, queue[i].id) == Some(
                i as usize,
            ) by {
                if i < k {
                    assert(queue[i].id != queue[k as int].id);
                }
            }
        }
    }
}

/// Notifications behind other actions are what is reported.
proof fn lemma_reported_behind(a: Seq<Action>, b: Seq<Action>, id: LeaseId)
    requires
        forall|i: int| 0 <= i < a.len() ==> !((#[trigger] a[i]) is Notify),
    ensures
        reported(a + b, id) == reported(b, id),
    decreases a.len() + b.len(),
{
    let all = a + b;
    if b.len() > 0 {
        assert(all.last() == b.last());
        assert(all.drop_last() =~= a + b.drop_last());
        lemma_reported_behind(a, b.drop_last(), id);
    } else if a.len() > 0 {
        assert(all.last() == a.last());
        assert(all.drop_last() =~= a.drop_last() + b);
        assert(!(a[a.len() - 1] is Notify));
        lemma_reported_behind(a.drop_last(), b, id);
    }
}

/// What every history with unique ids keeps: the positions on record are those of the
/// queue, and those that were last returned.
spec fn history(params: Params, calls: Seq<Call>) -> bool {
    let s = run(params, calls);
    &&& s.notified == positions(s.queue, s.queue.len())
    &&& distinct(s.queue)
    &&& forall|k: int|
        0 <= k < s.queue.len() ==> submitted(calls, (#[trigger] s.queue[k]).id) && last_told(
            params,
            calls,
            s.queue[k].id,
        ) == Some(k as usize)
    &&& forall|id: LeaseId| (#[trigger] last_told(params, calls, id)) is Some ==> submitted(
        calls,
        id,
    )
}

proof fn lemma_history(params: Params, calls: Seq<Call>)
    requires
        unique_ids(calls),
        queue_fits(params, calls),
    ensures
        history(params, calls),
    decreases calls.len(),
{
    if calls.len() > 0 {
        let before = calls.drop_last();
        assert(before.push(calls.last()) =~= calls);
        lemma_unique_before(before, calls.last());
        reveal_with_fuel(queue_fits, 2);
        lemma_history(params, before);
        lemma_step(params, before, calls.last());
    }
}

/// The leases that wait before a call looks at the queue are those that waited, and the
/// one submitted.
proof fn lemma_waiting(params: Params, calls: Seq<Call>, call: Call, u: State)
    requires
        unique_ids(calls.push(call)),
        history(params, calls),
        match call {
            Call::Handle(ev) => u == applied(run(params, calls), ev),
            Call::Settle => u == run(params, calls),
            _ => false,
        },
    ensures
        u.notified == run(params, calls).notified,
        distinct(u.queue),
        forall|k: int|
            0 <= k < u.queue.len() ==> submits(call, (#[trigger] u.queue[k]).id) || waits(
                run(params, calls).queue,
                u.queue[k].id,
            ),
{
    let s = run(params, calls);
    lemma_unique_before(calls, call);
    match call {
        Call::Handle(Event::Submit(r)) => {
            assert(submits(call, r.id));
            assert forall|k: int| 0 <= k < u.queue.len() implies submits(
                call,
                (#[trigger] u.queue[k]).id,
            ) || waits(s.queue, u.queue[k].id) by {
                if k < s.queue.len() {
                    assert(s.queue[k].id == u.queue[k].id);
                }
            }
            assert forall|i: int, j: int| 0 <= i < j < u.queue.len() implies (
            #[trigger] u.queue[i]).id != (#[trigger] u.queue[j]).id by {
                assert(u.queue[i] == s.queue[i]);
                if j < s.queue.len() {
                    assert(u.queue[j] == s.queue[j]);
                }
            }
        },
        Call::Handle(Event::Cancel(id)) => {
            let p = place_of(s.queue, id) as int;
            assert forall|k: int| 0 <= k < u.queue.len() implies waits(
                s.queue,
                (#[trigger] u.queue[k]).id,
            ) by {
                if u.queue.len() == s.queue.len() || k < p {
                    assert(s.queue[k].id == u.queue[k].id);
                } else {
                    assert(s.queue[k + 1].id == u.queue[k].id);
                }
            }
            assert forall|i: int, j: int| 0 <= i < j < u.queue.len() implies (
            #[trigger] u.queue[i]).id != (#[trigger] u.queue[j]).id by {
                let removed = u.queue.len() < s.queue.len();
                let a = if removed && i >= p { i + 1 } else { i };
                let b = if removed && j >= p { j + 1 } else { j };
                assert(u.queue[i] == s.queue[a] && u.queue[j] == s.queue[b]);
            }
        },
        _ => {
            assert(u.queue == s.queue);
            assert forall|k: int| 0 <= k < u.queue.len() implies waits(
                s.queue,
                (#[trigger] u.queue[k]).id,
            ) by {
                assert(s.queue[k].id == u.queue[k].id);
            }
        },
    }
}

/// Whether the position on record for the lease at place `k` is the one it was last
/// told.
spec fn on_record(params: Params, calls: Seq<Call>, call: Call, queue: Seq<Request>, k: int) -> bool {
    let id = queue[k].id;
    let notified = run(params, calls).notified;
    &&& (holds(notified, id.0) && at(notified, id.0) == k) <==> last_told(params, calls, id)
        == Some(k as usize)
    &&& submits(call, id) || submitted(calls, id)
}

/// What a call that looks at the queue returns: notifications of the leases that moved,
/// behind other actions.
proof fn lemma_looked(params: Params, calls: Seq<Call>, call: Call) -> (a: Seq<Action>)
    requires
        unique_ids(calls.push(call)),
        history(params, calls),
        run(params, calls).queue.len() <= usize::MAX,
        call is Handle || call is Settle,
    ensures
        ({
            let s = run(params, calls);
            let t = called(s, call);
            &&& returned(s, call) == a + moved(t.queue, s.notified, t.queue.len())
            &&& forall|i: int| 0 <= i < a.len() ==> !((#[trigger] a[i]) is Notify)
            &&& distinct(t.queue)
            &&& t.notified == positions(t.queue, t.queue.len())
            &&& forall|k: int|
                0 <= k < t.queue.len() ==> #[trigger] on_record(params, calls, call, t.queue, k)
        }),
{
    let s = run(params, calls);
    let t = called(s, call);
    lemma_unique_before(calls, call);
    let u = match call {
        Call::Handle(ev) => applied(s, ev),
        _ => s,
    };
    lemma_waiting(params, calls, call, u);
    lemma_blocked(u);
    law_first_in_first_out(u);
    let gone = admissions(u).len() as int;
    assert(t.queue == u.queue.skip(gone));
    let a = match call {
        Call::Handle(ev) => drops(s, ev) + admissions(u),
        _ => admissions(u),
    };
    assert(returned(s, call) =~= a + moved(t.queue, s.notified, t.queue.len()));
    assert forall|i: int| 0 <= i < a.len() implies !((#[trigger] a[i]) is Notify) by {
        let d = a.len() - gone;
        if i >= d {
            assert(admits(admissions(u)[i - d], u.queue, i - d));
            assert(a[i] == admissions(u)[i - d]);
        }
    }
    assert forall|i: int, j: int| 0 <= i < j < t.queue.len() implies (#[trigger] t.queue[i]).id
        != (#[trigger] t.queue[j]).id by {
        assert(u.queue[i + gone].id != u.queue[j + gone].id);
    }
    lemma_positions(s.queue, s.queue.len());
    assert forall|k: int| 0 <= k < t.queue.len() implies #[trigger] on_record(
        params,
        calls,
        call,
        t.queue,
        k,
    ) by {
        let id = t.queue[k].id;
        assert(u.queue[k + gone].id == id);
        if holds(s.notified, id.0) {
            let j = lemma_positions_only(s.queue, s.queue.len(), id);
            assert(s.queue[j].id == id);
        } else if !submits(call, id) {
            let j = choose|j: int| 0 <= j < s.queue.len() && (#[trigger] s.queue[j]).id == id;
            assert(s.queue[j].id == id);
        }
    }
    a
}

proof fn lemma_told(params: Params, calls: Seq<Call>, call: Call)
    requires
        unique_ids(calls.push(call)),
        history(params, calls),
        run(params, calls).queue.len() <= usize::MAX,
        called(run(params, calls), call).queue.len() <= usize::MAX,
        call is Handle || call is Settle,
    ensures
        forall|id: LeaseId, ahead: usize|
            #![trigger returned(run(params, calls), call).contains(Action::Notify { id, ahead })]
            returned(run(params, calls), call).contains(Action::Notify { id, ahead }) <==> (ahead
                < called(run(params, calls), call).queue.len() && called(
                run(params, calls),
                call,
            ).queue[ahead as int].id == id && last_told(params, calls, id) != Some(ahead)),
        forall|i: int, j: int|
            0 <= i < j < returned(run(params, calls), call).len() ==> in_queue_order(
                #[trigger] returned(run(params, calls), call)[i],
                #[trigger] returned(run(params, calls), call)[j],
            ),
{
    let s = run(params, calls);
    let t = called(s, call);
    let out = returned(s, call);
    let a = lemma_looked(params, calls, call);
    let b = moved(t.queue, s.notified, t.queue.len());
    lemma_moved_exactly(t.queue, s.notified, t.queue.len());
    assert forall|i: int, j: int| 0 <= i < j < out.len() implies in_queue_order(
        #[trigger] out[i],
        #[trigger] out[j],
    ) by {
        if i >= a.len() {
            assert(out[i] == b[i - a.len()] && out[j] == b[j - a.len()]);
        } else {
            assert(out[i] == a[i]);
        }
    }
    assert forall|id: LeaseId, ahead: usize|
        #![trigger out.contains(Action::Notify { id, ahead })]
        out.contains(Action::Notify { id, ahead }) <==> (ahead < t.queue.len()
            && t.queue[ahead as int].id == id && last_told(params, calls, id) != Some(ahead)) by {
        let n = Action::Notify { id, ahead };
        if out.contains(n) {
            let i = choose|i: int| 0 <= i < out.len() && out[i] == n;
            if i < a.len() {
                assert(a[i] == n);
            } else {
                assert(b[i - a.len()] == n);
            }
            assert(b.contains(n));
        }
        if b.contains(n) {
            let i = choose|i: int| 0 <= i < b.len() && b[i] == n;
            assert(out[i + a.len()] == n);
        }
        if ahead < t.queue.len() {
            assert(on_record(params, calls, call, t.queue, ahead as int));
        }
    }
}

proof fn lemma_step(params: Params, calls: Seq<Call>, call: Call)
    requires
        unique_ids(calls.push(call)),
        history(params, calls),
        run(params, calls).queue.len() <= usize::MAX,
        run(params, calls.push(call)).queue.len() <= usize::MAX,
    ensures
        history(params, calls.push(call)),
{
    let s = run(params, calls);
    let all = calls.push(call);
    assert(all.drop_last() =~= calls);
    assert(all.last() == call);
    let t = run(params, all);
    assert(t == called(s, call));
    lemma_unique_before(calls, call);
    if call is Handle || call is Settle {
        let a = lemma_looked(params, calls, call);
        let b = moved(t.queue, s.notified, t.queue.len());
        lemma_moved_exactly(t.queue, s.notified, t.queue.len());
        assert forall|k: int| 0 <= k < t.queue.len() implies submitted(
            all,
            (#[trigger] t.queue[k]).id,
        ) && last_told(params, all, t.queue[k].id) == Some(k as usize) by {
            let id = t.queue[k].id;
            assert(on_record(params, calls, call, t.queue, k));
            lemma_reported_behind(a, b, id);
            assert(submitted(all, id));
            if let Some(ahead) = reported(b, id) {
                assert(t.queue[ahead as int].id == t.queue[k].id);
                assert(ahead == k);
            }
        }
        assert forall|id: LeaseId| (#[trigger] last_told(params, all, id)) is Some implies
            submitted(all, id) by {
            lemma_reported_behind(a, b, id);
            if let Some(ahead) = reported(b, id) {
                assert(t.queue[ahead as int].id == id);
                assert(on_record(params, calls, call, t.queue, ahead as int));
            } else {
                assert(last_told(params, calls, id) is Some);
            }
        }
    } else {
        assert(reported(Seq::<Action>::empty(), LeaseId(0)) is None);
        assert forall|id: LeaseId| #[trigger] last_told(params, all, id) == last_told(
            params,
            calls,
            id,
        ) by {
            assert(reported(returned(s, call), id) is None);
        }
        assert forall|k: int| 0 <= k < t.queue.len() implies submitted(
            all,
            (#[trigger] t.queue[k]).id,
        ) && last_told(params, all, t.queue[k].id) == Some(k as usize) by {
            assert(t.queue[k] == s.queue[k]);
        }
        assert forall|id: LeaseId| (#[trigger] last_told(params, all, id)) is Some implies
            submitted(all, id) by {
            assert(last_told(params, calls, id) is Some);
        }
    }
}

/// A fair share is the least whole number of tokens that, given to each of the
/// admitted leases and one more, covers the pool; and it is at least 1.
pub proof fn law_a_fair_share_is_the_least_that_covers_the_pool(pool: nat, count: nat)
    ensures
        fair(pool, count) >= 1,
        fair(pool, count) * (count + 1) >= pool,
        fair(pool, count) > 1 ==> (fair(pool, count) - 1) * (count + 1) < pool,
{
    let d = (count + 1) as int;
    let n = (pool + count) as int;
    let up = n / d;
    assert(n == d * up + n % d && 0 <= n % d < d) by (nonlinear_arith)
        requires
            d > 0,
            up == n / d,
    ;
    assert(up * d == d * up) by (nonlinear_arith);
    assert((up - 1) * d == up * d - d) by (nonlinear_arith);
    let f = fair(pool, count) as int;
    if up < 1 {
        assert(up * d <= 0) by (nonlinear_arith)
            requires
                up < 1,
                d > 0,
        ;
        assert(f * d == d) by (nonlinear_arith)
            requires
                f == 1,
        ;
    } else {
        assert(f == up);
    }
}

/// What an admission drains. A static lease that asks for nothing gets the fair
/// share, the least `f` with `f * (admitted + 1) >= pool_size` and `f >= 1`; one
/// that asks for `n` gets `n` where `1 <= n <= f`, `f` where it asks for more
/// and 1 where it asks for 0. An exclusive lease gets the whole pool and a
/// jobserver lease nothing.
pub proof fn law_a_static_lease_gets_what_it_asks_for_up_to_its_share(s: State, r: Request, f: nat)
    requires
        target(s, r) is Some,
        f >= 1,
        f * (s.admitted.len() + 1) >= s.params.pool_size,
        f > 1 ==> (f - 1) * (s.admitted.len() + 1) < s.params.pool_size,
    ensures
        r.class == Class::Static && r.cores_wanted is None ==> target(s, r) == Some(f),
        r.class == Class::Static && r.cores_wanted == Some(0u32) ==> target(s, r) == Some(1nat),
        r.class == Class::Static && (r.cores_wanted matches Some(n) && 1 <= n <= f) ==> target(s, r)
            == Some(r.cores_wanted->0 as nat),
        r.class == Class::Static && (r.cores_wanted matches Some(n) && n > f) ==> target(s, r)
            == Some(f),
        r.class == Class::Jobserver ==> target(s, r) == Some(0nat),
        r.class == Class::Exclusive && s.params.pool_size >= 1 ==> target(s, r) == Some(
            s.params.pool_size as nat,
        ),
{
    let count = s.admitted.len();
    let pool = s.params.pool_size as nat;
    let g = fair(pool, count);
    law_a_fair_share_is_the_least_that_covers_the_pool(pool, count);
    assert(f == g) by (nonlinear_arith)
        requires
            f >= 1,
            g >= 1,
            count >= 0,
            f * (count + 1) >= pool,
            g * (count + 1) >= pool,
            f > 1 ==> (f - 1) * (count + 1) < pool,
            g > 1 ==> (g - 1) * (count + 1) < pool,
    ;
    law_a_drain_target_is_a_fair_share(s, r);
}

/// The head of the queue waits for three reasons only: as many leases are
/// admitted as may be, one of them is exclusive, or the head is exclusive and
/// anything at all is admitted.
pub proof fn law_a_head_waits_for_a_reason(s: State, r: Request)
    ensures
        target(s, r) is None <==> {
            ||| s.admitted.len() >= s.params.max_concurrent
            ||| exists|i: int|
                0 <= i < s.admitted.len() && (#[trigger] s.admitted[i]).1.class == Class::Exclusive
            ||| r.class == Class::Exclusive && s.admitted.len() > 0
        },
{
}

/// A lease that is asked for with nobody waiting, fewer leases admitted than may
/// be and none of them exclusive is admitted at once; an exclusive one only
/// where nothing is admitted. What is asked for is that one admission.
pub proof fn law_a_free_machine_admits_at_once(s: State, r: Request)
    requires
        s.wf(),
        s.queue.len() == 0,
        s.admitted.len() < s.params.max_concurrent,
        forall|i: int|
            0 <= i < s.admitted.len() ==> (#[trigger] s.admitted[i]).1.class != Class::Exclusive,
        r.class == Class::Exclusive ==> s.admitted.len() == 0,
    ensures
        target(s, r) is Some,
        asked(s, Event::Submit(r)) == seq![
            Action::Admit { id: r.id, class: r.class, drain_target: target(s, r)->0 as u32 },
        ],
        next(s, Event::Submit(r)).queue.len() == 0,
        holds(next(s, Event::Submit(r)).admitted, r.id.0),
        at(next(s, Event::Submit(r)).admitted, r.id.0).class == r.class,
        at(next(s, Event::Submit(r)).admitted, r.id.0).label == r.label,
        at(next(s, Event::Submit(r)).admitted, r.id.0).cores_held == 0,
        at(next(s, Event::Submit(r)).admitted, r.id.0).share == fair(
            s.params.pool_size as nat,
            s.admitted.len(),
        ),
{
    lemma_fair_bound(s.params.pool_size as nat, s.admitted.len());
    let t = applied(s, Event::Submit(r));
    assert(t.queue =~= seq![r]);
    assert(!exclusive(s.admitted));
    assert(target(t, r) == target(s, r));
    let u = head_admitted(t);
    assert(u.queue.len() == 0);
    let v = Admitted {
        class: r.class,
        cores_held: 0,
        label: r.label,
        share: fair(s.params.pool_size as nat, s.admitted.len()) as u32,
    };
    lemma_put(s.admitted, r.id.0, v);
    reveal_with_fuel(admissions, 2);
    reveal_with_fuel(admitted_from_head, 2);
    assert(moved(u.queue, u.notified, 0) =~= Seq::<Action>::empty());
    assert(asked(s, Event::Submit(r)) =~= seq![
        Action::Admit { id: r.id, class: r.class, drain_target: target(s, r)->0 as u32 },
    ]);
}

/// The lease an event ends, where it ends one.
pub open spec fn ended_by(ev: Event) -> Option<LeaseId> {
    match ev {
        Event::Finished(id) | Event::Cancel(id) | Event::DrainFailed(id) => Some(id),
        _ => None,
    }
}

/// Whether `id` waits in `queue`.
pub open spec fn waiting(queue: Seq<Request>, id: LeaseId) -> bool {
    exists|i: int| 0 <= i < queue.len() && (#[trigger] queue[i]).id == id
}

proof fn lemma_settling_keeps(s: State, id: LeaseId)
    requires
        s.wf(),
    ensures
        admitted_from_head(s).wf(),
        holds(s.admitted, id.0) ==> holds(admitted_from_head(s).admitted, id.0),
        !waiting(s.queue, id) ==> !waiting(admitted_from_head(s).queue, id),
        !waiting(s.queue, id) ==> (holds(admitted_from_head(s).admitted, id.0) <==> holds(
            s.admitted,
            id.0,
        )),
        !waiting(s.queue, id) && holds(s.admitted, id.0) ==> at(
            admitted_from_head(s).admitted,
            id.0,
        ) == at(s.admitted, id.0),
        forall|r: Request|
            #[trigger] s.queue.contains(r) && r.id == id ==> admitted_from_head(s).queue.contains(r)
                || holds(admitted_from_head(s).admitted, id.0),
    decreases s.queue.len(),
{
    if s.queue.len() > 0 && target(s, s.queue[0]) is Some {
        let t = head_admitted(s);
        let q = s.queue[0];
        let v = Admitted {
            class: q.class,
            cores_held: 0,
            label: q.label,
            share: fair(s.params.pool_size as nat, s.admitted.len()) as u32,
        };
        lemma_put(s.admitted, q.id.0, v);
        lemma_settling_keeps(t, id);
        assert(holds(s.admitted, id.0) ==> holds(t.admitted, id.0));
        if waiting(t.queue, id) {
            let i = choose|i: int| 0 <= i < t.queue.len() && (#[trigger] t.queue[i]).id == id;
            assert(s.queue[i + 1].id == id);
        }
        assert forall|r: Request| #[trigger] s.queue.contains(r) && r.id == id implies
            admitted_from_head(s).queue.contains(r) || holds(
            admitted_from_head(s).admitted,
            id.0,
        ) by {
            let i = choose|i: int| 0 <= i < s.queue.len() && s.queue[i] == r;
            if i > 0 {
                assert(t.queue[i - 1] == r);
                assert(t.queue.contains(r));
            } else {
                assert(holds(t.admitted, id.0));
            }
        }
    }
}

/// A lease keeps its place among the admitted until it is ended: no event of
/// another lease removes it or changes what is kept of it, and being started
/// changes only the tokens it holds, to those it was started with.
pub proof fn law_an_admitted_lease_stays_until_it_ends(s: State, ev: Event, id: LeaseId)
    requires
        s.wf(),
        holds(s.admitted, id.0),
        !waiting(s.queue, id),
        ev matches Event::Submit(r) ==> r.id != id,
        ended_by(ev) != Some(id),
    ensures
        holds(next(s, ev).admitted, id.0),
        at(next(s, ev).admitted, id.0).class == at(s.admitted, id.0).class,
        at(next(s, ev).admitted, id.0).label == at(s.admitted, id.0).label,
        at(next(s, ev).admitted, id.0).share == at(s.admitted, id.0).share,
        at(next(s, ev).admitted, id.0).cores_held == (match ev {
            Event::Started { id: started, cores_held } => if started == id {
                cores_held
            } else {
                at(s.admitted, id.0).cores_held
            },
            _ => at(s.admitted, id.0).cores_held,
        }),
{
    lemma_applied(s, ev);
    let t = applied(s, ev);
    match ev {
        Event::Submit(r) => {
            if waiting(t.queue, id) {
                let i = choose|i: int| 0 <= i < t.queue.len() && (#[trigger] t.queue[i]).id == id;
                if i < s.queue.len() {
                    assert(s.queue[i].id == id);
                }
            }
        },
        Event::Started { id: started, cores_held } => {
            if holds(s.admitted, started.0) {
                let v = Admitted { cores_held, ..at(s.admitted, started.0) };
                lemma_put(s.admitted, started.0, v);
                assert(holds(s.admitted, id.0) ==> holds(t.admitted, id.0));
            }
        },
        Event::Finished(other) | Event::DrainFailed(other) => {
            lemma_without(s.admitted, other.0);
            assert(holds(s.admitted, id.0) ==> holds(t.admitted, id.0));
        },
        Event::Cancel(other) => {
            lemma_without(s.admitted, other.0);
            assert(holds(s.admitted, id.0) ==> holds(t.admitted, id.0));
            if waiting(t.queue, id) {
                let p = place_of(s.queue, other) as int;
                let i = choose|i: int| 0 <= i < t.queue.len() && (#[trigger] t.queue[i]).id == id;
                let from = if p < s.queue.len() && i >= p { i + 1 } else { i };
                if holds(s.admitted, other.0) {
                    assert(s.queue[i].id == id);
                } else {
                    assert(s.queue[from].id == id);
                }
            }
        },
    }
    lemma_settling_keeps(t, id);
}

/// A lease that finishes, is cancelled or could not be started is admitted no
/// more.
pub proof fn law_an_ended_lease_is_admitted_no_more(s: State, ev: Event, id: LeaseId)
    requires
        s.wf(),
        ended_by(ev) == Some(id),
        !waiting(s.queue, id),
    ensures
        !holds(next(s, ev).admitted, id.0),
{
    lemma_applied(s, ev);
    lemma_without(s.admitted, id.0);
    let t = applied(s, ev);
    if !holds(s.admitted, id.0) && ev is Cancel {
        let p = place_of(s.queue, id);
        lemma_place(s.queue, id);
        if p < s.queue.len() {
            assert(s.queue[p as int].id == id);
        }
    }
    lemma_settling_keeps(t, id);
}

proof fn lemma_place(queue: Seq<Request>, id: LeaseId)
    ensures
        place_of(queue, id) <= queue.len(),
        place_of(queue, id) < queue.len() ==> queue[place_of(queue, id) as int].id == id,
        place_of(queue, id) == queue.len() <==> !waiting(queue, id),
    decreases queue.len(),
{
    if queue.len() > 0 {
        let t = queue.skip(1);
        lemma_place(t, id);
        if queue[0].id == id {
            assert(waiting(queue, id));
        } else {
            if waiting(queue, id) {
                let i = choose|i: int| 0 <= i < queue.len() && (#[trigger] queue[i]).id == id;
                assert(t[i - 1].id == id);
            }
            if waiting(t, id) {
                let i = choose|i: int| 0 <= i < t.len() && (#[trigger] t[i]).id == id;
                assert(queue[i + 1].id == id);
            }
        }
    }
}

/// No request is lost: one that waits, and that the event does not cancel, still
/// waits after it or is admitted.
pub proof fn law_no_request_is_lost(s: State, ev: Event, r: Request)
    requires
        s.wf(),
        s.queue.contains(r) || ev == Event::Submit(r),
        ev != Event::Cancel(r.id),
    ensures
        next(s, ev).queue.contains(r) || holds(next(s, ev).admitted, r.id.0),
{
    lemma_applied(s, ev);
    let t = applied(s, ev);
    match ev {
        Event::Submit(q) => {
            if ev == Event::Submit(r) {
                assert(t.queue[t.queue.len() - 1] == r);
            } else {
                let i = choose|i: int| 0 <= i < s.queue.len() && s.queue[i] == r;
                assert(t.queue[i] == r);
            }
        },
        Event::Cancel(other) => {
            let i = choose|i: int| 0 <= i < s.queue.len() && s.queue[i] == r;
            if !holds(s.admitted, other.0) {
                let p = place_of(s.queue, other) as int;
                lemma_place(s.queue, other);
                if p < s.queue.len() {
                    assert(s.queue[p].id == other);
                    let to = if i < p { i } else { i - 1 };
                    assert(t.queue[to] == r);
                }
            }
        },
        _ => {},
    }
    assert(t.queue.contains(r));
    lemma_settling_keeps(t, r.id);
}

/// A waiting lease that is cancelled waits no more, and is not admitted either.
pub proof fn law_a_cancelled_request_is_gone(s: State, id: LeaseId)
    requires
        s.wf(),
        !holds(s.admitted, id.0),
        forall|i: int, j: int|
            0 <= i < s.queue.len() && 0 <= j < s.queue.len() && (#[trigger] s.queue[i]).id == (
            #[trigger] s.queue[j]).id ==> i == j,
    ensures
        !waiting(next(s, Event::Cancel(id)).queue, id),
        !holds(next(s, Event::Cancel(id)).admitted, id.0),
{
    let t = applied(s, Event::Cancel(id));
    lemma_applied(s, Event::Cancel(id));
    lemma_place(s.queue, id);
    let p = place_of(s.queue, id) as int;
    if waiting(t.queue, id) {
        let i = choose|i: int| 0 <= i < t.queue.len() && (#[trigger] t.queue[i]).id == id;
        let from = if p < s.queue.len() && i >= p { i + 1 } else { i };
        assert(s.queue[from].id == id);
        assert(waiting(s.queue, id));
        assert(s.queue[p].id == s.queue[from].id);
    }
    lemma_settling_keeps(t, id);
}

/// A teardown is asked for exactly where an admitted lease is cancelled or could
/// not be started, and then once.
pub proof fn law_a_teardown_is_asked_for_once(s: State, ev: Event, id: LeaseId)
    ensures
        asked(s, ev).contains(Action::Drop(id)) <==> (ev == Event::Cancel(id) || ev
            == Event::DrainFailed(id)) && holds(s.admitted, id.0),
        forall|i: int, j: int|
            0 <= i < asked(s, ev).len() && 0 <= j < asked(s, ev).len() && (#[trigger] asked(
                s,
                ev,
            )[i]) is Drop && (#[trigger] asked(s, ev)[j]) is Drop ==> i == j,
{
    let t = applied(s, ev);
    let u = admitted_from_head(t);
    law_first_in_first_out(t);
    lemma_moved(u.queue, u.notified, u.queue.len());
    let a = drops(s, ev);
    let b = admissions(t);
    let c = moved(u.queue, u.notified, u.queue.len());
    assert(asked(s, ev) =~= a + b + c);
    assert forall|i: int| a.len() <= i < asked(s, ev).len() implies !((#[trigger] asked(s, ev)[i])
        is Drop) by {
        if i < a.len() + b.len() {
            assert(admits(b[i - a.len()], t.queue, i - a.len()));
        } else {
            assert(c[i - a.len() - b.len()] is Notify);
        }
    }
    if a.len() > 0 {
        assert(asked(s, ev)[0] == a[0]);
    }
}

/// Cancelling a waiting lease takes it out of the queue and leaves the others where
/// they stand; one that does not wait leaves the queue as it is.
pub proof fn law_the_others_keep_their_order(
    a: Seq<Request>,
    r: Request,
    b: Seq<Request>,
    id: LeaseId,
)
    requires
        forall|i: int| 0 <= i < a.len() ==> (#[trigger] a[i]).id != id,
    ensures
        r.id == id ==> unqueued(a + seq![r] + b, id) == a + b,
        unqueued(a, id) == a,
{
    let all = a + seq![r] + b;
    let n = a.len() as int;
    assert forall|j: int| 0 <= j < n implies (#[trigger] all[j]).id != id by {
        assert(all[j] == a[j]);
    }
    assert(all[n] == r);
    lemma_place_of(a, id, n);
    if r.id == id {
        lemma_place_of(all, id, n);
        assert(all.remove(n) =~= a + b);
    }
}

/// What admitted leases hold adds up: two runs of them hold together what each
/// holds, and one holds its cores.
pub proof fn law_admitted_leases_hold_the_sum(
    a: Seq<(u64, Admitted)>,
    b: Seq<(u64, Admitted)>,
    e: (u64, Admitted),
)
    ensures
        held(a + b, (a + b).len()) == held(a, a.len()) + held(b, b.len()),
        held(seq![e], 1) == e.1.cores_held,
    decreases b.len(),
{
    reveal_with_fuel(held, 2);
    if b.len() == 0 {
        assert(a + b =~= a);
    } else {
        let c = b.drop_last();
        law_admitted_leases_hold_the_sum(a, c, e);
        lemma_held_prefix(a + b, a + c, (a + c).len());
        lemma_held_prefix(b, c, c.len());
        assert((a + b)[(a + b).len() - 1] == b[b.len() - 1]);
    }
}

proof fn lemma_held_prefix(a: Seq<(u64, Admitted)>, b: Seq<(u64, Admitted)>, n: nat)
    requires
        n <= a.len(),
        n <= b.len(),
        forall|i: int| 0 <= i < n ==> a[i] == b[i],
    ensures
        held(a, n) == held(b, n),
    decreases n,
{
    if n > 0 {
        lemma_held_prefix(a, b, (n - 1) as nat);
    }
}

} // verus!
