//! Which leases run, and in what order.

use busybee::classify::Class;
use busybee::scheduler::{
    Action, AdmittedLease, Event, LeaseId, Params, Request, Scheduler,
};

fn params(pool_size: u32, max_concurrent: u32) -> Params {
    Params {
        pool_size,
        max_concurrent,
    }
}

fn req(id: u64, class: Class, cores_wanted: Option<u32>) -> Request {
    Request {
        id: LeaseId(id),
        class,
        cores_wanted,
        label: format!("task {id}"),
    }
}

/// Submit, then report the drain finished with `cores_held` tokens.
fn submit_and_start(s: &mut Scheduler, r: Request, cores_held: u32) -> Vec<Action> {
    let id = r.id;
    let actions = s.handle(Event::Submit(r));
    s.handle(Event::Started { id, cores_held });
    actions
}

fn admits(actions: &[Action]) -> Vec<&Action> {
    actions
        .iter()
        .filter(|a| matches!(a, Action::Admit { .. }))
        .collect()
}

#[test]
fn jobserver_leases_are_admitted_immediately_up_to_max_concurrent() {
    let mut s = Scheduler::new(params(8, 4));
    for id in 1..=4 {
        let actions = submit_and_start(&mut s, req(id, Class::Jobserver, None), 0);
        assert_eq!(
            actions,
            vec![Action::Admit {
                id: LeaseId(id),
                class: Class::Jobserver,
                drain_target: 0
            }],
            "lease {id} should be admitted at once"
        );
    }
    // Fifth waits: max_concurrent is 4.
    let actions = s.handle(Event::Submit(req(5, Class::Jobserver, None)));
    assert_eq!(
        actions,
        vec![Action::Notify {
            id: LeaseId(5),
            ahead: 0
        }]
    );
}

#[test]
fn static_alone_drains_the_whole_pool() {
    let mut s = Scheduler::new(params(8, 4));
    let actions = s.handle(Event::Submit(req(1, Class::Static, None)));
    assert_eq!(
        actions,
        vec![Action::Admit {
            id: LeaseId(1),
            class: Class::Static,
            drain_target: 8
        }]
    );
}

#[test]
fn static_with_two_admitted_gets_a_third_of_the_pool() {
    let mut s = Scheduler::new(params(8, 4));
    submit_and_start(&mut s, req(1, Class::Jobserver, None), 0);
    submit_and_start(&mut s, req(2, Class::Jobserver, None), 0);
    let actions = s.handle(Event::Submit(req(3, Class::Static, None)));
    // fair = ceil(8 / 3) = 3
    assert_eq!(
        actions,
        vec![Action::Admit {
            id: LeaseId(3),
            class: Class::Static,
            drain_target: 3
        }]
    );
}

#[test]
fn static_cores_wanted_below_fair_share_is_honoured() {
    let mut s = Scheduler::new(params(8, 4));
    let actions = s.handle(Event::Submit(req(1, Class::Static, Some(2))));
    assert_eq!(
        actions,
        vec![Action::Admit {
            id: LeaseId(1),
            class: Class::Static,
            drain_target: 2
        }]
    );
}

#[test]
fn static_cores_wanted_above_fair_share_is_clamped() {
    let mut s = Scheduler::new(params(8, 4));
    submit_and_start(&mut s, req(1, Class::Jobserver, None), 0);
    let actions = s.handle(Event::Submit(req(2, Class::Static, Some(100))));
    // fair = ceil(8 / 2) = 4
    assert_eq!(
        actions,
        vec![Action::Admit {
            id: LeaseId(2),
            class: Class::Static,
            drain_target: 4
        }]
    );
}

#[test]
fn static_cores_wanted_zero_is_clamped_up_to_one() {
    let mut s = Scheduler::new(params(8, 4));
    let actions = s.handle(Event::Submit(req(1, Class::Static, Some(0))));
    assert_eq!(
        actions,
        vec![Action::Admit {
            id: LeaseId(1),
            class: Class::Static,
            drain_target: 1
        }]
    );
}

#[test]
fn none_waits_while_any_lease_is_admitted() {
    let mut s = Scheduler::new(params(8, 4));
    // A jobserver lease holds no tokens, but still blocks an exclusive lease.
    submit_and_start(&mut s, req(1, Class::Jobserver, None), 0);
    let actions = s.handle(Event::Submit(req(2, Class::Exclusive, None)));
    assert_eq!(
        actions,
        vec![Action::Notify {
            id: LeaseId(2),
            ahead: 0
        }]
    );
}

#[test]
fn none_is_admitted_when_the_last_lease_finishes() {
    let mut s = Scheduler::new(params(8, 4));
    submit_and_start(&mut s, req(1, Class::Jobserver, None), 0);
    submit_and_start(&mut s, req(2, Class::Static, Some(4)), 4);
    s.handle(Event::Submit(req(3, Class::Exclusive, None)));

    assert_eq!(s.handle(Event::Finished(LeaseId(1))), vec![]);
    assert_eq!(
        s.handle(Event::Finished(LeaseId(2))),
        vec![Action::Admit {
            id: LeaseId(3),
            class: Class::Exclusive,
            drain_target: 8
        }]
    );
}

#[test]
fn none_blocks_everything_behind_it() {
    let mut s = Scheduler::new(params(8, 4));
    submit_and_start(&mut s, req(1, Class::Jobserver, None), 0);
    s.handle(Event::Submit(req(2, Class::Exclusive, None)));
    // Head-of-line blocking: the jobserver lease behind it waits too.
    let actions = s.handle(Event::Submit(req(3, Class::Jobserver, None)));
    assert_eq!(
        actions,
        vec![Action::Notify {
            id: LeaseId(3),
            ahead: 1
        }]
    );

    // Even once the pool frees, only the exclusive head is admitted.
    let actions = s.handle(Event::Finished(LeaseId(1)));
    assert_eq!(
        admits(&actions),
        vec![&Action::Admit {
            id: LeaseId(2),
            class: Class::Exclusive,
            drain_target: 8
        }]
    );
}

#[test]
fn cancel_of_a_queued_lease_notifies_those_behind_it() {
    let mut s = Scheduler::new(params(8, 1));
    submit_and_start(&mut s, req(1, Class::Jobserver, None), 0);
    s.handle(Event::Submit(req(2, Class::Jobserver, None)));
    s.handle(Event::Submit(req(3, Class::Jobserver, None)));
    s.handle(Event::Submit(req(4, Class::Jobserver, None)));

    let actions = s.handle(Event::Cancel(LeaseId(2)));
    assert_eq!(
        actions,
        vec![
            Action::Notify {
                id: LeaseId(3),
                ahead: 0
            },
            Action::Notify {
                id: LeaseId(4),
                ahead: 1
            },
        ]
    );
}

#[test]
fn cancel_of_an_admitted_lease_drops_it_and_frees_the_slot() {
    let mut s = Scheduler::new(params(8, 1));
    submit_and_start(&mut s, req(1, Class::Jobserver, None), 0);
    s.handle(Event::Submit(req(2, Class::Jobserver, None)));

    let actions = s.handle(Event::Cancel(LeaseId(1)));
    assert_eq!(
        actions,
        vec![
            Action::Drop(LeaseId(1)),
            Action::Admit {
                id: LeaseId(2),
                class: Class::Jobserver,
                drain_target: 0
            },
        ]
    );
    assert!(s.snapshot().queued.is_empty());
}

#[test]
fn drain_failed_drops_the_lease_and_admits_the_next_head() {
    let mut s = Scheduler::new(params(8, 1));
    s.handle(Event::Submit(req(1, Class::Static, None)));
    s.handle(Event::Submit(req(2, Class::Jobserver, None)));

    let actions = s.handle(Event::DrainFailed(LeaseId(1)));
    assert_eq!(
        actions,
        vec![
            Action::Drop(LeaseId(1)),
            Action::Admit {
                id: LeaseId(2),
                class: Class::Jobserver,
                drain_target: 0
            },
        ]
    );
}

#[test]
fn an_admitting_lease_counts_towards_max_concurrent_before_it_starts() {
    let mut s = Scheduler::new(params(8, 1));
    // Admitted but not yet Started.
    s.handle(Event::Submit(req(1, Class::Static, None)));
    let actions = s.handle(Event::Submit(req(2, Class::Jobserver, None)));
    assert_eq!(
        actions,
        vec![Action::Notify {
            id: LeaseId(2),
            ahead: 0
        }]
    );
}

#[test]
fn events_for_unknown_leases_are_ignored() {
    let mut s = Scheduler::new(params(8, 4));
    assert_eq!(s.handle(Event::Finished(LeaseId(9))), vec![]);
    assert_eq!(s.handle(Event::Cancel(LeaseId(9))), vec![]);
    assert_eq!(s.handle(Event::DrainFailed(LeaseId(9))), vec![]);
    assert_eq!(
        s.handle(Event::Started {
            id: LeaseId(9),
            cores_held: 3
        }),
        vec![]
    );
    assert_eq!(s.snapshot().free_estimate, 8);
}

#[test]
fn snapshot_reports_queue_order_admitted_leases_and_free_estimate() {
    let mut s = Scheduler::new(params(8, 2));
    submit_and_start(&mut s, req(1, Class::Jobserver, None), 0);
    submit_and_start(&mut s, req(2, Class::Static, Some(3)), 3);
    s.handle(Event::Submit(req(3, Class::Static, None)));
    s.handle(Event::Submit(req(4, Class::Exclusive, None)));

    let snap = s.snapshot();
    assert_eq!(
        snap.queued.iter().map(|r| r.id).collect::<Vec<_>>(),
        vec![LeaseId(3), LeaseId(4)]
    );
    assert_eq!(
        snap.admitted,
        vec![
            AdmittedLease {
                id: LeaseId(1),
                class: Class::Jobserver,
                cores_held: 0,
                label: "task 1".into(),
            },
            AdmittedLease {
                id: LeaseId(2),
                class: Class::Static,
                cores_held: 3,
                label: "task 2".into(),
            },
        ]
    );
    assert_eq!(snap.free_estimate, 5);
}

#[test]
fn set_params_with_a_smaller_pool_keeps_already_held_tokens() {
    let mut s = Scheduler::new(params(8, 4));
    submit_and_start(&mut s, req(1, Class::Static, Some(8)), 8);

    s.set_params(params(4, 4));

    let snap = s.snapshot();
    assert_eq!(
        snap.admitted[0].cores_held, 8,
        "held tokens are never revoked"
    );
    assert_eq!(snap.free_estimate, 0, "free estimate saturates at 0");

    // The new pool size governs the next admission.
    s.handle(Event::Finished(LeaseId(1)));
    let actions = s.handle(Event::Submit(req(2, Class::Static, None)));
    assert_eq!(
        actions,
        vec![Action::Admit {
            id: LeaseId(2),
            class: Class::Static,
            drain_target: 4
        }]
    );
}

#[test]
fn the_same_event_sequence_yields_the_same_actions() {
    let events = || {
        vec![
            Event::Submit(req(1, Class::Jobserver, None)),
            Event::Started {
                id: LeaseId(1),
                cores_held: 0,
            },
            Event::Submit(req(2, Class::Static, Some(3))),
            Event::Started {
                id: LeaseId(2),
                cores_held: 3,
            },
            Event::Submit(req(3, Class::Exclusive, None)),
            Event::Submit(req(4, Class::Jobserver, None)),
            Event::Cancel(LeaseId(3)),
            Event::Finished(LeaseId(1)),
            Event::DrainFailed(LeaseId(4)),
            Event::Finished(LeaseId(2)),
        ]
    };
    let run = || {
        let mut s = Scheduler::new(params(8, 2));
        let actions: Vec<Action> = events().into_iter().flat_map(|e| s.handle(e)).collect();
        (actions, s.snapshot())
    };
    assert_eq!(run(), run());
}

#[test]
fn leases_are_admitted_in_the_order_they_came() {
    let mut s = Scheduler::new(params(8, 1));
    submit_and_start(&mut s, req(1, Class::Jobserver, None), 0);
    s.handle(Event::Submit(req(2, Class::Jobserver, None)));
    s.handle(Event::Submit(req(3, Class::Jobserver, None)));

    let first = s.handle(Event::Finished(LeaseId(1)));
    assert_eq!(
        first,
        vec![
            Action::Admit {
                id: LeaseId(2),
                class: Class::Jobserver,
                drain_target: 0
            },
            Action::Notify {
                id: LeaseId(3),
                ahead: 0
            },
        ]
    );
    let second = s.handle(Event::Finished(LeaseId(2)));
    assert_eq!(
        second,
        vec![Action::Admit {
            id: LeaseId(3),
            class: Class::Jobserver,
            drain_target: 0
        }]
    );
}

#[test]
fn an_adopted_lease_counts_and_holds() {
    let mut s = Scheduler::new(params(8, 2));
    s.adopt(req(5, Class::Static, None), 3);
    assert_eq!(s.admitted_count(), 1);
    assert_eq!(s.snapshot().free_estimate, 5);
    assert_eq!(s.params(), params(8, 2));
    let actions = s.handle(Event::Submit(req(6, Class::Exclusive, None)));
    assert_eq!(
        actions,
        vec![Action::Notify {
            id: LeaseId(6),
            ahead: 0
        }]
    );
}

#[test]
fn a_larger_limit_admits_what_waits() {
    let mut s = Scheduler::new(params(8, 1));
    submit_and_start(&mut s, req(1, Class::Jobserver, None), 0);
    s.handle(Event::Submit(req(2, Class::Jobserver, None)));
    s.set_params(params(8, 2));
    assert_eq!(
        s.settle(),
        vec![Action::Admit {
            id: LeaseId(2),
            class: Class::Jobserver,
            drain_target: 0
        }]
    );
    assert_eq!(s.settle(), vec![]);
}

#[test]
fn a_lease_is_told_its_position_only_when_it_moved() {
    let mut s = Scheduler::new(params(8, 1));
    submit_and_start(&mut s, req(1, Class::Jobserver, None), 0);
    let told = |id: u64, ahead: usize| Action::Notify {
        id: LeaseId(id),
        ahead,
    };
    assert_eq!(
        s.handle(Event::Submit(req(2, Class::Jobserver, None))),
        vec![told(2, 0)]
    );
    assert_eq!(
        s.handle(Event::Submit(req(3, Class::Jobserver, None))),
        vec![told(3, 1)]
    );
    s.set_params(params(16, 1));
    assert_eq!(s.settle(), vec![]);
    // Neither moves where the lease that goes stands behind them, or is unknown.
    assert_eq!(
        s.handle(Event::Submit(req(4, Class::Jobserver, None))),
        vec![told(4, 2)]
    );
    assert_eq!(s.handle(Event::Cancel(LeaseId(4))), vec![]);
    assert_eq!(s.handle(Event::Finished(LeaseId(9))), vec![]);
    let actions = s.handle(Event::Finished(LeaseId(1)));
    assert_eq!(actions[1..], [told(3, 0)]);
    assert!(matches!(actions[0], Action::Admit { id: LeaseId(2), .. }));
}
