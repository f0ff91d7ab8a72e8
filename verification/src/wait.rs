//! The lines that a waiting client prints while its lease is queued.
//!
//! Fed with the queue positions that the daemon reports and a tick counter, it
//! answers with the line to print, if there is one.

use vstd::prelude::*;
use vstd::string::*;

use crate::text::{copy, decimal};

#[allow(unused_imports)]
use crate::text::{decimal_of, maybe};

verus! {

/// Ticks of quiet before the client says that it is still there, and between
/// repeats.
pub const HEARTBEAT_TICKS: u64 = 30;

/// What has been said about the queue.
#[derive(Debug)]
pub struct QueueLines {
    last_ahead: Option<usize>,
    ticks_since_change: u64,
    last_heartbeat_tick: u64,
}

/// The same, mathematically.
#[verifier::ext_equal]
pub struct Waiting {
    /// The position last reported.
    pub ahead: Option<usize>,
    /// Ticks since it changed.
    pub quiet: u64,
    /// The tick of the last heartbeat.
    pub last_beat: u64,
}

impl View for QueueLines {
    type V = Waiting;

    closed spec fn view(&self) -> Waiting {
        Waiting {
            ahead: self.last_ahead,
            quiet: self.ticks_since_change,
            last_beat: self.last_heartbeat_tick,
        }
    }
}

/// Before anything was said.
pub open spec fn unheard() -> Waiting {
    Waiting { ahead: None, quiet: 0, last_beat: 0 }
}

/// After a position was reported.
pub open spec fn reported(w: Waiting, ahead: usize) -> Waiting {
    if w.ahead == Some(ahead) {
        w
    } else {
        Waiting { ahead: Some(ahead), quiet: 0, ..w }
    }
}

/// The line for a position: the first one in full, a later one only when it
/// moved.
pub open spec fn position_line(w: Waiting, ahead: usize) -> Option<Seq<char>> {
    if w.ahead == Some(ahead) {
        None
    } else if w.ahead is None {
        Some("queued ("@ + decimal_of(ahead as nat) + " ahead)"@)
    } else {
        Some(decimal_of(ahead as nat) + " ahead…"@)
    }
}

/// One more tick of quiet.
pub open spec fn quieter(quiet: u64) -> u64 {
    if quiet == u64::MAX {
        quiet
    } else {
        (quiet + 1) as u64
    }
}

/// Whether a tick is a heartbeat: quiet for long enough, and the last one long
/// enough ago.
pub open spec fn beats(w: Waiting, tick: u64) -> bool {
    w.ahead is Some && quieter(w.quiet) >= HEARTBEAT_TICKS && tick - w.last_beat
        >= HEARTBEAT_TICKS
}

/// After a tick.
pub open spec fn ticked(w: Waiting, tick: u64) -> Waiting {
    if w.ahead is None {
        w
    } else {
        Waiting {
            quiet: quieter(w.quiet),
            last_beat: if beats(w, tick) {
                tick
            } else {
                w.last_beat
            },
            ..w
        }
    }
}

/// The line for a tick.
pub open spec fn heartbeat(w: Waiting, tick: u64) -> Option<Seq<char>> {
    if beats(w, tick) {
        Some("still queued ("@ + decimal_of(w.ahead->0 as nat) + " ahead)"@)
    } else {
        None
    }
}

impl QueueLines {
    /// Nothing said yet.
    pub fn new() -> (r: Self)
        ensures
            r@ == unheard(),
    {
        QueueLines { last_ahead: None, ticks_since_change: 0, last_heartbeat_tick: 0 }
    }

    /// A queue position arrived. The first one is announced; a later one is
    /// reported only when it moved.
    pub fn queued(&mut self, ahead: usize) -> (r: Option<String>)
        ensures
            final(self)@ == reported(old(self)@, ahead),
            maybe(r) == position_line(old(self)@, ahead),
    {
        let line = match self.last_ahead {
            None => {
                let mut out = copy("queued (");
                out.append(decimal(ahead as u64).as_str());
                out.append(" ahead)");
                out
            },
            Some(previous) => {
                if previous == ahead {
                    return None;
                }
                let mut out = decimal(ahead as u64);
                out.append(" ahead…");
                out
            },
        };
        self.last_ahead = Some(ahead);
        self.ticks_since_change = 0;
        Some(line)
    }

    /// A second passed with the lease still queued.
    pub fn tick(&mut self, tick: u64) -> (r: Option<String>)
        ensures
            final(self)@ == ticked(old(self)@, tick),
            maybe(r) == heartbeat(old(self)@, tick),
    {
        let ahead = match self.last_ahead {
            Some(ahead) => ahead,
            None => {
                return None;
            },
        };
        self.ticks_since_change = self.ticks_since_change.saturating_add(1);
        if self.ticks_since_change < HEARTBEAT_TICKS || tick.saturating_sub(
            self.last_heartbeat_tick,
        ) < HEARTBEAT_TICKS {
            return None;
        }
        self.last_heartbeat_tick = tick;
        let mut out = copy("still queued (");
        out.append(decimal(ahead as u64).as_str());
        out.append(" ahead)");
        Some(out)
    }
}

/// The state after `n` ticks of a queue that does not move, counted from 1.
pub open spec fn after_ticks(w: Waiting, n: nat) -> Waiting
    decreases n,
{
    if n == 0 {
        w
    } else {
        ticked(after_ticks(w, (n - 1) as nat), n as u64)
    }
}

/// A queue that does not move says so at every thirtieth tick, and at no other.
pub proof fn law_a_quiet_queue_beats_every_thirty_ticks(ahead: usize, n: nat)
    requires
        1 <= n <= u64::MAX,
    ensures
        beats(after_ticks(reported(unheard(), ahead), (n - 1) as nat), n as u64) <==> n % 30 == 0,
        heartbeat(after_ticks(reported(unheard(), ahead), (n - 1) as nat), n as u64) == (if n % 30
            == 0 {
            Some("still queued ("@ + decimal_of(ahead as nat) + " ahead)"@)
        } else {
            None
        }),
{
    lemma_after_ticks(ahead, (n - 1) as nat);
}

proof fn lemma_after_ticks(ahead: usize, n: nat)
    requires
        n < u64::MAX,
    ensures
        ({
            let w = after_ticks(reported(unheard(), ahead), n);
            &&& w.ahead == Some(ahead)
            &&& w.quiet == n
            &&& w.last_beat == n - n % 30
        }),
    decreases n,
{
    if n > 0 {
        lemma_after_ticks(ahead, (n - 1) as nat);
    }
}

/// Before the first position nothing is said, however long it takes.
pub proof fn law_nothing_is_said_before_the_first_position(n: nat, tick: u64)
    ensures
        after_ticks(unheard(), n) == unheard(),
        heartbeat(after_ticks(unheard(), n), tick) is None,
    decreases n,
{
    if n > 0 {
        law_nothing_is_said_before_the_first_position((n - 1) as nat, tick);
    }
}

/// A position that moved is reported and puts the next heartbeat off by at least
/// thirty ticks.
pub proof fn law_movement_postpones_the_heartbeat(w: Waiting, ahead: usize, n: nat, tick: u64)
    requires
        w.ahead != Some(ahead),
        n < HEARTBEAT_TICKS - 1,
    ensures
        position_line(w, ahead) is Some,
        heartbeat(after_ticks(reported(w, ahead), n), tick) is None,
{
    lemma_quiet(reported(w, ahead), n);
}

proof fn lemma_quiet(w: Waiting, n: nat)
    requires
        w.ahead is Some,
        w.quiet == 0,
        n < HEARTBEAT_TICKS,
    ensures
        after_ticks(w, n).quiet == n,
        after_ticks(w, n).ahead is Some,
    decreases n,
{
    if n > 0 {
        lemma_quiet(w, (n - 1) as nat);
    }
}

/// A position is told when it is news: the first one as a place in the queue, a
/// later one as the number that is left, and the same one again not at all.
pub proof fn law_a_position_is_told_when_it_is_news(w: Waiting, ahead: usize)
    ensures
        w.ahead is None ==> position_line(w, ahead) == Some(
            "queued ("@ + decimal_of(ahead as nat) + " ahead)"@,
        ),
        w.ahead is Some && w.ahead != Some(ahead) ==> position_line(w, ahead) == Some(
            decimal_of(ahead as nat) + " ahead…"@,
        ),
        w.ahead == Some(ahead) ==> position_line(w, ahead) is None && reported(w, ahead) == w,
        reported(w, ahead).ahead == Some(ahead),
        position_line(reported(w, ahead), ahead) is None,
        unheard().ahead is None,
{
}



} // verus!
