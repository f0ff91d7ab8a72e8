//! The monitor's view of the token pool: one horizontal bar and a legend.

use vstd::prelude::*;
use vstd::string::*;

use crate::gauge::Color;
use crate::protocol::StatusReply;
use crate::report::approx_in_use;
use crate::text::{copy, decimal, repeat};

#[allow(unused_imports)]
use crate::report::in_use;
#[allow(unused_imports)]
use crate::text::{decimal_of, repeated};

verus! {

/// A token that a static lease holds.
pub const HELD: char = '█';

/// A token that the jobserver tasks are estimated to use.
pub const IN_USE: char = '▓';

/// A token that is there for the taking.
pub const FREE: char = '░';

/// The place of the widest segment, the last of them where several are.
pub open spec fn widest(bar: Seq<nat>) -> int {
    if bar[2] >= bar[0] && bar[2] >= bar[1] {
        2
    } else if bar[1] >= bar[0] {
        1
    } else {
        0
    }
}

/// A segment that holds tokens but has no cell gets one from the widest, if that can
/// spare it.
pub open spec fn lent(bar: Seq<nat>, i: int, tokens: nat) -> Seq<nat> {
    let w = widest(bar);
    if tokens == 0 || bar[i] > 0 || bar[w] <= 1 {
        bar
    } else {
        bar.update(w, (bar[w] - 1) as nat).update(i, 1)
    }
}

/// Where a bar of `cells` for `pool` tokens is cut for a number of them, rounded
/// down.
pub open spec fn boundary(tokens: nat, cells: nat, pool: nat) -> nat {
    let at = tokens * cells / pool;
    if at > cells {
        cells
    } else {
        at
    }
}

/// The bar before anything is lent: cut at scaled boundaries, so that no segment
/// rounds itself into the cells of the next.
pub open spec fn cut(pool: nat, free: nat, held: nat, cells: nat) -> Seq<nat> {
    let a = boundary(held, cells, pool);
    let b = boundary(held + in_use(pool, free, held), cells, pool);
    seq![a, (b - a) as nat, (cells - b) as nat]
}

/// How many cells of a bar each segment gets: held, in use, free.
pub open spec fn bar_of(pool: nat, free: nat, held: nat, width: nat) -> Seq<nat> {
    if pool == 0 || width == 0 {
        seq![0, 0, 0]
    } else {
        let cells = if pool < width {
            pool
        } else {
            width
        };
        lent(
            lent(lent(cut(pool, free, held, cells), 0, held), 1, in_use(pool, free, held)),
            2,
            free,
        )
    }
}

proof fn lemma_boundary(a: nat, b: nat, cells: nat, pool: nat)
    requires
        pool > 0,
        a <= b,
    ensures
        boundary(a, cells, pool) <= boundary(b, cells, pool) <= cells,
{
    assert(a * cells / pool <= b * cells / pool) by (nonlinear_arith)
        requires
            pool > 0,
            a <= b,
    ;
}

fn borrow_cell(bar: &mut Vec<u64>, i: usize, tokens: u64)
    requires
        old(bar)@.len() == 3,
        i < 3,
    ensures
        final(bar)@.len() == 3,
        nats(final(bar)@) == lent(nats(old(bar)@), i as int, tokens as nat),
{
    let ghost before = nats(bar@);
    if tokens == 0 || bar[i] > 0 {
        return;
    }
    let w: usize = if bar[2] >= bar[0] && bar[2] >= bar[1] {
        2
    } else if bar[1] >= bar[0] {
        1
    } else {
        0
    };
    if bar[w] > 1 {
        let less: u64 = bar[w] - 1;
        bar.set(w, less);
        bar.set(i, 1);
    }
    assert(nats(bar@) =~= lent(before, i as int, tokens as nat));
}

/// Numbers, mathematically.
pub open spec fn nats(v: Seq<u64>) -> Seq<nat> {
    Seq::new(v.len(), |i: int| v[i] as nat)
}

/// How many cells of a `width`-wide bar each segment gets: held, in use, free. One
/// cell is one token while the bar fits; where it does not, the pool is scaled into
/// it, since a bar cut off at the edge would hide the free tokens.
pub fn segments(reply: &StatusReply, width: u64) -> (r: (u64, u64, u64))
    ensures
        seq![r.0 as nat, r.1 as nat, r.2 as nat] == bar_of(
            reply.pool_size as nat,
            reply.free as nat,
            reply.held as nat,
            width as nat,
        ),
{
    let pool: u64 = reply.pool_size as u64;
    if pool == 0 || width == 0 {
        return (0, 0, 0);
    }
    let cells: u64 = if pool < width {
        pool
    } else {
        width
    };
    let held: u64 = reply.held as u64;
    let used: u64 = approx_in_use(reply) as u64;
    assert(held + used <= u32::MAX);
    assert(held * cells <= 0xffff_ffff * 0xffff_ffff) by (nonlinear_arith)
        requires
            held <= 0xffff_ffff,
            cells <= 0xffff_ffff,
    ;
    assert((held + used) * cells <= 0xffff_ffff * 0xffff_ffff) by (nonlinear_arith)
        requires
            held + used <= 0xffff_ffff,
            cells <= 0xffff_ffff,
    ;
    let held_at: u64 = held * cells / pool;
    let used_at: u64 = (held + used) * cells / pool;
    let a: u64 = if held_at > cells {
        cells
    } else {
        held_at
    };
    let b: u64 = if used_at > cells {
        cells
    } else {
        used_at
    };
    proof {
        lemma_boundary(held as nat, (held + used) as nat, cells as nat, pool as nat);
        assert(a == boundary(held as nat, cells as nat, pool as nat));
        assert(b == boundary((held + used) as nat, cells as nat, pool as nat));
    }
    let mut bar: Vec<u64> = Vec::new();
    bar.push(a);
    bar.push(b - a);
    bar.push(cells - b);
    assert(nats(bar@) =~= cut(pool as nat, reply.free as nat, held as nat, cells as nat));
    borrow_cell(&mut bar, 0, held);
    borrow_cell(&mut bar, 1, used);
    borrow_cell(&mut bar, 2, reply.free as u64);
    assert(seq![bar@[0] as nat, bar@[1] as nat, bar@[2] as nat] =~= nats(bar@));
    (bar[0], bar[1], bar[2])
}

/// The legend of a pool, with the age of its numbers where they are old.
pub open spec fn legend_text(reply: StatusReply, stale_ms: Option<u64>) -> Seq<char> {
    (match stale_ms {
        Some(ms) => "(stale "@ + decimal_of((ms / 1000) as nat) + "s) · "@,
        None => Seq::empty(),
    }) + decimal_of(reply.pool_size as nat) + " tokens · "@ + decimal_of(reply.held as nat)
        + " held · ~"@ + decimal_of(
        in_use(reply.pool_size as nat, reply.free as nat, reply.held as nat),
    ) + " in use · "@ + decimal_of(reply.free as nat) + " free"@
}

/// The legend of a pool. The mark of an old view comes first: the line is clipped
/// from the right.
pub fn legend(reply: &StatusReply, stale_ms: Option<u64>) -> (r: String)
    ensures
        r@ == legend_text(*reply, stale_ms),
{
    let mut out = match stale_ms {
        Some(ms) => {
            let mut out = copy("(stale ");
            out.append(decimal(ms / 1000).as_str());
            out.append("s) · ");
            out
        },
        None => String::new(),
    };
    out.append(decimal(reply.pool_size as u64).as_str());
    out.append(" tokens · ");
    out.append(decimal(reply.held as u64).as_str());
    out.append(" held · ~");
    out.append(decimal(approx_in_use(reply) as u64).as_str());
    out.append(" in use · ");
    out.append(decimal(reply.free as u64).as_str());
    out.append(" free");
    proof {
        assert(out@ =~= legend_text(*reply, stale_ms));
    }
    out
}

/// What the monitor knows about the pool.
#[derive(Debug)]
pub enum PoolView<'a> {
    /// The daemon's last reply, and how old it is once a later poll failed to
    /// replace it.
    Known { reply: &'a StatusReply, stale_ms: Option<u64> },
    /// No poll has come back yet.
    Pending,
    /// Nothing is listening: no daemon, so no pool.
    Absent,
    /// A daemon is there and is not answering, and none has answered yet.
    Unreachable(&'a str),
}

/// The characters of a bar.
pub open spec fn bar_text(bar: Seq<nat>) -> Seq<char> {
    repeated(HELD, bar[0]) + repeated(IN_USE, bar[1]) + repeated(FREE, bar[2])
}

/// The two lines of the panel. Without a pool there is no
/// bar: the first line says which case it is.
pub open spec fn panel_lines(view: PoolView, width: nat) -> (Seq<char>, Seq<char>) {
    match view {
        PoolView::Known { reply, stale_ms } => (
            bar_text(
                bar_of(reply.pool_size as nat, reply.free as nat, reply.held as nat, width),
            ),
            legend_text(*reply, stale_ms),
        ),
        PoolView::Pending => ("pool unknown (waiting for bzbd)"@, Seq::empty()),
        PoolView::Absent => ("pool idle (daemon not running)"@, Seq::empty()),
        PoolView::Unreachable(reason) => ("pool unknown: "@ + reason@, Seq::empty()),
    }
}

/// The panel about the pool.
#[derive(Debug)]
pub struct PoolGauge<'a> {
    pub view: &'a PoolView<'a>,
}

/// The colour of a character of the bar; nothing where it has none of its own.
pub open spec fn bar_color(view: PoolView, c: char) -> Option<Color> {
    match view {
        PoolView::Unreachable(_) => Some(Color::Red),
        PoolView::Known { .. } => if c == HELD {
            Some(Color::Cyan)
        } else if c == IN_USE {
            Some(Color::Yellow)
        } else if c == FREE {
            Some(Color::DarkGray)
        } else {
            None
        },
        PoolView::Pending | PoolView::Absent => None,
    }
}

impl<'a> PoolGauge<'a> {
    /// The colour of a character of the first line; nothing where it has none of its
    /// own.
    pub fn color_of(&self, c: char) -> (r: Option<Color>)
        ensures
            r == bar_color(*self.view, c),
    {
        match self.view {
            PoolView::Unreachable(_) => Some(Color::Red),
            PoolView::Known { .. } => if c == HELD {
                Some(Color::Cyan)
            } else if c == IN_USE {
                Some(Color::Yellow)
            } else if c == FREE {
                Some(Color::DarkGray)
            } else {
                None
            },
            PoolView::Pending | PoolView::Absent => None,
        }
    }

    /// The two lines of the panel, with a bar of at most `width` cells. The terminal
    /// cuts off the rest of a text that is wider.
    pub fn lines(&self, width: u16) -> (r: (String, String))
        ensures
            (r.0@, r.1@) == panel_lines(*self.view, width as nat),
    {
        match self.view {
            PoolView::Known { reply, stale_ms } => {
                let (held, used, free) = segments(reply, width as u64);
                let ghost bar = bar_of(
                    reply.pool_size as nat,
                    reply.free as nat,
                    reply.held as nat,
                    width as nat,
                );
                proof {
                    lemma_bar_sum(
                        reply.pool_size as nat,
                        reply.free as nat,
                        reply.held as nat,
                        width as nat,
                    );
                    assert(bar[0] == held && bar[1] == used && bar[2] == free) by {
                        assert(seq![held as nat, used as nat, free as nat] == bar);
                    }
                }
                let mut top = repeat(HELD, held as usize);
                top.append(repeat(IN_USE, used as usize).as_str());
                top.append(repeat(FREE, free as usize).as_str());
                (top, legend(reply, *stale_ms))
            },
            PoolView::Pending => {
                let r = (copy("pool unknown (waiting for bzbd)"), String::new());
                assert(r.1@ =~= Seq::empty());
                r
            },
            PoolView::Absent => {
                let r = (copy("pool idle (daemon not running)"), String::new());
                assert(r.1@ =~= Seq::empty());
                r
            },
            PoolView::Unreachable(reason) => {
                let mut top = copy("pool unknown: ");
                top.append(reason);
                let r = (top, String::new());
                assert(r.1@ =~= Seq::empty());
                r
            },
        }
    }
}

/// What one poll of the daemon came to.
#[derive(Debug)]
pub enum Poll {
    Reply(StatusReply),
    /// Nothing is listening, and no leases were left behind.
    Absent,
    /// Nothing is listening, but leases were left behind, or nobody can tell.
    Crashed(String),
    /// A daemon is there and did not answer.
    Failed(String),
}

/// What a socket that nobody listens on means, by the number of leases on record: an
/// idle pool only where there are none. What a daemon that died left running may
/// still be on the machine.
pub fn absent(recorded: Result<usize, String>) -> (r: Poll)
    ensures
        match recorded {
            Ok(n) => if n == 0 {
                r is Absent
            } else {
                r is Crashed && r->Crashed_0@ == "bzbd is not running, but "@ + decimal_of(
                    n as nat,
                )
                    + " lease(s) it held are still recorded; the tasks pueued started for them may still be on the machine"@
            },
            Err(err) => r is Crashed && r->Crashed_0@ == "bzbd is not running, and "@ + err@,
        },
{
    match recorded {
        Ok(n) => {
            if n == 0 {
                return Poll::Absent;
            }
            let mut out = copy("bzbd is not running, but ");
            out.append(decimal(n as u64).as_str());
            out.append(
                " lease(s) it held are still recorded; the tasks pueued started for them may still be on the machine",
            );
            Poll::Crashed(out)
        },
        Err(err) => {
            let mut out = copy("bzbd is not running, and ");
            out.append(err.as_str());
            Poll::Crashed(out)
        },
    }
}

/// The last thing that the monitor learned about the pool.
#[derive(Debug)]
pub struct Pool {
    last_good: Option<(StatusReply, u64)>,
    failure: Option<String>,
    polled: bool,
}

/// The same, mathematically.
#[verifier::ext_equal]
pub struct Learned {
    /// The last reply, and when it arrived.
    pub last_good: Option<(StatusReply, u64)>,
    /// Why the last poll gave none.
    pub failure: Option<String>,
    /// Whether any poll has come back.
    pub polled: bool,
}

impl View for Pool {
    type V = Learned;

    closed spec fn view(&self) -> Learned {
        Learned { last_good: self.last_good, failure: self.failure, polled: self.polled }
    }
}

/// What a poll adds to what is known. A failed poll loses a sample, not the view; a
/// daemon that is gone takes its pool with it.
pub open spec fn learned(before: Learned, poll: Poll, now_ms: u64) -> Learned {
    match poll {
        Poll::Reply(reply) => Learned {
            last_good: Some((reply, now_ms)),
            failure: None,
            polled: true,
        },
        Poll::Absent => Learned { last_good: None, failure: None, polled: true },
        Poll::Crashed(reason) => Learned {
            last_good: None,
            failure: Some(reason),
            polled: true,
        },
        Poll::Failed(reason) => Learned { failure: Some(reason), polled: true, ..before },
    }
}

impl Default for Pool {
    fn default() -> (r: Self)
        ensures
            r@ == (Learned { last_good: None, failure: None, polled: false }),
    {
        Pool { last_good: None, failure: None, polled: false }
    }
}

impl Pool {
    /// Takes in what a poll came to.
    pub fn record(&mut self, poll: Poll, now_ms: u64)
        ensures
            final(self)@ == learned(old(self)@, poll, now_ms),
    {
        self.polled = true;
        match poll {
            Poll::Reply(reply) => {
                self.last_good = Some((reply, now_ms));
                self.failure = None;
            },
            Poll::Absent => {
                self.last_good = None;
                self.failure = None;
            },
            Poll::Crashed(reason) => {
                self.last_good = None;
                self.failure = Some(reason);
            },
            Poll::Failed(reason) => {
                self.failure = Some(reason);
            },
        }
    }

    /// What there is to show.
    pub fn shown(&self, now_ms: u64) -> (r: PoolView<'_>)
        ensures
            match (self@.last_good, self@.failure) {
                (Some((reply, at)), failure) => r is Known && *r->reply == reply && r->stale_ms
                    == if failure is None {
                    None
                } else {
                    Some(
                        if now_ms > at {
                            (now_ms - at) as u64
                        } else {
                            0
                        },
                    )
                },
                (None, Some(reason)) => r is Unreachable && r->Unreachable_0@ == reason@,
                (None, None) => if self@.polled {
                    r is Absent
                } else {
                    r is Pending
                },
            },
    {
        match &self.last_good {
            Some((reply, at)) => {
                let stale_ms = if self.failure.is_some() {
                    Some(now_ms.saturating_sub(*at))
                } else {
                    None
                };
                PoolView::Known { reply, stale_ms }
            },
            None => match &self.failure {
                Some(reason) => PoolView::Unreachable(reason.as_str()),
                None => if self.polled {
                    PoolView::Absent
                } else {
                    PoolView::Pending
                },
            },
        }
    }
}

/// The sum of a bar's segments.
pub open spec fn bar_sum(bar: Seq<nat>) -> nat {
    bar[0] + bar[1] + bar[2]
}

proof fn lemma_lent(bar: Seq<nat>, i: int, tokens: nat)
    requires
        bar.len() == 3,
        0 <= i < 3,
    ensures
        lent(bar, i, tokens).len() == 3,
        bar_sum(lent(bar, i, tokens)) == bar_sum(bar),
        forall|j: int| 0 <= j < 3 && bar[j] > 0 ==> (#[trigger] lent(bar, i, tokens)[j]) > 0,
        tokens > 0 && bar_sum(bar) >= 3 ==> lent(bar, i, tokens)[i] > 0,
{
    let w = widest(bar);
    if !(tokens == 0 || bar[i] > 0 || bar[w] <= 1) {
        assert(w != i);
        let t = bar.update(w, (bar[w] - 1) as nat).update(i, 1);
        assert(t.len() == 3);
        assert(t[i] == 1);
        assert(t[w] == bar[w] - 1);
        assert forall|j: int| 0 <= j < 3 && bar[j] > 0 implies (#[trigger] t[j]) > 0 by {}
    }
}

proof fn lemma_bar_sum(pool: nat, free: nat, held: nat, width: nat)
    ensures
        bar_of(pool, free, held, width).len() == 3,
        bar_sum(bar_of(pool, free, held, width)) == if pool < width {
            pool
        } else {
            width
        } || pool == 0 || width == 0,
        bar_sum(bar_of(pool, free, held, width)) <= width,
{
    if pool > 0 && width > 0 {
        let cells = if pool < width {
            pool
        } else {
            width
        };
        let used = in_use(pool, free, held);
        lemma_boundary(held, held + used, cells, pool);
        let bar = cut(pool, free, held, cells);
        assert(bar_sum(bar) == cells);
        lemma_lent(bar, 0, held);
        lemma_lent(lent(bar, 0, held), 1, used);
        lemma_lent(lent(lent(bar, 0, held), 1, used), 2, free);
    }
}

/// The segments fill the bar: one cell for each token, or the width where the pool
/// is wider than that.
pub proof fn law_the_segments_fill_the_bar(pool: nat, free: nat, held: nat, width: nat)
    requires
        pool > 0,
        width > 0,
    ensures
        bar_sum(bar_of(pool, free, held, width)) == if pool < width {
            pool
        } else {
            width
        },
{
    lemma_bar_sum(pool, free, held, width);
}

/// Scaling never rounds a segment that holds tokens to nothing, as long as the bar
/// has a cell for each of the three.
pub proof fn law_no_segment_is_rounded_away(pool: nat, free: nat, held: nat, width: nat)
    requires
        pool >= 3,
        width >= 3,
    ensures
        ({
            let bar = bar_of(pool, free, held, width);
            &&& held > 0 ==> bar[0] > 0
            &&& in_use(pool, free, held) > 0 ==> bar[1] > 0
            &&& free > 0 ==> bar[2] > 0
        }),
{
    let cells = if pool < width {
        pool
    } else {
        width
    };
    let used = in_use(pool, free, held);
    lemma_boundary(held, held + used, cells, pool);
    let bar = cut(pool, free, held, cells);
    assert(bar_sum(bar) == cells);
    let one = lent(bar, 0, held);
    let two = lent(one, 1, used);
    let three = lent(two, 2, free);
    lemma_lent(bar, 0, held);
    lemma_lent(one, 1, used);
    lemma_lent(two, 2, free);
    assert(held > 0 ==> one[0] > 0);
    assert(one[0] > 0 ==> two[0] > 0);
    assert(two[0] > 0 ==> three[0] > 0);
    assert(two[1] > 0 ==> three[1] > 0);
}

/// A bar that fits shows a cell for each token.
pub proof fn law_a_bar_that_fits_shows_every_token(pool: nat, free: nat, held: nat, width: nat)
    requires
        0 < pool <= width,
        held + free <= pool,
    ensures
        bar_of(pool, free, held, width) == seq![held, (pool - free - held) as nat, free],
{
    let used = in_use(pool, free, held);
    assert(held + used == pool - free);
    assert(held * pool / pool == held) by (nonlinear_arith)
        requires
            pool > 0,
    ;
    assert((held + used) * pool / pool == held + used) by (nonlinear_arith)
        requires
            pool > 0,
    ;
    let bar = cut(pool, free, held, pool);
    assert(bar =~= seq![held, used, free]);
    assert(lent(bar, 0, held) =~= bar);
    assert(lent(bar, 1, used) =~= bar);
    assert(lent(bar, 2, free) =~= bar);
}

/// A border between two segments stands at its tokens' share of the bar, rounded
/// down to a cell.
pub proof fn law_a_border_stands_at_its_share(tokens: nat, cells: nat, pool: nat)
    requires
        pool > 0,
    ensures
        boundary(tokens, cells, pool) <= cells,
        tokens <= pool ==> boundary(tokens, cells, pool) * pool <= tokens * cells,
        tokens <= pool ==> tokens * cells < (boundary(tokens, cells, pool) + 1) * pool,
        tokens >= pool ==> boundary(tokens, cells, pool) == cells,
{
    let x = (tokens * cells) as int;
    let p = pool as int;
    let at = x / p;
    assert(at * p <= x < (at + 1) * p) by (nonlinear_arith)
        requires
            p > 0,
            at == x / p,
    ;
    if tokens <= pool {
        assert(tokens * cells <= cells * pool) by (nonlinear_arith)
            requires
                tokens <= pool,
        ;
        assert(at <= cells) by (nonlinear_arith)
            requires
                at * p <= x,
                x <= cells * pool,
                p == pool,
                p > 0,
        ;
    }
    if tokens >= pool {
        assert(tokens * cells >= cells * pool) by (nonlinear_arith)
            requires
                tokens >= pool,
        ;
        assert(at >= cells) by (nonlinear_arith)
            requires
                x < (at + 1) * p,
                x >= cells * pool,
                p == pool,
                p > 0,
        ;
    }
}

/// The segments stand for what is held, what is in use and what is free, in this
/// order: each border is at its share, and a segment that would vanish borrows one
/// cell from the widest, so that none is more than three cells off.
pub proof fn law_the_segments_are_held_in_use_and_free(
    pool: nat,
    free: nat,
    held: nat,
    width: nat,
)
    requires
        pool > 0,
        width > 0,
    ensures
        ({
            let cells = if pool < width {
                pool
            } else {
                width
            };
            let a = boundary(held, cells, pool);
            let b = boundary(held + in_use(pool, free, held), cells, pool);
            let bar = bar_of(pool, free, held, width);
            &&& bar.len() == 3
            &&& a - 3 <= bar[0] <= a + 1
            &&& b - a - 3 <= bar[1] <= b - a + 1
            &&& cells - b - 3 <= bar[2] <= cells - b + 1
        }),
{
    let cells = if pool < width {
        pool
    } else {
        width
    };
    let used = in_use(pool, free, held);
    lemma_boundary(held, held + used, cells, pool);
    let bar = cut(pool, free, held, cells);
    let one = lent(bar, 0, held);
    let two = lent(one, 1, used);
    lemma_lent_one(bar, 0, held);
    lemma_lent_one(one, 1, used);
    lemma_lent_one(two, 2, free);
}

proof fn lemma_lent_one(bar: Seq<nat>, i: int, tokens: nat)
    requires
        bar.len() == 3,
        0 <= i < 3,
    ensures
        ({
            let t = lent(bar, i, tokens);
            &&& t.len() == 3
            &&& bar[0] - 1 <= t[0] && (i != 0 ==> t[0] <= bar[0]) && t[0] <= bar[0] + 1
            &&& bar[1] - 1 <= t[1] && (i != 1 ==> t[1] <= bar[1]) && t[1] <= bar[1] + 1
            &&& bar[2] - 1 <= t[2] && (i != 2 ==> t[2] <= bar[2]) && t[2] <= bar[2] + 1
        }),
{
}

/// What is drawn of the bar: a cell of its own kind for each cell of a segment.
pub proof fn law_each_cell_is_drawn(bar: Seq<nat>, i: int)
    requires
        bar.len() == 3,
        0 <= i < bar_sum(bar),
    ensures
        bar_text(bar).len() == bar_sum(bar),
        i < bar[0] ==> bar_text(bar)[i] == '█',
        bar[0] <= i < bar[0] + bar[1] ==> bar_text(bar)[i] == '▓',
        i >= bar[0] + bar[1] ==> bar_text(bar)[i] == '░',
{
}

/// What the monitor learns: a reply is the last good one, and clears a failure; a
/// failure leaves it standing; a daemon that is not there, or crashed, leaves
/// nothing.
pub proof fn law_a_failure_leaves_the_last_reply(before: Learned, poll: Poll, now_ms: u64)
    ensures
        learned(before, poll, now_ms).polled,
        poll matches Poll::Reply(reply) ==> learned(before, poll, now_ms).last_good == Some(
            (reply, now_ms),
        ) && learned(before, poll, now_ms).failure is None,
        poll matches Poll::Failed(reason) ==> learned(before, poll, now_ms).last_good
            == before.last_good && learned(before, poll, now_ms).failure == Some(reason),
        poll is Absent ==> learned(before, poll, now_ms).last_good is None && learned(
            before,
            poll,
            now_ms,
        ).failure is None,
        poll matches Poll::Crashed(reason) ==> learned(before, poll, now_ms).last_good is None
            && learned(before, poll, now_ms).failure == Some(reason),
{
}

/// The kinds of cells are told apart by their colours, and what cannot be learned is
/// red; nothing is coloured while nothing is known.
pub proof fn law_the_colours_of_the_bar(view: PoolView, c: char)
    ensures
        view is Known ==> {
            &&& bar_color(view, '█') == Some(Color::Cyan)
            &&& bar_color(view, '▓') == Some(Color::Yellow)
            &&& bar_color(view, '░') == Some(Color::DarkGray)
            &&& c != '█' && c != '▓' && c != '░' ==> bar_color(view, c) is None
        },
        view is Unreachable ==> bar_color(view, c) == Some(Color::Red),
        view is Pending || view is Absent ==> bar_color(view, c) is None,
{
}

} // verus!
