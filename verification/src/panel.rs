//! One line about the queue: what runs, and how much waits. What does not fit is
//! scrolled.

use vstd::prelude::*;
use vstd::string::*;

use crate::recovery::file_name;
use crate::status::{QueueSnapshot, TaskView};
use crate::text::{chars_of, copy, decimal, repeat, text_of};

#[allow(unused_imports)]
use crate::recovery::file_name_of;
#[allow(unused_imports)]
use crate::text::{decimal_of, maybe, repeated, slice_view};

verus! {

/// Milliseconds for each cell of scrolling.
pub const MARQUEE_STEP_MS: u64 = 125;

/// What stands between repeats.
pub const MARQUEE_SEPARATOR: &'static str = "   ·   ";

/// What a task is called: its label, else its directory and command.
pub open spec fn primary_of(task: TaskView) -> Seq<char> {
    if task.label is Some && task.label->0@.len() > 0 {
        task.label->0@
    } else {
        match file_name_of(task.path@) {
            Some(folder) => folder + ": "@ + task.command@,
            None => task.command@,
        }
    }
}

/// What a task is called: its label, else its directory and command.
pub fn primary_for(task: &TaskView) -> (r: String)
    ensures
        r@ == primary_of(*task),
{
    if let Some(label) = &task.label {
        if chars_of(label.as_str()).len() > 0 {
            return label.clone();
        }
    }
    match file_name(task.path.as_str()) {
        Some(folder) => {
            let mut out = folder;
            out.append(": ");
            out.append(task.command.as_str());
            out
        },
        None => task.command.clone(),
    }
}

/// How much waits.
pub open spec fn queue_text(n: nat) -> Seq<char> {
    "  ·  In Queue: "@ + decimal_of(n)
}

/// The parts of the line: what is fixed on the left, what is called by a name, and
/// what is fixed on the right.
pub open spec fn parts_of(snapshot: QueueSnapshot) -> (Seq<char>, Option<Seq<char>>, Seq<char>) {
    let n = snapshot.queued@.len();
    match snapshot.running {
        Some(task) => ("Running: "@, Some(primary_of(task)), queue_text(n)),
        None => (
            "Idle"@,
            None,
            if n == 0 {
                Seq::empty()
            } else {
                queue_text(n)
            },
        ),
    }
}

/// The parts of the line.
pub fn line_parts(snapshot: &QueueSnapshot) -> (r: (String, Option<String>, String))
    ensures
        (r.0@, maybe(r.1), r.2@) == parts_of(*snapshot),
{
    let remaining = snapshot.queued.len();
    let mut count = copy("  ·  In Queue: ");
    count.append(decimal(remaining as u64).as_str());
    match &snapshot.running {
        Some(task) => (copy("Running: "), Some(primary_for(task)), count),
        None => {
            let right = if remaining == 0 {
                let none = String::new();
                assert(none@ =~= Seq::empty());
                none
            } else {
                count
            };
            (copy("Idle"), None, right)
        },
    }
}

/// A text cut off with an ellipsis.
pub open spec fn truncated(s: Seq<char>, max: nat) -> Seq<char> {
    if max == 0 {
        Seq::empty()
    } else if s.len() <= max {
        s
    } else {
        s.take(max - 1).push('…')
    }
}

/// A text cut off with an ellipsis where it is longer than `max`.
pub fn truncate(s: &str, max: usize) -> (r: String)
    ensures
        r@ == truncated(s@, max as nat),
{
    if max == 0 {
        let none = String::new();
        assert(none@ =~= Seq::empty());
        return none;
    }
    let all = chars_of(s);
    if all.len() <= max {
        copy(s)
    } else {
        let mut out = text_of(vstd::slice::slice_subrange(all.as_slice(), 0, max - 1));
        assert(out@ =~= s@.take(max - 1));
        out.push('…');
        out
    }
}

/// What scrolls by: the text and what stands between its repeats.
pub open spec fn cycle_of(primary: Seq<char>) -> Seq<char> {
    primary + MARQUEE_SEPARATOR@
}

/// The window onto what scrolls by.
pub open spec fn window_of(primary: Seq<char>, width: nat, offset: nat) -> Seq<char> {
    let cycle = cycle_of(primary);
    Seq::new(width, |i: int| cycle[(offset + i) % (cycle.len() as int)])
}

/// The window of `width` onto what scrolls by, after `offset` cells.
pub fn marquee_window(primary: &str, width: usize, offset: u64) -> (r: String)
    ensures
        r@ == window_of(primary@, width as nat, offset as nat),
{
    let mut cycle = chars_of(primary);
    let mut separator = chars_of(MARQUEE_SEPARATOR);
    cycle.append(&mut separator);
    proof {
        reveal_strlit("   ·   ");
        assert(cycle@ =~= cycle_of(primary@));
        assert(cycle@.len() > 0);
    }
    let len = cycle.len();
    let mut at: usize = (offset % (len as u64)) as usize;
    let mut out = String::new();
    let mut i: usize = 0;
    let ghost want = window_of(primary@, width as nat, offset as nat);
    assert(out@ =~= want.take(0));
    assert(offset as int % len as int == at);
    while i < width
        invariant
            i <= width,
            len == cycle@.len(),
            len > 0,
            at < len,
            at == (offset + i) % (len as int),
            cycle@ == cycle_of(primary@),
            want == window_of(primary@, width as nat, offset as nat),
            out@ == want.take(i as int),
        decreases width - i,
    {
        out.push(cycle[at]);
        assert(want[i as int] == cycle@[at as int]);
        assert(out@ =~= want.take(i + 1));
        proof {
            lemma_next_mod(offset + i, len as int);
        }
        at = if at + 1 == len {
            0
        } else {
            at + 1
        };
        i = i + 1;
    }
    assert(want.take(width as int) =~= want);
    out
}

proof fn lemma_next_mod(a: int, n: int)
    requires
        a >= 0,
        n > 0,
    ensures
        (a + 1) % n == if a % n + 1 == n {
            0
        } else {
            a % n + 1
        },
{
    vstd::arithmetic::div_mod::lemma_fundamental_div_mod(a, n);
    let q = a / n;
    let m = a % n;
    if m + 1 == n {
        assert((a + 1) % n == 0) by (nonlinear_arith)
            requires
                a == n * q + m,
                m + 1 == n,
                n > 0,
        ;
    } else {
        assert(n * q == q * n) by (nonlinear_arith);
        vstd::arithmetic::div_mod::lemma_fundamental_div_mod_converse(a + 1, n, q, m + 1);
    }
}

/// The line at a width, after a time.
pub open spec fn line_of(
    left: Seq<char>,
    primary: Option<Seq<char>>,
    right: Seq<char>,
    width: nat,
    elapsed_ms: nat,
) -> Seq<char> {
    let fixed = left.len() + right.len();
    let budget = if width > fixed {
        (width - fixed) as nat
    } else {
        0
    };
    match primary {
        None => left + repeated(' ', budget) + right,
        Some(p) => if budget <= 3 {
            let t = truncated(p, budget);
            left + t + repeated(' ', (budget - t.len()) as nat) + right
        } else if p.len() <= budget {
            left + p + repeated(' ', (budget - p.len()) as nat) + right
        } else {
            left + window_of(p, budget, elapsed_ms / (MARQUEE_STEP_MS as nat)) + right
        },
    }
}

/// The line at a width, after a time: the middle is padded where it fits, scrolled
/// where it does not, and cut off where there is no room to scroll.
pub fn compose_line(
    left: &str,
    primary: Option<&str>,
    right: &str,
    width: usize,
    elapsed_ms: u64,
) -> (r: String)
    ensures
        r@ == line_of(left@, slice_view(primary), right@, width as nat, elapsed_ms as nat),
{
    let left_len = chars_of(left).len();
    let right_len = chars_of(right).len();
    let budget = width.saturating_sub(left_len).saturating_sub(right_len);
    let mut out = copy(left);
    match primary {
        None => {
            out.append(repeat(' ', budget).as_str());
        },
        Some(p) => {
            let len = chars_of(p).len();
            if budget <= 3 {
                let short = truncate(p, budget);
                let kept = chars_of(short.as_str()).len();
                out.append(short.as_str());
                out.append(repeat(' ', budget - kept).as_str());
            } else if len <= budget {
                out.append(p);
                out.append(repeat(' ', budget - len).as_str());
            } else {
                out.append(marquee_window(p, budget, elapsed_ms / MARQUEE_STEP_MS).as_str());
            }
        },
    }
    out.append(right);
    out
}

/// The line about a queue, some time after it was first shown.
#[derive(Debug)]
pub struct StatusPanel<'a> {
    pub snapshot: &'a QueueSnapshot,
    pub elapsed_ms: u64,
}

impl<'a> StatusPanel<'a> {
    /// The whole line.
    pub fn line(&self, width: usize) -> (r: String)
        ensures
            ({
                let (left, primary, right) = parts_of(*self.snapshot);
                r@ == line_of(left, primary, right, width as nat, self.elapsed_ms as nat)
            }),
    {
        let (left, primary, right) = line_parts(self.snapshot);
        let middle = match &primary {
            Some(p) => Some(p.as_str()),
            None => None,
        };
        compose_line(left.as_str(), middle, right.as_str(), width, self.elapsed_ms)
    }
}

/// Scrolling comes round: after as many cells as there are, it is where it began.
pub proof fn law_scrolling_comes_round(primary: Seq<char>, width: nat, offset: nat)
    ensures
        window_of(primary, width, offset + cycle_of(primary).len()) == window_of(
            primary,
            width,
            offset,
        ),
{
    reveal_strlit("   ·   ");
    let n = cycle_of(primary).len() as int;
    let a = window_of(primary, width, offset + cycle_of(primary).len());
    let b = window_of(primary, width, offset);
    assert forall|i: int| 0 <= i < width implies a[i] == b[i] by {
        vstd::arithmetic::div_mod::lemma_mod_add_multiples_vanish(offset + i, n);
        assert(offset + n + i == n + (offset + i));
    }
    assert(a =~= b);
}

/// Scrolling by one cell moves every character one place to the left.
pub proof fn law_scrolling_moves_to_the_left(primary: Seq<char>, width: nat, offset: nat, i: int)
    requires
        0 <= i,
        i + 1 < width,
    ensures
        window_of(primary, width, offset + 1)[i] == window_of(primary, width, offset)[i + 1],
{
    assert(offset + 1 + i == offset + (i + 1));
}

/// The line is as wide as the screen, as long as what is fixed fits.
pub proof fn law_the_line_fills_the_width(
    left: Seq<char>,
    primary: Option<Seq<char>>,
    right: Seq<char>,
    width: nat,
    elapsed_ms: nat,
)
    requires
        left.len() + right.len() <= width,
    ensures
        line_of(left, primary, right, width, elapsed_ms).len() == width,
{
}

/// What fits stands still.
pub proof fn law_what_fits_stands_still(
    left: Seq<char>,
    primary: Seq<char>,
    right: Seq<char>,
    width: nat,
    a: nat,
    b: nat,
)
    requires
        left.len() + primary.len() + right.len() <= width,
    ensures
        line_of(left, Some(primary), right, width, a) == line_of(
            left,
            Some(primary),
            right,
            width,
            b,
        ),
{
}

/// A task is called by its label, and where it has none by the folder it runs in and
/// its command.
pub proof fn law_a_task_is_called_by_its_label(task: TaskView)
    ensures
        task.label is Some && task.label->0@.len() > 0 ==> primary_of(task) == task.label->0@,
        !(task.label is Some && task.label->0@.len() > 0) && file_name_of(task.path@) is Some
            ==> primary_of(task) == file_name_of(task.path@)->0 + ": "@ + task.command@,
        !(task.label is Some && task.label->0@.len() > 0) && file_name_of(task.path@) is None
            ==> primary_of(task) == task.command@,
{
}

/// The panel says what runs and how many wait; where nothing runs it says so, and
/// how many wait only where some do.
pub proof fn law_the_panel_says_what_runs_and_how_many_wait(snapshot: QueueSnapshot)
    ensures
        ({
            let (left, primary, right) = parts_of(snapshot);
            let n = snapshot.queued@.len();
            &&& snapshot.running is Some ==> left == "Running: "@ && primary == Some(
                primary_of(snapshot.running->0),
            )
            &&& snapshot.running is None ==> left == "Idle"@ && primary is None
            &&& snapshot.running is None && n == 0 ==> right.len() == 0
            &&& snapshot.running is Some || n > 0 ==> right == "  ·  In Queue: "@ + decimal_of(n)
        }),
{
}

/// A text that does not fit is cut short, with an ellipsis as the last character.
pub proof fn law_a_text_is_cut_to_its_width(s: Seq<char>, max: nat)
    ensures
        truncated(s, max).len() == if s.len() <= max {
            s.len()
        } else {
            max
        },
        s.len() <= max ==> truncated(s, max) == s,
        s.len() > max > 0 ==> truncated(s, max).last() == '…' && truncated(s, max).drop_last()
            == s.take(max - 1),
{
    if s.len() > max && max > 0 {
        assert(truncated(s, max).drop_last() =~= s.take(max - 1));
    }
    if max == 0 && s.len() == 0 {
        assert(s =~= Seq::empty());
    }
}

/// In a line with no more than three places for it a text is cut short and stands
/// still, however much time has passed.
pub proof fn law_a_narrow_line_stands_still(
    left: Seq<char>,
    p: Seq<char>,
    right: Seq<char>,
    width: nat,
    now: nat,
    later: nat,
)
    requires
        width <= left.len() + right.len() + 3,
    ensures
        line_of(left, Some(p), right, width, now) == line_of(left, Some(p), right, width, later),
        ({
            let room = if width > left.len() + right.len() {
                (width - left.len() - right.len()) as nat
            } else {
                0
            };
            let line = line_of(left, Some(p), right, width, now);
            let cut = truncated(p, room);
            &&& line.len() == left.len() + room + right.len()
            &&& line.take((left.len() + cut.len()) as int) == left + cut
        }),
{
    let room = if width > left.len() + right.len() {
        (width - left.len() - right.len()) as nat
    } else {
        0
    };
    let line = line_of(left, Some(p), right, width, now);
    let cut = truncated(p, room);
    law_a_text_is_cut_to_its_width(p, room);
    assert(line.take((left.len() + cut.len()) as int) =~= left + cut);
}

} // verus!
