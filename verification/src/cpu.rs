//! How busy each core is.

use vstd::prelude::*;

use crate::text::{chars_of, parse_number, starts_with, text_of};

#[allow(unused_imports)]
use crate::text::{begins, decimal_of, law_a_decimal_reads_back, number_in};

verus! {

/// Tick counters of one core.
#[derive(Debug, Clone, Copy, PartialEq, Eq, Structural)]
pub struct CoreSample {
    pub user: u64,
    pub system: u64,
    pub idle: u64,
    pub nice: u64,
}

impl Default for CoreSample {
    fn default() -> (r: Self)
        ensures
            r == (CoreSample { user: 0, system: 0, idle: 0, nice: 0 }),
    {
        CoreSample { user: 0, system: 0, idle: 0, nice: 0 }
    }
}

impl CoreSample {
    /// All ticks.
    pub open spec fn all(self) -> nat {
        self.user as nat + self.system as nat + self.idle as nat + self.nice as nat
    }

    /// The ticks that were not idle.
    pub open spec fn busy(self) -> nat {
        self.user as nat + self.system as nat + self.nice as nat
    }

    /// All ticks.
    pub fn total(&self) -> (r: u64)
        requires
            self.all() <= u64::MAX,
        ensures
            r == self.all(),
    {
        self.user + self.system + self.idle + self.nice
    }

    /// The ticks that were not idle.
    pub fn active(&self) -> (r: u64)
        requires
            self.busy() <= u64::MAX,
        ensures
            r == self.busy(),
    {
        self.user + self.system + self.nice
    }
}

/// What a number grew by, nothing where it did not grow.
pub open spec fn grew(from: nat, to: nat) -> nat {
    if to > from {
        (to - from) as nat
    } else {
        0
    }
}

/// The share of the ticks between two samples that were not idle, in percent.
pub open spec fn usage(prev: CoreSample, curr: CoreSample) -> nat {
    let total = grew(prev.all(), curr.all());
    if total == 0 {
        0
    } else {
        let percent = grew(prev.busy(), curr.busy()) * 100 / total;
        if percent > 100 {
            100
        } else {
            percent
        }
    }
}

/// The share of the ticks between two samples that were not idle, in percent.
pub fn usage_percent(prev: CoreSample, curr: CoreSample) -> (r: u8)
    ensures
        r == usage(prev, curr),
        r <= 100,
{
    let before: u128 = prev.user as u128 + prev.system as u128 + prev.idle as u128
        + prev.nice as u128;
    let after: u128 = curr.user as u128 + curr.system as u128 + curr.idle as u128
        + curr.nice as u128;
    let total: u128 = after.saturating_sub(before);
    if total == 0 {
        return 0;
    }
    let busy_before: u128 = prev.user as u128 + prev.system as u128 + prev.nice as u128;
    let busy_after: u128 = curr.user as u128 + curr.system as u128 + curr.nice as u128;
    let active: u128 = busy_after.saturating_sub(busy_before);
    let percent: u128 = active * 100 / total;
    if percent > 100 {
        100
    } else {
        percent as u8
    }
}

/// The usage of each core, between two samples of them all.
pub fn usages(prev: &[CoreSample], curr: &[CoreSample]) -> (r: Vec<u8>)
    ensures
        r@.len() == if prev@.len() <= curr@.len() {
            prev@.len()
        } else {
            curr@.len()
        },
        forall|i: int| 0 <= i < r@.len() ==> (#[trigger] r@[i]) == usage(prev@[i], curr@[i]),
{
    let mut out: Vec<u8> = Vec::new();
    let mut i: usize = 0;
    while i < prev.len() && i < curr.len()
        invariant
            i <= prev@.len(),
            i <= curr@.len(),
            out@.len() == i,
            forall|j: int| 0 <= j < i ==> (#[trigger] out@[j]) == usage(prev@[j], curr@[j]),
        decreases prev@.len() - i,
    {
        out.push(usage_percent(prev[i], curr[i]));
        i = i + 1;
    }
    out
}

/// Whether a character separates words.
pub open spec fn is_space(c: char) -> bool {
    let n = c as u32;
    (9 <= n <= 13) || n == 0x20 || n == 0x85 || n == 0xa0 || n == 0x1680 || (0x2000 <= n
        <= 0x200a) || n == 0x2028 || n == 0x2029 || n == 0x202f || n == 0x205f || n == 0x3000
}

/// Whether a character separates words.
pub fn spaces(c: char) -> (r: bool)
    ensures
        r == is_space(c),
{
    let n = c as u32;
    (9 <= n && n <= 13) || n == 0x20 || n == 0x85 || n == 0xa0 || n == 0x1680 || (0x2000 <= n && n
        <= 0x200a) || n == 0x2028 || n == 0x2029 || n == 0x202f || n == 0x205f || n == 0x3000
}

/// How many characters stand before the first space.
pub open spec fn word_end(s: Seq<char>) -> nat
    decreases s.len(),
{
    if s.len() == 0 || is_space(s[0]) {
        0
    } else {
        1 + word_end(s.skip(1))
    }
}

/// A word ends within its text.
pub proof fn lemma_word_end(s: Seq<char>)
    ensures
        word_end(s) <= s.len(),
    decreases s.len(),
{
    if s.len() > 0 && !is_space(s[0]) {
        lemma_word_end(s.skip(1));
    }
}

/// The words of a line.
pub open spec fn words(s: Seq<char>) -> Seq<Seq<char>>
    decreases s.len(),
{
    if s.len() == 0 {
        Seq::empty()
    } else if is_space(s[0]) {
        words(s.skip(1))
    } else {
        proof {
            lemma_word_end(s);
        }
        let e = word_end(s) as int;
        seq![s.take(e)] + if e <= 0 {
            Seq::empty()
        } else {
            words(s.skip(e))
        }
    }
}

/// How many characters stand before the first newline.
pub open spec fn line_end(s: Seq<char>) -> nat
    decreases s.len(),
{
    if s.len() == 0 || s[0] == '\n' {
        0
    } else {
        1 + line_end(s.skip(1))
    }
}

/// A line ends within its text.
pub proof fn lemma_line_end(s: Seq<char>)
    ensures
        line_end(s) <= s.len(),
    decreases s.len(),
{
    if s.len() > 0 && s[0] != '\n' {
        lemma_line_end(s.skip(1));
    }
}

/// A number, and 0 where a word is none or there is none.
pub open spec fn count_in(line: Seq<Seq<char>>, i: int) -> u64 {
    if i < line.len() {
        match number_in(line[i], u64::MAX as nat) {
            Some(n) => n as u64,
            None => 0,
        }
    } else {
        0
    }
}

/// The counters that the words of a line give.
pub open spec fn sample_in(line: Seq<Seq<char>>) -> CoreSample {
    CoreSample {
        user: count_in(line, 1),
        nice: count_in(line, 2),
        system: count_in(line, 3),
        idle: count_in(line, 4),
    }
}

/// The counters of each core, up to the first line that is not about one. The line
/// about all of them together is skipped.
pub open spec fn samples_in(s: Seq<char>) -> Seq<CoreSample>
    decreases s.len(),
{
    if s.len() == 0 {
        Seq::empty()
    } else {
        proof {
            lemma_line_end(s);
        }
        let e = line_end(s) as int;
        let line = s.take(e);
        let rest = s.skip(e + 1);
        if !begins(line, "cpu"@) {
            Seq::empty()
        } else {
            let more = if e >= s.len() {
                Seq::empty()
            } else {
                samples_in(rest)
            };
            if line.len() > 3 && line[3] == ' ' {
                more
            } else {
                seq![sample_in(words(line))] + more
            }
        }
    }
}

/// The words of a line.
pub fn split_words(s: &[char]) -> (r: Vec<String>)
    ensures
        crate::text::texts(r@) == words(s@),
{
    let mut out: Vec<String> = Vec::new();
    let mut i: usize = 0;
    assert(s@.skip(0) =~= s@);
    assert(crate::text::texts(out@) =~= Seq::empty());
    while i < s.len()
        invariant
            i <= s@.len(),
            words(s@) == crate::text::texts(out@) + words(s@.skip(i as int)),
        decreases s@.len() - i,
    {
        let ghost here = s@.skip(i as int);
        let ghost so_far = crate::text::texts(out@);
        assert(here.len() > 0 && here[0] == s@[i as int]);
        if spaces(s[i]) {
            assert(here.skip(1) =~= s@.skip(i + 1));
            i = i + 1;
        } else {
            let start = i;
            assert(here.skip(0) =~= here);
            while i < s.len() && !spaces(s[i])
                invariant
                    start <= i <= s@.len(),
                    here == s@.skip(start as int),
                    word_end(here) == (i - start) + word_end(here.skip(i - start)),
                decreases s@.len() - i,
            {
                assert(here.skip(i - start)[0] == s@[i as int]);
                assert(here.skip(i - start).skip(1) =~= here.skip(i + 1 - start));
                i = i + 1;
            }
            proof {
                if i < s@.len() {
                    assert(here.skip(i - start)[0] == s@[i as int]);
                } else {
                    assert(here.skip(i - start).len() == 0);
                }
                assert(word_end(here) == i - start);
                assert(word_end(here) > 0);
            }
            let word = text_of(vstd::slice::slice_subrange(s, start, i));
            assert(word@ =~= here.take(i - start));
            out.push(word);
            assert(here.skip(i - start) =~= s@.skip(i as int));
            assert(crate::text::texts(out@) =~= so_far.push(here.take(i - start)));
            assert(words(here) == seq![here.take(i - start)] + words(s@.skip(i as int)));
            assert(so_far.push(here.take(i - start)) + words(s@.skip(i as int)) =~= so_far + words(
                here,
            ));
        }
    }
    assert(s@.skip(i as int) =~= Seq::empty());
    assert(crate::text::texts(out@) + Seq::<Seq<char>>::empty() =~= crate::text::texts(out@));
    out
}

fn count(line: &[String], i: usize) -> (r: u64)
    ensures
        r == count_in(crate::text::texts(line@), i as int),
{
    if i < line.len() {
        match parse_number(line[i].as_str(), 0xffff_ffff_ffff_ffff) {
            Some(n) => n,
            None => 0,
        }
    } else {
        0
    }
}

/// Where the line that begins at `start` ends.
pub fn end_of_line(s: &[char], start: usize) -> (r: usize)
    requires
        start <= s@.len(),
    ensures
        start <= r <= s@.len(),
        line_end(s@.skip(start as int)) == r - start,
{
    let ghost here = s@.skip(start as int);
    let mut end: usize = start;
    assert(here.skip(0) =~= here);
    while end < s.len() && s[end] != '\n'
        invariant
            start <= end <= s@.len(),
            here == s@.skip(start as int),
            line_end(here) == (end - start) + line_end(here.skip(end - start)),
        decreases s@.len() - end,
    {
        assert(here.skip(end - start)[0] == s@[end as int]);
        assert(here.skip(end - start).skip(1) =~= here.skip(end + 1 - start));
        end = end + 1;
    }
    proof {
        if end < s@.len() {
            assert(here.skip(end - start)[0] == s@[end as int]);
        }
    }
    end
}

/// The counters of each core, as `/proc/stat` lists them.
pub fn parse_stat(text: &str) -> (r: Vec<CoreSample>)
    ensures
        r@ == samples_in(text@),
{
    let s = chars_of(text);
    let mut out: Vec<CoreSample> = Vec::new();
    let mut i: usize = 0;
    assert(text@.skip(0) =~= text@);
    proof {
        reveal_strlit("cpu");
    }
    while i < s.len()
        invariant
            s@ == text@,
            i <= s@.len(),
            samples_in(text@) == out@ + samples_in(text@.skip(i as int)),
            "cpu"@.len() == 3,
        decreases s@.len() - i,
    {
        let ghost here = text@.skip(i as int);
        let ghost so_far = out@;
        let start = i;
        let end = end_of_line(s.as_slice(), start);
        let line = vstd::slice::slice_subrange(s.as_slice(), start, end);
        assert(line@ =~= here.take(end - start));
        let shown = text_of(line);
        if !starts_with(shown.as_str(), "cpu") {
            assert(samples_in(here) =~= Seq::empty());
            assert(out@ + Seq::<CoreSample>::empty() =~= out@);
            return out;
        }
        let next: usize = if end < s.len() {
            end + 1
        } else {
            end
        };
        let ghost more = if end >= s@.len() {
            Seq::empty()
        } else {
            samples_in(here.skip(end - start + 1))
        };
        proof {
            if end < s@.len() {
                assert(here.skip(end - start + 1) =~= text@.skip(next as int));
            } else {
                assert(text@.skip(next as int) =~= Seq::empty());
            }
            assert(more == samples_in(text@.skip(next as int)));
        }
        if !(line.len() > 3 && line[3] == ' ') {
            let parts = split_words(line);
            out.push(
                CoreSample {
                    user: count(parts.as_slice(), 1),
                    system: count(parts.as_slice(), 3),
                    idle: count(parts.as_slice(), 4),
                    nice: count(parts.as_slice(), 2),
                },
            );
            let ghost one = sample_in(words(line@));
            assert(out@ =~= so_far.push(one));
            assert(so_far.push(one) + more =~= so_far + (seq![one] + more));
        }
        i = next;
    }
    assert(text@.skip(i as int) =~= Seq::empty());
    assert(out@ + Seq::<CoreSample>::empty() =~= out@);
    out
}

/// A core that did nothing but work in between was fully used, one that did nothing
/// at all was not used.
pub proof fn law_usage_spans_the_scale(prev: CoreSample, curr: CoreSample)
    requires
        prev.all() < curr.all(),
        prev.busy() <= curr.busy(),
    ensures
        prev.idle == curr.idle ==> usage(prev, curr) == 100,
        prev.busy() == curr.busy() ==> usage(prev, curr) == 0,
{
    let total = grew(prev.all(), curr.all());
    if prev.idle == curr.idle {
        assert(total * 100 / total == 100) by (nonlinear_arith)
            requires
                total > 0,
        ;
    }
    assert(0 * 100 / total == 0) by (nonlinear_arith)
        requires
            total > 0,
    ;
}

/// The usage of a core is the whole percent of the time in between that it worked,
/// and 0 where no time passed.
pub proof fn law_usage_is_the_percentage_that_was_worked(prev: CoreSample, curr: CoreSample)
    ensures
        prev.all() >= curr.all() ==> usage(prev, curr) == 0,
        prev.all() < curr.all() && prev.busy() <= curr.busy() && prev.idle <= curr.idle ==> {
            let total = curr.all() - prev.all();
            let busy = curr.busy() - prev.busy();
            usage(prev, curr) * total <= 100 * busy < (usage(prev, curr) + 1) * total
        },
        usage(prev, curr) <= 100,
{
    if prev.all() < curr.all() && prev.busy() <= curr.busy() && prev.idle <= curr.idle {
        let total = curr.all() - prev.all();
        let busy = curr.busy() - prev.busy();
        assert(busy <= total);
        let u = busy * 100 / total;
        assert(u * total <= busy * 100 < (u + 1) * total && u <= 100) by (nonlinear_arith)
            requires
                u == busy * 100 / total,
                0 <= busy <= total,
                total > 0,
        ;
    }
}

proof fn lemma_word_end_is(s: Seq<char>, n: nat)
    requires
        n <= s.len(),
        forall|i: int| 0 <= i < n ==> !is_space(#[trigger] s[i]),
        n < s.len() ==> is_space(s[n as int]),
    ensures
        word_end(s) == n,
    decreases s.len(),
{
    if n > 0 {
        assert(!is_space(s[0]));
        let t = s.skip(1);
        assert forall|i: int| 0 <= i < n - 1 implies !is_space(#[trigger] t[i]) by {
            assert(t[i] == s[i + 1]);
        }
        lemma_word_end_is(t, (n - 1) as nat);
    }
}

/// Words are what stands between spaces: a word in front of a space is the first, and
/// what follows the space has the others; a space in front makes no difference.
pub proof fn law_words_stand_between_spaces(word: Seq<char>, space: char, rest: Seq<char>)
    requires
        word.len() > 0,
        forall|i: int| 0 <= i < word.len() ==> !is_space(#[trigger] word[i]),
        is_space(space),
    ensures
        words(word + seq![space] + rest) == seq![word] + words(rest),
        words(seq![space] + rest) == words(rest),
        words(word) == seq![word],
{
    let s = word + seq![space] + rest;
    let n = word.len();
    assert forall|i: int| 0 <= i < n implies !is_space(#[trigger] s[i]) by {
        assert(s[i] == word[i]);
    }
    assert(s[n as int] == space);
    lemma_word_end_is(s, n);
    assert(s[0] == word[0]);
    assert(s.take(n as int) =~= word);
    let t = seq![space] + rest;
    assert(s.skip(n as int) =~= t);
    assert(t[0] == space);
    assert(t.skip(1) =~= rest);
    assert(words(t) == words(rest));
    assert(words(s) == seq![s.take(n as int)] + words(s.skip(n as int)));
    lemma_word_end_is(word, n);
    assert(!is_space(word[0]));
    assert(word.take(n as int) =~= word);
    assert(word.skip(n as int) =~= Seq::empty());
    assert(words(word.skip(n as int)) =~= Seq::empty());
    assert(seq![word] + Seq::<Seq<char>>::empty() =~= seq![word]);
}

/// Blanks, tabs and line ends are spaces; letters, digits and signs are not.
pub proof fn law_what_is_a_space(c: char)
    ensures
        c == ' ' || c == '\t' || c == '\n' || c == '\r' ==> is_space(c),
        0x21 <= c as u32 <= 0x7e ==> !is_space(c),
{
}

/// Of a line about a core the first number is the time of users, the second that of
/// nice ones, the third the system's and the fourth the idle time; what is missing
/// or no number counts for none.
pub proof fn law_the_columns_of_a_core(
    name: Seq<char>,
    user: u64,
    nice: u64,
    system: u64,
    idle: u64,
    rest: Seq<Seq<char>>,
)
    ensures
        sample_in(
            seq![
                name,
                decimal_of(user as nat),
                decimal_of(nice as nat),
                decimal_of(system as nat),
                decimal_of(idle as nat),
            ] + rest,
        ) == (CoreSample { user, system, idle, nice }),
        sample_in(seq![name]) == (CoreSample { user: 0, system: 0, idle: 0, nice: 0 }),
{
    let max = u64::MAX as nat;
    law_a_decimal_reads_back(user as nat, max);
    law_a_decimal_reads_back(nice as nat, max);
    law_a_decimal_reads_back(system as nat, max);
    law_a_decimal_reads_back(idle as nat, max);
    let line = seq![
        name,
        decimal_of(user as nat),
        decimal_of(nice as nat),
        decimal_of(system as nat),
        decimal_of(idle as nat),
    ] + rest;
    assert(line[1] == decimal_of(user as nat));
    assert(line[2] == decimal_of(nice as nat));
    assert(line[3] == decimal_of(system as nat));
    assert(line[4] == decimal_of(idle as nat));
}

/// A place that holds a line's end, or the end, with none before it is the first.
pub proof fn lemma_line_end_is(s: Seq<char>, n: nat)
    requires
        n <= s.len(),
        forall|i: int| 0 <= i < n ==> (#[trigger] s[i]) != '\n',
        n < s.len() ==> s[n as int] == '\n',
    ensures
        line_end(s) == n,
    decreases s.len(),
{
    if n > 0 {
        assert(s[0] != '\n');
        let t = s.skip(1);
        assert forall|i: int| 0 <= i < n - 1 implies (#[trigger] t[i]) != '\n' by {
            assert(t[i] == s[i + 1]);
        }
        lemma_line_end_is(t, (n - 1) as nat);
    }
}

/// Each line about a core gives a sample, in order; the line about all of them,
/// whose name is followed by a blank, gives none; and the first line about anything
/// else ends the list.
pub proof fn law_every_core_has_its_sample(line: Seq<char>, rest: Seq<char>)
    requires
        forall|i: int| 0 <= i < line.len() ==> (#[trigger] line[i]) != '\n',
    ensures
        begins(line, "cpu"@) && line.len() > 3 && line[3] != ' ' ==> samples_in(
            line + seq!['\n'] + rest,
        ) == seq![sample_in(words(line))] + samples_in(rest),
        begins(line, "cpu"@) && line.len() > 3 && line[3] == ' ' ==> samples_in(
            line + seq!['\n'] + rest,
        ) == samples_in(rest),
        !begins(line, "cpu"@) ==> samples_in(line + seq!['\n'] + rest).len() == 0,
{
    let s = line + seq!['\n'] + rest;
    let n = line.len();
    assert forall|i: int| 0 <= i < n implies (#[trigger] s[i]) != '\n' by {
        assert(s[i] == line[i]);
    }
    assert(s[n as int] == '\n');
    lemma_line_end_is(s, n);
    assert(s.take(n as int) =~= line);
    assert(s.skip(n as int + 1) =~= rest);
}

} // verus!
