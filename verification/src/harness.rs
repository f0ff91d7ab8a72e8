//! A build whose jobs count each other, to find out how many ran at once.
//!
//! Every target is one job: it drops a marker, sleeps, records how many markers
//! there are, and removes its own. The largest count that any job saw is the
//! concurrency that the tool reached.

use vstd::prelude::*;
use vstd::string::*;

use crate::cpu::split_words;
use crate::text::{chars_of, copy, decimal, find_char, parse_number, text_of};

#[allow(unused_imports)]
use crate::cpu::{is_space, law_words_stand_between_spaces, lemma_line_end_is, line_end, words};
#[allow(unused_imports)]
use crate::text::{
    decimal_of, first_char, is_digit, law_a_decimal_reads_back, lemma_decimal, lemma_first_char,
    maybe, number_in, texts,
};

verus! {

/// The names of the first `n` targets, with a space between each two.
pub open spec fn targets_list(n: nat) -> Seq<char>
    decreases n,
{
    if n == 0 {
        Seq::empty()
    } else if n == 1 {
        "t1"@
    } else {
        targets_list((n - 1) as nat) + " t"@ + decimal_of(n)
    }
}

/// The names of the first `n` targets, each behind a space.
pub open spec fn targets_text(n: nat) -> Seq<char>
    decreases n,
{
    if n == 0 {
        Seq::empty()
    } else {
        targets_text((n - 1) as nat) + " t"@ + decimal_of(n)
    }
}

fn targets_line(n: u32) -> (r: String)
    ensures
        r@ == targets_text(n as nat),
{
    let mut out = String::new();
    let mut i: u32 = 0;
    assert(out@ =~= Seq::empty());
    while i < n
        invariant
            i <= n,
            out@ == targets_text(i as nat),
        decreases n - i,
    {
        i = i + 1;
        out.append(" t");
        out.append(decimal(i as u64).as_str());
    }
    out
}

fn names_line(n: u32) -> (r: String)
    ensures
        r@ == targets_list(n as nat),
{
    let mut out = String::new();
    assert(out@ =~= Seq::empty());
    if n == 0 {
        return out;
    }
    out = copy("t1");
    let mut i: u32 = 1;
    while i < n
        invariant
            1 <= i <= n,
            out@ == targets_list(i as nat),
        decreases n - i,
    {
        i = i + 1;
        out.append(" t");
        out.append(decimal(i as u64).as_str());
    }
    out
}

/// A Makefile of `targets` independent jobs, each of which sleeps. It is built with
/// `make run`.
pub fn makefile(targets: u32, sleep: &str) -> (r: String)
    ensures
        r@ == "COUNTER_NAME ?= a\nTARGETS := "@ + targets_list(targets as nat)
            + "\n.PHONY: run $(TARGETS)\nrun: $(TARGETS)\n$(TARGETS):\n\t@s=$(COUNTER_NAME).$@.$$$$; m=markers/$$s; touch $$m; sleep "@
            + sleep@
            + "; \\\n\tprintf '%s %s\\n' \"$$(ls markers | wc -l)\" \"$$(ls markers | grep -c '^$(COUNTER_NAME)\\.')\" > pending/$$s; \\\n\tmv pending/$$s samples/$$s; rm $$m\n"@,
{
    let mut out = copy("COUNTER_NAME ?= a\nTARGETS := ");
    out.append(names_line(targets).as_str());
    out.append(
        "\n.PHONY: run $(TARGETS)\nrun: $(TARGETS)\n$(TARGETS):\n\t@s=$(COUNTER_NAME).$@.$$$$; m=markers/$$s; touch $$m; sleep ",
    );
    out.append(sleep);
    out.append(
        "; \\\n\tprintf '%s %s\\n' \"$$(ls markers | wc -l)\" \"$$(ls markers | grep -c '^$(COUNTER_NAME)\\.')\" > pending/$$s; \\\n\tmv pending/$$s samples/$$s; rm $$m\n",
    );
    out
}

/// The build lines of the first `n` targets.
pub open spec fn builds_text(n: nat) -> Seq<char>
    decreases n,
{
    if n == 0 {
        Seq::empty()
    } else {
        builds_text((n - 1) as nat) + "build t"@ + decimal_of(n) + ": job\n"@
    }
}

/// The same build for ninja.
pub fn ninja_file(targets: u32, sleep: &str) -> (r: String)
    ensures
        r@ == "rule job\n  command = m=markers/$out.$$$$; touch $$m; sleep "@ + sleep@
            + "; c=$$(ls markers | wc -l); printf '%s %s\\n' \"$$c\" \"$$c\" > pending/n.$out.$$$$; mv pending/n.$out.$$$$ samples/n.$out.$$$$; rm $$m\n"@
            + builds_text(targets as nat) + "build run: phony"@ + targets_text(targets as nat)
            + "\ndefault run\n"@,
{
    let mut out = copy("rule job\n  command = m=markers/$out.$$$$; touch $$m; sleep ");
    out.append(sleep);
    out.append(
        "; c=$$(ls markers | wc -l); printf '%s %s\\n' \"$$c\" \"$$c\" > pending/n.$out.$$$$; mv pending/n.$out.$$$$ samples/n.$out.$$$$; rm $$m\n",
    );
    let ghost head = out@;
    let mut i: u32 = 0;
    assert(head + Seq::<char>::empty() =~= head);
    while i < targets
        invariant
            i <= targets,
            out@ == head + builds_text(i as nat),
        decreases targets - i,
    {
        i = i + 1;
        out.append("build t");
        out.append(decimal(i as u64).as_str());
        out.append(": job\n");
        assert(out@ =~= head + builds_text(i as nat));
    }
    out.append("build run: phony");
    out.append(targets_line(targets).as_str());
    out.append("\ndefault run\n");
    out
}

/// What stands before the first `c`.
pub open spec fn head_before(s: Seq<char>, c: char) -> Seq<char> {
    s.take(first_char(s, c) as int)
}

/// What stands behind the first `c`, if it occurs.
pub open spec fn tail_behind(s: Seq<char>, c: char) -> Option<Seq<char>> {
    if first_char(s, c) < s.len() {
        Some(s.skip(first_char(s, c) as int + 1))
    } else {
        None
    }
}

/// The major and minor version at the end of the first line that a tool prints about
/// itself.
pub open spec fn version_in(text: Seq<char>) -> Option<(nat, nat)> {
    let line = words(text.take(line_end(text) as int));
    if line.len() == 0 {
        None
    } else {
        match tail_behind(line.last(), '.') {
            None => None,
            Some(tail) => match (
                number_in(head_before(line.last(), '.'), u32::MAX as nat),
                number_in(head_before(tail, '.'), u32::MAX as nat),
            ) {
                (Some(major), Some(minor)) => Some((major, minor)),
                _ => None,
            },
        }
    }
}

fn number_before(s: &[char], c: char) -> (r: (Option<u32>, usize))
    ensures
        r.1 == first_char(s@, c),
        r.1 <= s@.len(),
        r.0 is Some <==> number_in(head_before(s@, c), u32::MAX as nat) is Some,
        r.0 matches Some(n) ==> number_in(head_before(s@, c), u32::MAX as nat) == Some(n as nat),
{
    let p = find_char(s, c);
    let head = text_of(vstd::slice::slice_subrange(s, 0, p));
    assert(head@ =~= head_before(s@, c));
    let n = match parse_number(head.as_str(), 0xffff_ffff) {
        Some(n) => Some(n as u32),
        None => None,
    };
    (n, p)
}

/// The version that a tool prints about itself: `4.4` of "GNU Make 4.4.1", `1.13` of
/// "1.13.2".
pub fn tool_version(text: &str) -> (r: Option<(u32, u32)>)
    ensures
        match r {
            Some((major, minor)) => version_in(text@) == Some((major as nat, minor as nat)),
            None => version_in(text@) is None,
        },
{
    let all = chars_of(text);
    let end = crate::cpu::end_of_line(all.as_slice(), 0);
    assert(all@.skip(0) =~= all@);
    let line = vstd::slice::slice_subrange(all.as_slice(), 0, end);
    assert(line@ =~= text@.take(line_end(text@) as int));
    let parts = split_words(line);
    let ghost w = words(line@);
    assert(texts(parts@) == w);
    if parts.len() == 0 {
        return None;
    }
    let last = chars_of(parts[parts.len() - 1].as_str());
    assert(last@ == w.last());
    let (major, p) = number_before(last.as_slice(), '.');
    if p == last.len() {
        return None;
    }
    let tail = vstd::slice::slice_subrange(last.as_slice(), p + 1, last.len());
    assert(tail@ =~= last@.skip(p + 1));
    let (minor, _) = number_before(tail, '.');
    match (major, minor) {
        (Some(major), Some(minor)) => Some((major, minor)),
        _ => None,
    }
}

/// Whether one version is at least another.
pub open spec fn at_least(v: (u32, u32), min: (u32, u32)) -> bool {
    v.0 > min.0 || (v.0 == min.0 && v.1 >= min.1)
}

/// Why what needs a tool of at least version `min` is skipped; nothing where it is
/// not.
pub fn skip_reason(tool: &str, version: Option<(u32, u32)>, min: (u32, u32)) -> (r: Option<String>)
    ensures
        maybe(r) == match version {
            Some(v) => if at_least(v, min) {
                None
            } else {
                Some(
                    "skipping: "@ + tool@ + " "@ + decimal_of(v.0 as nat) + "."@ + decimal_of(
                        v.1 as nat,
                    ) + " is older than the required "@ + decimal_of(min.0 as nat) + "."@
                        + decimal_of(min.1 as nat),
                )
            },
            None => Some("skipping: "@ + tool@ + " not found in PATH"@),
        },
{
    let mut out = copy("skipping: ");
    out.append(tool);
    match version {
        Some(v) => {
            if v.0 > min.0 || (v.0 == min.0 && v.1 >= min.1) {
                return None;
            }
            out.append(" ");
            out.append(decimal(v.0 as u64).as_str());
            out.append(".");
            out.append(decimal(v.1 as u64).as_str());
            out.append(" is older than the required ");
            out.append(decimal(min.0 as u64).as_str());
            out.append(".");
            out.append(decimal(min.1 as u64).as_str());
        },
        None => {
            out.append(" not found in PATH");
        },
    }
    Some(out)
}

/// What one job saw.
#[derive(Debug, PartialEq, Eq)]
pub struct Sample {
    /// The build that it belongs to.
    pub name: String,
    /// Jobs running in every build that shares the directory.
    pub total: u32,
    /// Jobs running in its own.
    pub own: u32,
}

/// A sample by the name of its file and what that holds; nothing where it is no pair
/// of counts.
pub fn parse_sample(file: &str, text: &str) -> (r: Option<Sample>)
    ensures
        ({
            let w = words(text@);
            let max = u32::MAX as nat;
            if w.len() >= 2 && number_in(w[0], max) is Some && number_in(w[1], max) is Some {
                r is Some && r->0.name@ == head_before(file@, '.') && r->0.total == number_in(
                    w[0],
                    max,
                )->0 && r->0.own == number_in(w[1], max)->0
            } else {
                r is None
            }
        }),
{
    let parts = split_words(chars_of(text).as_slice());
    let ghost w = words(text@);
    assert(texts(parts@) == w);
    if parts.len() < 2 {
        return None;
    }
    assert(parts@[0]@ == w[0] && parts@[1]@ == w[1]);
    let chars = chars_of(file);
    let p = find_char(chars.as_slice(), '.');
    let name = text_of(vstd::slice::slice_subrange(chars.as_slice(), 0, p));
    assert(name@ =~= head_before(file@, '.'));
    match (parse_number(parts[0].as_str(), 0xffff_ffff), parse_number(parts[1].as_str(), 0xffff_ffff)) {
        (Some(total), Some(own)) => Some(Sample { name, total: total as u32, own: own as u32 }),
        _ => None,
    }
}

/// The most jobs that any of them saw running at once.
pub fn peak(samples: &[Sample]) -> (r: u32)
    requires
        samples@.len() > 0,
    ensures
        forall|i: int| 0 <= i < samples@.len() ==> (#[trigger] samples@[i]).total <= r,
        exists|i: int| 0 <= i < samples@.len() && (#[trigger] samples@[i]).total == r,
{
    let mut best: usize = 0;
    let mut i: usize = 1;
    while i < samples.len()
        invariant
            best < samples@.len(),
            1 <= i <= samples@.len(),
            forall|j: int| 0 <= j < i ==> (#[trigger] samples@[j]).total <= samples@[best as int].total,
        decreases samples@.len() - i,
    {
        if samples[i].total > samples[best].total {
            best = i;
        }
        i = i + 1;
    }
    assert(samples@[best as int].total == samples@[best as int].total);
    samples[best].total
}

/// The configuration of a pueued of one's own.
pub fn pueue_config(shared: &str, socket: &str) -> (r: String)
    ensures
        r@ == "shared:\n  pueue_directory: "@ + shared@ + "\n  runtime_directory: "@ + shared@
            + "\n  use_unix_socket: true\n  unix_socket_path: "@ + socket@ + "\n"@,
{
    let mut out = copy("shared:\n  pueue_directory: ");
    out.append(shared);
    out.append("\n  runtime_directory: ");
    out.append(shared);
    out.append("\n  use_unix_socket: true\n  unix_socket_path: ");
    out.append(socket);
    out.append("\n");
    out
}

/// A version is recent enough where its major number is larger, or the same with a
/// minor number that is no smaller.
pub proof fn law_versions_are_ordered_by_their_numbers(v: (u32, u32), min: (u32, u32))
    ensures
        v.0 > min.0 ==> at_least(v, min),
        v.0 < min.0 ==> !at_least(v, min),
        v.0 == min.0 ==> (at_least(v, min) <==> v.1 >= min.1),
        at_least(v, v),
        at_least(v, min) || at_least(min, v),
{
}

/// A tool's version is the two numbers, with a dot between them, that the last word
/// of its first line begins with.
pub proof fn law_a_version_is_read_from_the_first_line(
    name: Seq<char>,
    major: u32,
    minor: u32,
    more: Seq<char>,
)
    requires
        name.len() > 0,
        forall|i: int| 0 <= i < name.len() ==> !is_space(#[trigger] name[i]),
    ensures
        version_in(
            name + seq![' '] + decimal_of(major as nat) + seq!['.'] + decimal_of(minor as nat) + seq![
                '\n',
            ] + more,
        ) == Some((major as nat, minor as nat)),
{
    let max = u32::MAX as nat;
    let (a, b) = (decimal_of(major as nat), decimal_of(minor as nat));
    law_a_decimal_reads_back(major as nat, max);
    law_a_decimal_reads_back(minor as nat, max);
    lemma_decimal(major as nat);
    lemma_decimal(minor as nat);
    let version = a + seq!['.'] + b;
    assert forall|i: int| 0 <= i < version.len() implies !is_space(#[trigger] version[i]) by {
        if i < a.len() {
            assert(version[i] == a[i]);
            assert(is_digit(a[i]));
        } else if i > a.len() {
            assert(version[i] == b[i - a.len() - 1]);
            assert(is_digit(b[i - a.len() - 1]));
        }
    }
    let line = name + seq![' '] + version;
    let text = line + seq!['\n'] + more;
    assert(text =~= name + seq![' '] + a + seq!['.'] + b + seq!['\n'] + more);
    assert forall|i: int| 0 <= i < line.len() implies (#[trigger] text[i]) != '\n' by {
        if i < name.len() {
            assert(text[i] == name[i]);
        } else if i > name.len() {
            assert(text[i] == version[i - name.len() - 1]);
        }
    }
    assert(text[line.len() as int] == '\n');
    lemma_line_end_is(text, line.len());
    assert(text.take(line.len() as int) =~= line);
    law_words_stand_between_spaces(name, ' ', version);
    law_words_stand_between_spaces(version, ' ', Seq::empty());
    assert(words(line) =~= seq![name, version]);
    assert(words(line).last() == version);
    assert forall|j: int| 0 <= j < a.len() implies (#[trigger] version[j]) != '.' by {
        assert(version[j] == a[j]);
        assert(is_digit(a[j]));
    }
    assert(version[a.len() as int] == '.');
    lemma_first_char(version, '.', a.len() as int);
    assert(version.take(a.len() as int) =~= a);
    assert(version.skip(a.len() as int + 1) =~= b);
    assert forall|j: int| 0 <= j < b.len() implies (#[trigger] b[j]) != '.' by {
        assert(is_digit(b[j]));
    }
    lemma_first_char(b, '.', b.len() as int);
    assert(b.take(b.len() as int) =~= b);
}

/// The targets are `t1`, `t2` and so on, with a space between them; and each is built
/// by a line of its own.
pub proof fn law_the_targets_are_numbered_from_one(n: nat)
    requires
        n >= 1,
    ensures
        targets_list(0).len() == 0,
        targets_list(1) == "t1"@,
        targets_list(n + 1) == targets_list(n) + " t"@ + decimal_of(n + 1),
        targets_text(n) == targets_text((n - 1) as nat) + " t"@ + decimal_of(n),
        targets_text(n) == seq![' '] + targets_list(n),
        builds_text(n) == builds_text((n - 1) as nat) + "build t"@ + decimal_of(n) + ": job\n"@,
    decreases n,
{
    reveal_strlit(" t");
    reveal_strlit("t1");
    if n == 1 {
        reveal_with_fuel(targets_text, 2);
        assert(decimal_of(1) =~= seq!['1']);
        assert(targets_text(1) =~= seq![' '] + "t1"@);
    } else {
        law_the_targets_are_numbered_from_one((n - 1) as nat);
        assert(targets_text(n) =~= seq![' '] + targets_list(n));
    }
}

} // verus!
