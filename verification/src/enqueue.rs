//! The request that queues a task with pueued, and its command line.

use vstd::prelude::*;
use vstd::string::*;

use crate::env::{color_envs, EnvMap};
use crate::text::{chars_of, copy};

#[allow(unused_imports)]
use crate::env::coloured;
#[allow(unused_imports)]
use crate::text::texts;

verus! {

/// The group that every task is in.
pub const BUSYBEE_GROUP: &'static str = "busybee";

/// A task for pueued to queue.
#[derive(Debug)]
pub struct TaskSpec {
    pub command: String,
    pub cwd: String,
    pub env: EnvMap,
    pub label: Option<String>,
    /// Start on arrival, whatever pueued's own dispatcher says.
    pub start_immediately: bool,
}

/// A request to add a task.
#[derive(Debug)]
pub struct AddRequest {
    pub command: String,
    pub path: String,
    pub envs: EnvMap,
    pub group: String,
    pub label: Option<String>,
    pub start_immediately: bool,
}

/// Whether a character needs no quoting.
pub open spec fn plain_char(c: char) -> bool {
    ('a' <= c <= 'z') || ('A' <= c <= 'Z') || ('0' <= c <= '9') || c == '-' || c == '_' || c == '.'
        || c == '/'
}

/// Whether an argument needs no quoting.
pub open spec fn plain(s: Seq<char>) -> bool {
    s.len() > 0 && forall|i: int| 0 <= i < s.len() ==> plain_char(#[trigger] s[i])
}

/// A text for between single quotes: each single quote ends the quotes, stands
/// by itself behind a backslash, and opens them again.
pub open spec fn quote_body(s: Seq<char>) -> Seq<char>
    decreases s.len(),
{
    if s.len() == 0 {
        Seq::empty()
    } else {
        quote_body(s.drop_last()) + if s.last() == '\'' {
            seq!['\'', '\\', '\'', '\'']
        } else {
            seq![s.last()]
        }
    }
}

/// One argument, quoted for a shell.
pub open spec fn shell_word(s: Seq<char>) -> Seq<char> {
    if plain(s) {
        s
    } else {
        seq!['\''] + quote_body(s) + seq!['\'']
    }
}

/// A command line: the arguments quoted, with a space between them.
pub open spec fn shell_line(parts: Seq<Seq<char>>) -> Seq<char>
    decreases parts.len(),
{
    if parts.len() == 0 {
        Seq::empty()
    } else if parts.len() == 1 {
        shell_word(parts[0])
    } else {
        shell_line(parts.drop_last()).push(' ') + shell_word(parts.last())
    }
}

fn shell_escape(s: &str) -> (r: String)
    ensures
        r@ == shell_word(s@),
{
    let chars = chars_of(s);
    let mut simple = chars.len() > 0;
    let mut i: usize = 0;
    while i < chars.len() && simple
        invariant
            i <= chars@.len(),
            chars@ == s@,
            simple ==> chars@.len() > 0 && forall|j: int|
                0 <= j < i ==> plain_char(#[trigger] chars@[j]),
            !simple ==> !plain(s@),
        decreases chars@.len() - i,
    {
        let c = chars[i];
        if !(('a' <= c && c <= 'z') || ('A' <= c && c <= 'Z') || ('0' <= c && c <= '9') || c
            == '-' || c == '_' || c == '.' || c == '/') {
            assert(!plain_char(s@[i as int]));
            simple = false;
        }
        i = i + 1;
    }
    if simple {
        return copy(s);
    }
    let mut out = String::new();
    out.push('\'');
    let mut k: usize = 0;
    assert(s@.take(0) =~= Seq::empty());
    assert(out@ =~= seq!['\''] + quote_body(s@.take(0)));
    while k < chars.len()
        invariant
            k <= chars@.len(),
            chars@ == s@,
            out@ == seq!['\''] + quote_body(s@.take(k as int)),
        decreases chars@.len() - k,
    {
        let ghost before = out@;
        assert(s@.take(k + 1).drop_last() =~= s@.take(k as int));
        assert(s@.take(k + 1).last() == s@[k as int]);
        if chars[k] == '\'' {
            out.push('\'');
            out.push('\\');
            out.push('\'');
            out.push('\'');
            assert(out@ =~= before + seq!['\'', '\\', '\'', '\'']);
        } else {
            out.push(chars[k]);
            assert(out@ =~= before + seq![chars@[k as int]]);
        }
        assert(out@ =~= seq!['\''] + quote_body(s@.take(k + 1)));
        k = k + 1;
    }
    assert(s@.take(k as int) =~= s@);
    out.push('\'');
    assert(out@ =~= shell_word(s@));
    out
}

/// Joins arguments into a single line that a shell takes apart again.
pub fn shell_escape_join(parts: &[String]) -> (r: String)
    ensures
        r@ == shell_line(texts(parts@)),
{
    let ghost all = texts(parts@);
    let mut out = String::new();
    let mut i: usize = 0;
    assert(all.take(0) =~= Seq::empty());
    while i < parts.len()
        invariant
            i <= parts@.len(),
            all == texts(parts@),
            out@ == shell_line(all.take(i as int)),
        decreases parts@.len() - i,
    {
        let ghost before = out@;
        let word = shell_escape(parts[i].as_str());
        if i > 0 {
            out.push(' ');
        }
        out.append(word.as_str());
        proof {
            let t = all.take(i + 1);
            assert(t.drop_last() =~= all.take(i as int));
            assert(t.last() == all[i as int]);
            if i == 0 {
                assert(before =~= Seq::empty());
                assert(out@ =~= shell_word(t[0]));
            }
        }
        i = i + 1;
    }
    assert(all.take(i as int) =~= all);
    out
}

/// The request for a task: in the group, in an environment that forces colour.
pub fn build_add_request(spec: TaskSpec) -> (r: AddRequest)
    ensures
        r.command == spec.command,
        r.path == spec.cwd,
        r.envs@ == coloured(spec.env@),
        r.group@ == "busybee"@,
        r.label == spec.label,
        r.start_immediately == spec.start_immediately,
{
    AddRequest {
        command: spec.command,
        path: spec.cwd,
        envs: color_envs(spec.env),
        group: copy(BUSYBEE_GROUP),
        label: spec.label,
        start_immediately: spec.start_immediately,
    }
}

/// A shell that is part-way through a line.
#[verifier::ext_equal]
pub struct Shell {
    /// The words read so far.
    pub words: Seq<Seq<char>>,
    /// The word being read, if one is.
    pub word: Option<Seq<char>>,
    /// Whether it is between single quotes.
    pub quoted: bool,
}

impl Shell {
    /// The word being read with more in it.
    pub open spec fn more(self, s: Seq<char>) -> Shell {
        Shell {
            word: Some(
                match self.word {
                    Some(w) => w + s,
                    None => s,
                },
            ),
            ..self
        }
    }

    /// The word being read, at its end.
    pub open spec fn ended(self) -> Shell {
        match self.word {
            Some(w) => Shell { words: self.words.push(w), word: None, ..self },
            None => self,
        }
    }
}

/// The words of a command line, as a shell splits it: at spaces, with single
/// quotes and backslashes taken off. Nothing where the line holds anything else
/// that a shell might act on, or ends inside quotes.
pub open spec fn shell_words(sh: Shell, line: Seq<char>) -> Option<Seq<Seq<char>>>
    decreases line.len(),
{
    if line.len() == 0 {
        if sh.quoted {
            None
        } else {
            Some(sh.ended().words)
        }
    } else {
        let c = line[0];
        let rest = line.skip(1);
        if sh.quoted {
            if c == '\'' {
                shell_words(Shell { quoted: false, ..sh }, rest)
            } else {
                shell_words(sh.more(seq![c]), rest)
            }
        } else if c == '\'' {
            shell_words(Shell { quoted: true, ..sh.more(Seq::empty()) }, rest)
        } else if c == '\\' {
            if rest.len() > 0 {
                shell_words(sh.more(seq![rest[0]]), rest.skip(1))
            } else {
                None
            }
        } else if c == ' ' {
            shell_words(sh.ended(), rest)
        } else if plain_char(c) {
            shell_words(sh.more(seq![c]), rest)
        } else {
            None
        }
    }
}

proof fn lemma_plain(sh: Shell, s: Seq<char>, rest: Seq<char>)
    requires
        plain(s),
        !sh.quoted,
    ensures
        shell_words(sh, s + rest) == shell_words(sh.more(s), rest),
    decreases s.len(),
{
    let all = s + rest;
    assert(all[0] == s[0] && plain_char(s[0]));
    assert(all.skip(1) =~= s.skip(1) + rest);
    let next = sh.more(seq![s[0]]);
    if s.len() == 1 {
        assert(s.skip(1) + rest =~= rest);
        assert(seq![s[0]] =~= s);
    } else {
        let tail = s.skip(1);
        assert forall|i: int| 0 <= i < tail.len() implies plain_char(#[trigger] tail[i]) by {
            assert(tail[i] == s[i + 1]);
        }
        lemma_plain(next, tail, rest);
        assert(seq![s[0]] + tail =~= s);
        match sh.word {
            Some(w) => {
                assert(w + seq![s[0]] + tail =~= w + s);
            },
            None => {},
        }
        assert(next.more(tail) =~= sh.more(s));
    }
}

proof fn lemma_quoted(sh: Shell, s: Seq<char>, rest: Seq<char>)
    requires
        sh.quoted,
        sh.word is Some,
    ensures
        shell_words(sh, quote_body(s) + rest) == shell_words(sh.more(s), rest),
    decreases s.len(),
{
    let word = sh.word->0;
    if s.len() == 0 {
        assert(quote_body(s) + rest =~= rest);
        assert(word + s =~= word);
        assert(sh.more(s) =~= sh);
    } else {
        let before = s.drop_last();
        let c = s.last();
        let here = sh.more(before);
        let piece = if c == '\'' {
            seq!['\'', '\\', '\'', '\'']
        } else {
            seq![c]
        };
        assert(quote_body(s) + rest =~= quote_body(before) + (piece + rest));
        lemma_quoted(sh, before, piece + rest);
        assert(before + seq![c] =~= s);
        assert(word + before + seq![c] =~= word + s);
        if c == '\'' {
            let line = piece + rest;
            let l1 = seq!['\\', '\'', '\''] + rest;
            let l2 = seq!['\'', '\''] + rest;
            let l3 = seq!['\''] + rest;
            assert(line.skip(1) =~= l1);
            assert(l1.skip(1) =~= l2);
            assert(l2.skip(1) =~= l3);
            assert(l3.skip(1) =~= rest);
            let s1 = Shell { quoted: false, ..here };
            let s2 = s1.more(seq!['\'']);
            assert(shell_words(here, line) == shell_words(s1, l1));
            assert(shell_words(s1, l1) == shell_words(s2, l3));
            assert(s2.more(Seq::empty()) =~= s2) by {
                assert(s2.word->0 + Seq::empty() =~= s2.word->0);
            }
            let s3 = Shell { quoted: true, ..s2.more(Seq::empty()) };
            assert(shell_words(s2, l3) == shell_words(s3, rest));
            assert(s3 =~= sh.more(s));
        } else {
            let line = piece + rest;
            assert(line.skip(1) =~= rest);
            assert(here.more(seq![c]) =~= sh.more(s));
        }
    }
}

proof fn lemma_word(sh: Shell, s: Seq<char>, rest: Seq<char>)
    requires
        !sh.quoted,
        sh.word is None,
    ensures
        shell_words(sh, shell_word(s) + rest) == shell_words(sh.more(s), rest),
{
    if plain(s) {
        lemma_plain(sh, s, rest);
    } else {
        let line = shell_word(s) + rest;
        let after = seq!['\''] + rest;
        let inner = quote_body(s) + after;
        assert(line.skip(1) =~= inner);
        let open = Shell { quoted: true, ..sh.more(Seq::empty()) };
        assert(shell_words(sh, line) == shell_words(open, inner));
        lemma_quoted(open, s, after);
        let full = open.more(s);
        assert(after.skip(1) =~= rest);
        assert(Seq::<char>::empty() + s =~= s);
        assert(Shell { quoted: false, ..full } =~= sh.more(s));
    }
}

proof fn lemma_line(parts: Seq<Seq<char>>, rest: Seq<char>)
    requires
        parts.len() > 0,
    ensures
        shell_words(
            Shell { words: Seq::empty(), word: None, quoted: false },
            shell_line(parts) + rest,
        ) == shell_words(
            Shell { words: parts.drop_last(), word: Some(parts.last()), quoted: false },
            rest,
        ),
    decreases parts.len(),
{
    let start = Shell { words: Seq::empty(), word: None, quoted: false };
    if parts.len() == 1 {
        lemma_word(start, parts[0], rest);
        assert(parts.drop_last() =~= Seq::empty());
        assert(start.more(parts[0]) =~= Shell {
            words: parts.drop_last(),
            word: Some(parts.last()),
            quoted: false,
        });
    } else {
        let before = parts.drop_last();
        let word = shell_word(parts.last());
        let tail = seq![' '] + (word + rest);
        assert(shell_line(parts) + rest =~= shell_line(before) + tail);
        lemma_line(before, tail);
        let here = Shell { words: before.drop_last(), word: Some(before.last()), quoted: false };
        assert(tail.skip(1) =~= word + rest);
        let next = here.ended();
        assert(shell_words(here, tail) == shell_words(next, word + rest));
        assert(before.drop_last().push(before.last()) =~= before);
        lemma_word(next, parts.last(), rest);
    }
}

/// What was joined comes apart again: a shell splits the line into exactly the
/// arguments it was made of, and finds nothing in it to act on.
pub proof fn law_a_shell_splits_the_line_into_its_arguments(parts: Seq<Seq<char>>)
    ensures
        shell_words(
            Shell { words: Seq::empty(), word: None, quoted: false },
            shell_line(parts),
        ) == Some(parts),
{
    if parts.len() > 0 {
        lemma_line(parts, Seq::empty());
        assert(shell_line(parts) + Seq::empty() =~= shell_line(parts));
        assert(parts.drop_last().push(parts.last()) =~= parts);
    }
}

/// Only letters, digits and `-`, `_`, `.` and `/` go to the shell as they are: a
/// word with anything else in it, and an empty one, is put in quotes.
pub proof fn law_what_a_shell_might_read_is_quoted(s: Seq<char>, i: int)
    ensures
        s.len() == 0 ==> shell_word(s) == seq!['\'', '\''],
        0 <= i < s.len() && !('a' <= s[i] <= 'z' || 'A' <= s[i] <= 'Z' || '0' <= s[i] <= '9' || s[i]
            == '-' || s[i] == '_' || s[i] == '.' || s[i] == '/') ==> shell_word(s).len() >= s.len()
            + 2 && shell_word(s)[0] == '\'' && shell_word(s).last() == '\'',
        s.len() > 0 && (forall|j: int|
            0 <= j < s.len() ==> ('a' <= (#[trigger] s[j]) <= 'z' || 'A' <= s[j] <= 'Z' || '0'
                <= s[j] <= '9' || s[j] == '-' || s[j] == '_' || s[j] == '.' || s[j] == '/'))
            ==> shell_word(s) == s,
{
    lemma_quote_body_len(s);
    if s.len() == 0 {
        assert(seq!['\''] + Seq::<char>::empty() + seq!['\''] =~= seq!['\'', '\'']);
    }
    if 0 <= i < s.len() && !plain_char(s[i]) {
        assert(!plain(s));
    }
}

proof fn lemma_quote_body_len(s: Seq<char>)
    ensures
        quote_body(s).len() >= s.len(),
    decreases s.len(),
{
    if s.len() > 0 {
        lemma_quote_body_len(s.drop_last());
    }
}

/// A line is its words with one space between them.
pub proof fn law_words_are_joined_by_one_space(parts: Seq<Seq<char>>, last: Seq<char>)
    ensures
        parts.len() > 0 ==> shell_line(parts.push(last)) == shell_line(parts) + seq![' ']
            + shell_word(last),
        shell_line(seq![last]) == shell_word(last),
{
    let all = parts.push(last);
    assert(all.drop_last() =~= parts);
    if parts.len() > 0 {
        assert(shell_line(parts).push(' ') =~= shell_line(parts) + seq![' ']);
    }
    assert(seq![last][0] == last);
}

} // verus!
