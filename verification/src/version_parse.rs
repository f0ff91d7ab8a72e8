//! The version number that `git describe --long` stands for.

use vstd::prelude::*;
use vstd::string::*;

use crate::text::{chars_of, decimal, last_of, parse_number, text_of};

#[allow(unused_imports)]
use crate::text::{
    after_last, all_digits, decimal_of, first_char, is_digit, law_a_decimal_reads_back,
    lemma_after_last_is, lemma_decimal, lemma_first_char, maybe, number_in,
};

verus! {

/// What stands before the last `c` of `s`, and what behind it.
pub open spec fn split_last(s: Seq<char>, c: char) -> Option<(Seq<char>, Seq<char>)> {
    let p = after_last(s, c);
    if p == 0 {
        None
    } else {
        Some((s.take(p - 1), s.skip(p as int)))
    }
}

/// What stands before the first `c` of `s`, and what behind it.
pub open spec fn split_first(s: Seq<char>, c: char) -> Option<(Seq<char>, Seq<char>)> {
    let p = first_char(s, c);
    if p < s.len() {
        Some((s.take(p as int), s.skip(p as int + 1)))
    } else {
        None
    }
}

/// `s` without the `v`s it begins with.
pub open spec fn without_vs(s: Seq<char>) -> Seq<char> {
    s.skip(leading_vs(s) as int)
}

/// How many `v`s `s` begins with.
pub open spec fn leading_vs(s: Seq<char>) -> nat
    decreases s.len(),
{
    if s.len() == 0 || s[0] != 'v' {
        0
    } else {
        1 + leading_vs(s.skip(1))
    }
}

/// The three numbers of a tag.
pub open spec fn tag_numbers(tag: Seq<char>) -> Option<(nat, nat, nat)> {
    let max = u64::MAX as nat;
    match split_first(tag, '.') {
        None => None,
        Some((major, rest)) => match split_first(rest, '.') {
            None => None,
            Some((minor, patch)) => match (
                number_in(major, max),
                number_in(minor, max),
                number_in(patch, max),
            ) {
                (Some(a), Some(b), Some(c)) => Some((a, b, c)),
                _ => None,
            },
        },
    }
}

/// A tag and the number of commits since, as `TAG-N-gSHA` writes them.
pub open spec fn described(s: Seq<char>) -> Option<(nat, nat, nat, nat)> {
    match split_last(s, '-') {
        None => None,
        Some((head, _)) => match split_last(head, '-') {
            None => None,
            Some((tag, count)) => match (
                number_in(count, u64::MAX as nat),
                tag_numbers(without_vs(tag)),
            ) {
                (Some(n), Some(t)) => Some((t.0, t.1, t.2, n)),
                _ => None,
            },
        },
    }
}

/// The version: the tag's, with the commits since added to its last number.
pub open spec fn version_of(s: Seq<char>) -> Option<Seq<char>> {
    match described(s) {
        None => None,
        Some((major, minor, patch, n)) => Some(
            decimal_of(major) + seq!['.'] + decimal_of(minor) + seq!['.'] + decimal_of(
                patch + n,
            ),
        ),
    }
}

/// How many `v`s `s` begins with.
fn skip_vs(s: &[char]) -> (r: usize)
    ensures
        r <= s@.len(),
        s@.skip(r as int) == without_vs(s@),
{
    let mut v: usize = 0;
    assert(s@.skip(0) =~= s@);
    while v < s.len() && s[v] == 'v'
        invariant
            v <= s@.len(),
            leading_vs(s@) == v + leading_vs(s@.skip(v as int)),
        decreases s@.len() - v,
    {
        assert(s@.skip(v as int).skip(1) =~= s@.skip(v + 1));
        v = v + 1;
    }
    v
}

fn number(s: &[char]) -> (r: Option<u64>)
    ensures
        r is Some <==> number_in(s@, u64::MAX as nat) is Some,
        r matches Some(n) ==> number_in(s@, u64::MAX as nat) == Some(n as nat),
{
    parse_number(text_of(s).as_str(), 0xffff_ffff_ffff_ffff)
}

/// The version that `git describe --long` stands for: `MAJOR.MINOR.PATCH` with
/// the commits since the tag added to `PATCH`.
pub fn parse_describe(s: &str) -> (r: Option<String>)
    ensures
        maybe(r) == version_of(s@),
{
    let all = chars_of(s);
    let end = last_of(all.as_slice(), '-');
    if end == 0 {
        return None;
    }
    let head = vstd::slice::slice_subrange(all.as_slice(), 0, end - 1);
    assert(head@ =~= s@.take(end - 1));
    let cut = last_of(head, '-');
    if cut == 0 {
        return None;
    }
    let count_text = vstd::slice::slice_subrange(head, cut, head.len());
    assert(count_text@ =~= head@.skip(cut as int));
    let tag = vstd::slice::slice_subrange(head, 0, cut - 1);
    assert(tag@ =~= head@.take(cut - 1));
    let count = match number(count_text) {
        Some(n) => n,
        None => {
            return None;
        },
    };
    let v = skip_vs(tag);
    let bare = vstd::slice::slice_subrange(tag, v, tag.len());
    assert(bare@ =~= without_vs(tag@));
    let dot = crate::text::find_char(bare, '.');
    if dot == bare.len() {
        return None;
    }
    let major_text = vstd::slice::slice_subrange(bare, 0, dot);
    assert(major_text@ =~= bare@.take(dot as int));
    let rest = vstd::slice::slice_subrange(bare, dot + 1, bare.len());
    assert(rest@ =~= bare@.skip(dot + 1));
    let dot2 = crate::text::find_char(rest, '.');
    if dot2 == rest.len() {
        return None;
    }
    let minor_text = vstd::slice::slice_subrange(rest, 0, dot2);
    assert(minor_text@ =~= rest@.take(dot2 as int));
    let patch_text = vstd::slice::slice_subrange(rest, dot2 + 1, rest.len());
    assert(patch_text@ =~= rest@.skip(dot2 + 1));
    match (number(major_text), number(minor_text), number(patch_text)) {
        (Some(major), Some(minor), Some(patch)) => {
            let mut out = decimal(major);
            out.push('.');
            out.append(decimal(minor).as_str());
            out.push('.');
            out.append(
                crate::text::decimal_wide(patch as u128 + count as u128).as_str(),
            );
            proof {
                assert(out@ =~= version_of(s@)->0);
            }
            Some(out)
        },
        _ => None,
    }
}

/// The version of a build is the tag it was made after with the commits since then
/// counted into its last number: `v1.2.3-4-gabc` is `1.2.7`.
pub proof fn law_commits_count_into_the_patch(
    tagged: bool,
    major: nat,
    minor: nat,
    patch: nat,
    commits: nat,
    hash: Seq<char>,
)
    requires
        major <= u64::MAX,
        minor <= u64::MAX,
        patch <= u64::MAX,
        commits <= u64::MAX,
        !hash.contains('-'),
    ensures
        ({
            let v = if tagged {
                seq!['v']
            } else {
                Seq::empty()
            };
            version_of(
                v + decimal_of(major) + seq!['.'] + decimal_of(minor) + seq!['.'] + decimal_of(patch)
                    + seq!['-'] + decimal_of(commits) + seq!['-'] + hash,
            ) == Some(
                decimal_of(major) + seq!['.'] + decimal_of(minor) + seq!['.'] + decimal_of(
                    patch + commits,
                ),
            )
        }),
{
    let v = if tagged {
        seq!['v']
    } else {
        Seq::empty()
    };
    let (a, b, c, n) = (
        decimal_of(major),
        decimal_of(minor),
        decimal_of(patch),
        decimal_of(commits),
    );
    let numbers = a + seq!['.'] + b + seq!['.'] + c;
    lemma_tag(major, minor, patch);
    lemma_decimal(commits);
    law_a_decimal_reads_back(commits, u64::MAX as nat);
    lemma_digits_only(n);
    lemma_leading(v, numbers);
    let tag = v + numbers;
    assert(without_vs(tag) =~= numbers);
    lemma_split_last(tag + seq!['-'] + n, hash);
    lemma_split_last(tag, n);
    assert(tag + seq!['-'] + n + seq!['-'] + hash =~= v + a + seq!['.'] + b + seq!['.'] + c + seq![
        '-',
    ] + n + seq!['-'] + hash);
}

proof fn lemma_split_last(head: Seq<char>, tail: Seq<char>)
    requires
        !tail.contains('-'),
    ensures
        split_last(head + seq!['-'] + tail, '-') == Some((head, tail)),
{
    let s = head + seq!['-'] + tail;
    let p = (head.len() + 1) as nat;
    assert forall|i: int| p <= i < s.len() implies s[i] != '-' by {
        assert(s[i] == tail[i - p]);
        assert(tail.contains(tail[i - p]));
    }
    assert(s[p - 1] == '-');
    lemma_after_last_is(s, '-', p);
    assert(s.take(p - 1) =~= head);
    assert(s.skip(p as int) =~= tail);
}

proof fn lemma_split_first(head: Seq<char>, tail: Seq<char>)
    requires
        !head.contains('.'),
    ensures
        split_first(head + seq!['.'] + tail, '.') == Some((head, tail)),
{
    let s = head + seq!['.'] + tail;
    let x = head.len() as int;
    assert forall|i: int| 0 <= i < x implies s[i] != '.' by {
        assert(s[i] == head[i]);
        assert(head.contains(head[i]));
    }
    assert(s[x] == '.');
    lemma_first_char(s, '.', x);
    assert(s.take(x) =~= head);
    assert(s.skip(x + 1) =~= tail);
}

proof fn lemma_tag(major: nat, minor: nat, patch: nat)
    requires
        major <= u64::MAX,
        minor <= u64::MAX,
        patch <= u64::MAX,
    ensures
        ({
            let numbers = decimal_of(major) + seq!['.'] + decimal_of(minor) + seq!['.']
                + decimal_of(patch);
            &&& tag_numbers(numbers) == Some((major, minor, patch))
            &&& numbers.len() > 0
            &&& numbers[0] != 'v'
        }),
{
    let max = u64::MAX as nat;
    let (a, b, c) = (decimal_of(major), decimal_of(minor), decimal_of(patch));
    lemma_decimal(major);
    lemma_decimal(minor);
    law_a_decimal_reads_back(major, max);
    law_a_decimal_reads_back(minor, max);
    law_a_decimal_reads_back(patch, max);
    lemma_digits_only(a);
    lemma_digits_only(b);
    let rest = b + seq!['.'] + c;
    let numbers = a + seq!['.'] + b + seq!['.'] + c;
    assert(numbers =~= a + seq!['.'] + rest);
    assert(numbers[0] == a[0]);
    lemma_split_first(a, rest);
    lemma_split_first(b, c);
}

proof fn lemma_digits_only(s: Seq<char>)
    requires
        all_digits(s),
    ensures
        !s.contains('-'),
        !s.contains('.'),
        s.len() > 0 ==> s[0] != 'v',
{
    assert forall|i: int| 0 <= i < s.len() implies s[i] != '-' && s[i] != '.' && s[i] != 'v' by {
        assert(is_digit(s[i]));
    }
    if s.contains('-') {
        let i = choose|i: int| 0 <= i < s.len() && s[i] == '-';
        assert(s[i] != '-');
    }
    if s.contains('.') {
        let i = choose|i: int| 0 <= i < s.len() && s[i] == '.';
        assert(s[i] != '.');
    }
}

proof fn lemma_leading(v: Seq<char>, numbers: Seq<char>)
    requires
        v == Seq::<char>::empty() || v == seq!['v'],
        numbers.len() > 0,
        numbers[0] != 'v',
    ensures
        leading_vs(v + numbers) == v.len(),
{
    reveal_with_fuel(leading_vs, 2);
    if v.len() > 0 {
        assert((v + numbers).skip(1) =~= numbers);
    } else {
        assert(v + numbers =~= numbers);
    }
}

/// Without a hash and a count of commits behind the tag there is no version.
pub proof fn law_a_bare_tag_is_no_description(s: Seq<char>)
    requires
        !s.contains('-'),
    ensures
        version_of(s) is None,
{
    assert forall|i: int| 0 <= i < s.len() implies s[i] != '-' by {
        assert(s.contains(s[i]));
    }
    lemma_after_last_is(s, '-', 0);
}

} // verus!
