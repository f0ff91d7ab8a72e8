//! Text as sequences of characters: what the rest of the library reads and
//! writes strings with.

use vstd::prelude::*;
use vstd::string::*;

verus! {

/// `String::push` appends one character to the end of the text.
pub assume_specification[ String::push ](s: &mut String, c: char)
    ensures
        final(s)@ == old(s)@.push(c),
;

/// The digit character of `d`.
pub open spec fn digit(d: nat) -> char {
    (48 + d) as char
}

/// `n` in decimal, without leading zeros.
pub open spec fn decimal_of(n: nat) -> Seq<char>
    decreases n,
{
    if n < 10 {
        seq![digit(n)]
    } else {
        decimal_of(n / 10).push(digit(n % 10))
    }
}

/// Whether `c` is one of `0` to `9`.
pub open spec fn is_digit(c: char) -> bool {
    '0' <= c <= '9'
}

/// Whether `s` holds digits only.
pub open spec fn all_digits(s: Seq<char>) -> bool {
    forall|i: int| 0 <= i < s.len() ==> is_digit(#[trigger] s[i])
}

/// The number that the digits of `s` write.
pub open spec fn digits_value(s: Seq<char>) -> nat
    decreases s.len(),
{
    if s.len() == 0 {
        0
    } else {
        digits_value(s.drop_last()) * 10 + (s.last() as nat - 48) as nat
    }
}

/// The digits of a number as it is written: a single leading `+` is allowed.
pub open spec fn unsigned_digits(s: Seq<char>) -> Seq<char> {
    if s.len() > 0 && s[0] == '+' {
        s.skip(1)
    } else {
        s
    }
}

/// The unsigned number that `s` writes, when it writes one no larger than
/// `max`.
pub open spec fn number_in(s: Seq<char>, max: nat) -> Option<nat> {
    let digits = unsigned_digits(s);
    if digits.len() > 0 && all_digits(digits) && digits_value(digits) <= max {
        Some(digits_value(digits))
    } else {
        None
    }
}

/// The characters of `s`.
pub fn chars_of(s: &str) -> (r: Vec<char>)
    ensures
        r@ == s@,
{
    let mut out: Vec<char> = Vec::new();
    for c in it: s.chars()
        invariant
            out@ == it.seq().take(it.index() as int),
            it.seq() == s@,
    {
        out.push(c);
    }
    out
}

/// The text that `chars` spells.
pub fn text_of(chars: &[char]) -> (r: String)
    ensures
        r@ == chars@,
{
    let mut out = String::new();
    let mut i: usize = 0;
    while i < chars.len()
        invariant
            i <= chars@.len(),
            out@ == chars@.take(i as int),
        decreases chars@.len() - i,
    {
        out.push(chars[i]);
        i = i + 1;
        assert(chars@.take(i as int) == chars@.take(i - 1).push(chars@[i - 1]));
    }
    out
}

/// Whether two texts are the same.
pub fn same(a: &str, b: &str) -> (r: bool)
    ensures
        r == (a@ == b@),
{
    let x = chars_of(a);
    let y = chars_of(b);
    if x.len() != y.len() {
        return false;
    }
    let mut i: usize = 0;
    while i < x.len()
        invariant
            i <= x@.len(),
            x@.len() == y@.len(),
            x@ == a@,
            y@ == b@,
            forall|j: int| 0 <= j < i ==> x@[j] == y@[j],
        decreases x@.len() - i,
    {
        if x[i] != y[i] {
            return false;
        }
        i = i + 1;
    }
    assert(x@ =~= y@);
    true
}

/// `n` in decimal.
pub fn decimal(n: u64) -> (r: String)
    ensures
        r@ == decimal_of(n as nat),
{
    decimal_wide(n as u128)
}

/// `n` in decimal.
pub fn decimal_wide(n: u128) -> (r: String)
    ensures
        r@ == decimal_of(n as nat),
    decreases n,
{
    let last = (48 + (n % 10) as u8) as char;
    if n < 10 {
        let mut out = String::new();
        out.push(last);
        assert(out@ =~= seq![digit(n as nat)]);
        out
    } else {
        let mut out = decimal_wide(n / 10);
        out.push(last);
        out
    }
}

/// What `{:?}` writes for a text: the text in quotes, with the characters that
/// do not print as themselves escaped.
pub uninterp spec fn quoted_text(s: Seq<char>) -> Seq<char>;

/// `format!` with `{:?}` of a `str`: the text in quotes, escaped. What it
/// escapes, and how, is left to [`quoted_text`].
#[verifier::external_body]
pub(crate) fn quoted(s: &str) -> (r: String)
    ensures
        r@ == quoted_text(s@),
{
    format!("{s:?}")
}

/// The characters of each of `v`.
pub open spec fn texts(v: Seq<String>) -> Seq<Seq<char>> {
    Seq::new(v.len(), |i: int| v[i]@)
}

/// The characters of each pair of `v`.
pub open spec fn pairs(v: Seq<(String, String)>) -> Seq<(Seq<char>, Seq<char>)> {
    Seq::new(v.len(), |i: int| (v[i].0@, v[i].1@))
}

/// The characters of a text that may be missing.
pub open spec fn maybe(v: Option<String>) -> Option<Seq<char>> {
    match v {
        Some(t) => Some(t@),
        None => None,
    }
}

/// Whether `s` begins with `head`.
pub open spec fn begins(s: Seq<char>, head: Seq<char>) -> bool {
    head.len() <= s.len() && s.take(head.len() as int) == head
}

/// Where `s` first holds an element that satisfies `p`; its length where none
/// does.
pub open spec fn first_such<T>(s: Seq<T>, p: spec_fn(T) -> bool) -> nat
    decreases s.len(),
{
    if s.len() == 0 || p(s[0]) {
        0
    } else {
        1 + first_such(s.skip(1), p)
    }
}

/// What [`first_such`] is, stated of the elements before it.
pub proof fn lemma_first_such<T>(s: Seq<T>, p: spec_fn(T) -> bool)
    ensures
        first_such(s, p) <= s.len(),
        first_such(s, p) < s.len() ==> p(s[first_such(s, p) as int]),
        forall|j: int| 0 <= j < first_such(s, p) ==> !p(#[trigger] s[j]),
    decreases s.len(),
{
    if s.len() > 0 && !p(s[0]) {
        let t = s.skip(1);
        lemma_first_such(t, p);
        assert forall|j: int| 0 <= j < first_such(s, p) implies !p(#[trigger] s[j]) by {
            if j > 0 {
                assert(t[j - 1] == s[j]);
            }
        }
        if first_such(s, p) < s.len() {
            assert(t[first_such(t, p) as int] == s[first_such(s, p) as int]);
        }
    }
}

/// A place that satisfies `p`, or the end, with no such place before it, is the
/// first one.
pub proof fn lemma_first_such_is<T>(s: Seq<T>, p: spec_fn(T) -> bool, i: int)
    requires
        0 <= i <= s.len(),
        forall|j: int| 0 <= j < i ==> !p(#[trigger] s[j]),
        i < s.len() ==> p(s[i]),
    ensures
        first_such(s, p) == i,
{
    lemma_first_such(s, p);
    let f = first_such(s, p) as int;
    if f < i {
        assert(!p(s[f]));
    }
}

/// The place after the last `c` in `s`; 0 where there is none.
pub open spec fn after_last(s: Seq<char>, c: char) -> nat
    decreases s.len(),
{
    if s.len() == 0 {
        0
    } else if s.last() == c {
        s.len()
    } else {
        after_last(s.drop_last(), c)
    }
}

/// A copy of a text.
pub fn copy(s: &str) -> (r: String)
    ensures
        r@ == s@,
{
    s.to_owned()
}

/// Copies of texts.
pub fn copies(v: &[String]) -> (r: Vec<String>)
    ensures
        r@ == v@,
{
    let mut out: Vec<String> = Vec::new();
    let mut i: usize = 0;
    while i < v.len()
        invariant
            i <= v@.len(),
            out@ == v@.take(i as int),
        decreases v@.len() - i,
    {
        out.push(v[i].clone());
        i = i + 1;
        assert(v@.take(i as int) =~= v@.take(i - 1).push(v@[i - 1]));
    }
    out
}

/// Whether `s` begins with `head`.
pub fn starts_with(s: &str, head: &str) -> (r: bool)
    ensures
        r == begins(s@, head@),
{
    let x = chars_of(s);
    let y = chars_of(head);
    if y.len() > x.len() {
        return false;
    }
    let mut i: usize = 0;
    while i < y.len()
        invariant
            i <= y@.len() <= x@.len(),
            x@ == s@,
            y@ == head@,
            forall|j: int| 0 <= j < i ==> x@[j] == y@[j],
        decreases y@.len() - i,
    {
        if x[i] != y[i] {
            assert(s@.take(head@.len() as int)[i as int] != head@[i as int]);
            return false;
        }
        i = i + 1;
    }
    assert(s@.take(head@.len() as int) =~= head@);
    true
}

/// Where `s` first holds `c`; its length where it does not.
pub open spec fn first_char(s: Seq<char>, c: char) -> nat {
    first_such(s, |x: char| x == c)
}

/// Where `s` first holds `c`; its length where it does not.
pub fn find_char(s: &[char], c: char) -> (r: usize)
    ensures
        r == first_char(s@, c),
        r == first_such(s@, |x: char| x == c),
        r <= s@.len(),
{
    let mut i: usize = 0;
    while i < s.len() && s[i] != c
        invariant
            i <= s@.len(),
            forall|j: int| 0 <= j < i ==> (#[trigger] s@[j]) != c,
        decreases s@.len() - i,
    {
        i = i + 1;
    }
    proof {
        let p = |x: char| x == c;
        lemma_first_such_is(s@, p, i as int);
        assert(first_char(s@, c) == i) by {
            lemma_first_char(s@, c, i as int);
        }
    }
    i
}

/// A place that holds `c`, or the end, with no `c` before it is the first one.
pub proof fn lemma_first_char(s: Seq<char>, c: char, i: int)
    requires
        0 <= i <= s.len(),
        forall|j: int| 0 <= j < i ==> (#[trigger] s[j]) != c,
        i < s.len() ==> s[i] == c,
    ensures
        first_char(s, c) == i,
    decreases s.len(),
{
    if s.len() > 0 && s[0] != c {
        let t = s.skip(1);
        assert forall|j: int| 0 <= j < i - 1 implies (#[trigger] t[j]) != c by {
            assert(t[j] == s[j + 1]);
        }
        if i < s.len() {
            assert(t[i - 1] == s[i]);
        }
        lemma_first_char(t, c, i - 1);
    }
}

/// The number that `s` writes in decimal, as `str::parse` reads an unsigned one
/// of at most `max`.
pub fn parse_number(s: &str, max: u64) -> (r: Option<u64>)
    ensures
        r is Some <==> number_in(s@, max as nat) is Some,
        r matches Some(n) ==> number_in(s@, max as nat) == Some(n as nat),
{
    let chars = chars_of(s);
    let start: usize = if chars.len() > 0 && chars[0] == '+' {
        1
    } else {
        0
    };
    let ghost digits = unsigned_digits(s@);
    assert(digits =~= chars@.skip(start as int));
    if chars.len() == start {
        return None;
    }
    let mut value: u64 = 0;
    let mut i: usize = start;
    while i < chars.len()
        invariant
            start <= i <= chars@.len(),
            start < chars@.len(),
            digits == chars@.skip(start as int),
            digits == unsigned_digits(s@),
            all_digits(digits.take(i - start)),
            value == digits_value(digits.take(i - start)),
            value <= max,
        decreases chars@.len() - i,
    {
        let c = chars[i];
        let ghost n = i - start;
        assert(c == digits[n]);
        if !('0' <= c && c <= '9') {
            assert(!all_digits(digits));
            return None;
        }
        let d = c as u64 - 48;
        proof {
            assert(digits.take(n + 1).drop_last() =~= digits.take(n));
            assert(digits.take(n + 1).last() == c);
            assert forall|j: int| 0 <= j < n + 1 implies is_digit(
                #[trigger] digits.take(n + 1)[j],
            ) by {
                if j < n {
                    assert(digits.take(n)[j] == digits.take(n + 1)[j]);
                }
            }
            if all_digits(digits) {
                lemma_value_grows(digits, n + 1);
            }
        }
        let wide = value as u128 * 10 + d as u128;
        if wide > max as u128 {
            return None;
        }
        value = wide as u64;
        i = i + 1;
    }
    assert(digits.take(digits.len() as int) =~= digits);
    Some(value)
}

/// More digits never write a smaller number.
pub proof fn lemma_value_grows(digits: Seq<char>, n: int)
    requires
        0 <= n <= digits.len(),
        all_digits(digits),
    ensures
        digits_value(digits.take(n)) <= digits_value(digits),
    decreases digits.len() - n,
{
    if n < digits.len() {
        assert(digits.take(n + 1).drop_last() =~= digits.take(n));
        lemma_value_grows(digits, n + 1);
    } else {
        assert(digits.take(n) =~= digits);
    }
}

/// The characters of a slice that may be missing.
pub open spec fn slice_view(v: Option<&str>) -> Option<Seq<char>> {
    match v {
        Some(t) => Some(t@),
        None => None,
    }
}

/// The relative path `rel` under the directory `base`.
pub open spec fn under(base: Seq<char>, rel: Seq<char>) -> Seq<char> {
    if base.len() > 0 && base.last() != '/' {
        base.push('/') + rel
    } else {
        base + rel
    }
}

/// The relative path `rel` under the directory `base`.
pub fn join_path(base: &str, rel: &str) -> (r: String)
    ensures
        r@ == under(base@, rel@),
{
    let chars = chars_of(base);
    let mut out = copy(base);
    if chars.len() > 0 && chars[chars.len() - 1] != '/' {
        out.push('/');
    }
    out.append(rel);
    out
}

/// A number in decimal, with its sign where it is negative.
pub open spec fn signed_of(n: int) -> Seq<char> {
    if n < 0 {
        seq!['-'] + decimal_of((-n) as nat)
    } else {
        decimal_of(n as nat)
    }
}

/// A number in decimal, with its sign where it is negative.
pub fn signed(n: i32) -> (r: String)
    ensures
        r@ == signed_of(n as int),
{
    if n < 0 {
        let mut out = String::new();
        out.push('-');
        let rest = decimal((-(n as i64)) as u64);
        out.append(rest.as_str());
        assert(out@ =~= seq!['-'] + rest@);
        out
    } else {
        decimal(n as u64)
    }
}

/// A number below 100 in two digits.
pub open spec fn two_digits(n: nat) -> Seq<char> {
    seq![digit(n / 10 % 10), digit(n % 10)]
}

/// A number below 100 in two digits.
pub fn in_two_digits(n: u64) -> (r: String)
    ensures
        r@ == two_digits(n as nat),
{
    let mut out = String::new();
    out.push((48 + (n / 10 % 10) as u8) as char);
    out.push((48 + (n % 10) as u8) as char);
    assert(out@ =~= two_digits(n as nat));
    out
}

/// `n` times the same character.
pub open spec fn repeated(c: char, n: nat) -> Seq<char> {
    Seq::new(n, |i: int| c)
}

/// `n` times the same character.
pub fn repeat(c: char, n: usize) -> (r: String)
    ensures
        r@ == repeated(c, n as nat),
{
    let mut out = String::new();
    let mut i: usize = 0;
    while i < n
        invariant
            i <= n,
            out@ == repeated(c, i as nat),
        decreases n - i,
    {
        out.push(c);
        i = i + 1;
        assert(repeated(c, i as nat) =~= repeated(c, (i - 1) as nat).push(c));
    }
    out
}

/// A text with spaces behind it, up to a width.
pub open spec fn padded(s: Seq<char>, width: nat) -> Seq<char> {
    if s.len() >= width {
        s
    } else {
        s + repeated(' ', (width - s.len()) as nat)
    }
}

/// A text with spaces behind it, up to a width.
pub fn pad(s: &str, width: usize) -> (r: String)
    ensures
        r@ == padded(s@, width as nat),
{
    let len = chars_of(s).len();
    let mut out = copy(s);
    if len < width {
        out.append(repeat(' ', width - len).as_str());
    }
    out
}

/// Whether `s` holds `part`.
pub open spec fn includes(s: Seq<char>, part: Seq<char>) -> bool {
    exists|i: int| 0 <= i <= s.len() && begins(#[trigger] s.skip(i), part)
}

/// Whether `s` holds `part`.
pub fn contains(s: &str, part: &str) -> (r: bool)
    ensures
        r == includes(s@, part@),
{
    let len = chars_of(s).len();
    let mut i: usize = 0;
    loop
        invariant
            i <= len,
            len == s@.len(),
            forall|j: int| 0 <= j < i ==> !begins(#[trigger] s@.skip(j), part@),
        decreases len - i,
    {
        let rest = s.substring_char(i, len);
        assert(rest@ =~= s@.skip(i as int));
        if starts_with(rest, part) {
            return true;
        }
        if i == len {
            return false;
        }
        i = i + 1;
    }
}

/// What `str::to_lowercase` gives for a text.
pub uninterp spec fn lowercased(s: Seq<char>) -> Seq<char>;

/// `str::to_lowercase`: the text in lower case. Which characters that changes,
/// and into what, is left to [`lowercased`].
#[verifier::external_body]
pub(crate) fn to_lowercase(s: &str) -> (r: String)
    ensures
        r@ == lowercased(s@),
{
    s.to_lowercase()
}

/// Where what stands behind the last `c` of `s` begins.
pub fn last_of(s: &[char], c: char) -> (r: usize)
    ensures
        r == after_last(s@, c),
        r <= s@.len(),
{
    let mut i: usize = s.len();
    assert(s@.take(s@.len() as int) =~= s@);
    while i > 0 && s[i - 1] != c
        invariant
            i <= s@.len(),
            after_last(s@, c) == after_last(s@.take(i as int), c),
        decreases i,
    {
        assert(s@.take(i as int).drop_last() =~= s@.take(i - 1));
        i = i - 1;
    }
    proof {
        if i > 0 {
            assert(s@.take(i as int).last() == c);
        } else {
            assert(s@.take(0) =~= Seq::<char>::empty());
        }
    }
    i
}

/// Reading a number back gives the number that was written.
pub proof fn law_a_decimal_reads_back(n: nat, max: nat)
    requires
        n <= max,
    ensures
        number_in(decimal_of(n), max) == Some(n),
{
    lemma_decimal(n);
    let s = decimal_of(n);
    assert(is_digit(s[0]));
    assert(unsigned_digits(s) == s);
}

/// A number in decimal has digits only, and they write the number.
pub proof fn lemma_decimal(n: nat)
    ensures
        decimal_of(n).len() > 0,
        all_digits(decimal_of(n)),
        digits_value(decimal_of(n)) == n,
    decreases n,
{
    let s = decimal_of(n);
    if n < 10 {
        assert(s.drop_last() =~= Seq::empty());
        assert(digits_value(s.drop_last()) == 0);
    } else {
        lemma_decimal(n / 10);
        let t = decimal_of(n / 10);
        assert(s.drop_last() =~= t);
        assert forall|i: int| 0 <= i < s.len() implies is_digit(#[trigger] s[i]) by {
            if i < t.len() {
                assert(s[i] == t[i]);
            }
        }
    }
}

/// Whether a path is absolute.
pub open spec fn absolute(path: Seq<char>) -> bool {
    path.len() > 0 && path[0] == '/'
}

/// Whether a path is absolute.
pub fn is_absolute(path: &str) -> (r: bool)
    ensures
        r == absolute(path@),
{
    let chars = chars_of(path);
    chars.len() > 0 && chars[0] == '/'
}

/// A decimal is written from the left: a digit behind it makes it ten times as
/// much and the digit more, and the ten digits stand for themselves.
pub proof fn law_a_digit_behind_a_decimal(n: nat, d: nat)
    requires
        d < 10,
    ensures
        n > 0 ==> decimal_of(10 * n + d) == decimal_of(n).push((48 + d) as char),
        decimal_of(d) == seq![(48 + d) as char],
{
    assert((10 * n + d) / 10 == n);
    assert((10 * n + d) % 10 == d);
}

/// A place behind a `c`, or the start, with no `c` after it is where what stands
/// behind the last one begins.
pub proof fn lemma_after_last_is(s: Seq<char>, c: char, k: nat)
    requires
        k <= s.len(),
        k > 0 ==> s[k - 1] == c,
        forall|i: int| k <= i < s.len() ==> s[i] != c,
    ensures
        after_last(s, c) == k,
    decreases s.len(),
{
    if s.len() > k {
        lemma_after_last_is(s.drop_last(), c, k);
    }
}

/// A number below 100 in two digits is its tens and its ones, each as a digit.
pub proof fn law_two_digits_are_tens_and_ones(tens: nat, ones: nat)
    requires
        tens < 10,
        ones < 10,
    ensures
        two_digits(10 * tens + ones) == seq![(48 + tens) as char, (48 + ones) as char],
        two_digits(10 * tens + ones).len() == 2,
{
    assert((10 * tens + ones) / 10 == tens);
    assert((10 * tens + ones) % 10 == ones);
}

/// A padded text is the text with spaces behind it, as wide as asked for or as the
/// text where that is wider.
pub proof fn law_padding_adds_spaces_only(s: Seq<char>, width: nat)
    ensures
        begins(padded(s, width), s),
        padded(s, width).len() == if s.len() >= width {
            s.len()
        } else {
            width
        },
        forall|i: int| s.len() <= i < padded(s, width).len() ==> padded(s, width)[i] == ' ',
{
    assert(padded(s, width).take(s.len() as int) =~= s);
}

/// A negative number is written with a dash in front of what it is without its sign.
pub proof fn law_a_sign_is_a_dash(n: nat)
    ensures
        signed_of(n as int) == decimal_of(n),
        n > 0 ==> signed_of(-(n as int)) == seq!['-'] + decimal_of(n),
{
}

/// A text holds a part that stands anywhere in it; and where it holds one, it is
/// something, the part and something.
pub proof fn law_a_part_stands_between_two_others(
    before: Seq<char>,
    part: Seq<char>,
    after: Seq<char>,
    s: Seq<char>,
)
    ensures
        includes(before + part + after, part),
        includes(s, part) ==> exists|i: int|
            0 <= i && i + part.len() <= s.len() && #[trigger] s.subrange(
                i,
                i + part.len() as int,
            ) == part,
{
    if includes(s, part) {
        let i = choose|i: int| 0 <= i <= s.len() && begins(#[trigger] s.skip(i), part);
        assert(s.subrange(i, i + part.len() as int) =~= s.skip(i).take(part.len() as int));
    }
    let all = before + part + after;
    assert(all.skip(before.len() as int) =~= part + after);
    assert((part + after).take(part.len() as int) =~= part);
    assert(begins(all.skip(before.len() as int), part));
}

/// A number is digits alone, with or without a plus in front, and no larger than
/// what fits.
pub proof fn law_only_digits_make_a_number(s: Seq<char>, i: int, n: nat, max: nat)
    ensures
        0 < i < s.len() && !('0' <= s[i] <= '9') ==> number_in(s, max) is None,
        s.len() > 0 && s[0] != '+' && !('0' <= s[0] <= '9') ==> number_in(s, max) is None,
        s.len() == 0 ==> number_in(s, max) is None,
        n > max ==> number_in(decimal_of(n), max) is None,
        n <= max ==> number_in(seq!['+'] + decimal_of(n), max) == Some(n),
{
    lemma_decimal(n);
    let d = decimal_of(n);
    assert(is_digit(d[0]));
    assert(unsigned_digits(d) == d);
    let plus = seq!['+'] + d;
    assert(plus[0] == '+');
    assert(plus.skip(1) =~= d);
    let u = unsigned_digits(s);
    if 0 < i < s.len() && !('0' <= s[i] <= '9') {
        let k = if s[0] == '+' {
            i - 1
        } else {
            i
        };
        assert(u[k] == s[i]);
        assert(!is_digit(u[k]));
    }
    if s.len() > 0 && s[0] != '+' && !('0' <= s[0] <= '9') {
        assert(u[0] == s[0]);
        assert(!is_digit(u[0]));
    }
}



} // verus!
