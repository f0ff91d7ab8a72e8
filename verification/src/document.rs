//! Reading a TOML document.

use vstd::prelude::*;

use crate::text::chars_of;

#[allow(unused_imports)]
use crate::text::unsigned_digits;

verus! {

/// A TOML value, opaque: what it holds is [`toml_value`].
#[verifier::external_type_specification]
#[verifier::external_body]
pub struct ExDeValue<'i>(toml::de::DeValue<'i>);

/// What a TOML value is.
pub enum Toml {
    Text(Seq<char>),
    /// A number: its digits, with a sign where it was written with one, and the
    /// base they are in.
    Integer(Seq<char>, nat),
    /// A table's entries, in the order in which it lists them.
    Table(Seq<TomlEntry>),
    /// An array's elements.
    Array(Seq<TomlItem>),
    /// Anything else.
    Other,
}

/// An element of an array.
pub struct TomlItem {
    /// The byte at which it was written.
    pub at: nat,
    pub value: Toml,
}

/// An entry of a table.
pub struct TomlEntry {
    pub key: Seq<char>,
    /// The byte at which the key was written.
    pub key_at: nat,
    /// The byte at which the value was written.
    pub at: nat,
    pub value: Toml,
}

/// What a document holds, or why it is none.
pub uninterp spec fn toml_document(text: Seq<char>) -> Result<Seq<TomlEntry>, Seq<char>>;

/// What a value holds.
pub uninterp spec fn toml_value(value: toml::de::DeValue<'_>) -> Toml;

/// `DeTable::parse` reads a document, or says what is wrong with it; both are
/// functions of the text alone. The table is handed on as a value, the error as
/// the text that its `Display` writes.
#[verifier::external_body]
pub(crate) fn parse_document<'i>(text: &'i str) -> (r: Result<toml::de::DeValue<'i>, String>)
    ensures
        match r {
            Ok(v) => toml_document(text@) is Ok && toml_value(v) == Toml::Table(
                toml_document(text@)->Ok_0,
            ),
            Err(e) => toml_document(text@) == Err::<Seq<TomlEntry>, Seq<char>>(e@),
        },
{
    match toml::de::DeTable::parse(text) {
        Ok(table) => Ok(toml::de::DeValue::Table(table.into_inner())),
        Err(e) => Err(e.to_string()),
    }
}

/// `DeValue::as_table` and `Map::len`: how many entries a table has, and nothing
/// where the value is no table.
#[verifier::external_body]
pub(crate) fn table_len(value: &toml::de::DeValue<'_>) -> (r: Option<usize>)
    ensures
        r is Some <==> toml_value(*value) is Table,
        r matches Some(n) ==> n == toml_value(*value)->Table_0.len(),
{
    value.as_table().map(|t| t.len())
}

/// `Map::iter` over a table, at place `i`: the key and the value there, and
/// where in the text each begins (`Spanned::span`). The order is the map's own.
#[verifier::external_body]
pub(crate) fn table_entry<'a, 'i>(value: &'a toml::de::DeValue<'i>, i: usize) -> (r: (
    String,
    usize,
    usize,
    &'a toml::de::DeValue<'i>,
))
    requires
        toml_value(*value) is Table,
        i < toml_value(*value)->Table_0.len(),
    ensures
        toml_value(*value)->Table_0[i as int] == (TomlEntry {
            key: r.0@,
            key_at: r.1 as nat,
            at: r.2 as nat,
            value: toml_value(*r.3),
        }),
{
    let (key, inner) = value.as_table().unwrap().iter().nth(i).unwrap();
    (key.get_ref().to_string(), key.span().start, inner.span().start, inner.get_ref())
}

/// `DeValue::as_array` and the length of the slice behind it: how many elements an
/// array has, and nothing where the value is no array.
#[verifier::external_body]
pub(crate) fn array_len(value: &toml::de::DeValue<'_>) -> (r: Option<usize>)
    ensures
        r is Some <==> toml_value(*value) is Array,
        r matches Some(n) ==> n == toml_value(*value)->Array_0.len(),
{
    value.as_array().map(|a| a.len())
}

/// `DeArray` indexed at place `i`: where in the text the element there begins
/// (`Spanned::span`), and the element.
#[verifier::external_body]
pub(crate) fn array_item<'a, 'i>(value: &'a toml::de::DeValue<'i>, i: usize) -> (r: (
    usize,
    &'a toml::de::DeValue<'i>,
))
    requires
        toml_value(*value) is Array,
        i < toml_value(*value)->Array_0.len(),
    ensures
        toml_value(*value)->Array_0[i as int] == (TomlItem {
            at: r.0 as nat,
            value: toml_value(*r.1),
        }),
{
    let inner = &value.as_array().unwrap()[i];
    (inner.span().start, inner.get_ref())
}

/// `DeValue::as_str`: the text of a value that is one.
#[verifier::external_body]
pub(crate) fn text_value(value: &toml::de::DeValue<'_>) -> (r: Option<String>)
    ensures
        r is Some <==> toml_value(*value) is Text,
        r matches Some(t) ==> toml_value(*value) == Toml::Text(t@),
{
    value.as_str().map(|t| t.to_string())
}

/// `DeValue::as_integer`: the digits and the base of a value that is a number
/// (`DeInteger::as_str`, `DeInteger::radix`).
#[verifier::external_body]
pub(crate) fn integer_value(value: &toml::de::DeValue<'_>) -> (r: Option<(String, u32)>)
    ensures
        r is Some <==> toml_value(*value) is Integer,
        r matches Some(n) ==> toml_value(*value) == Toml::Integer(n.0@, n.1 as nat),
{
    value.as_integer().map(|n| (n.as_str().to_string(), n.radix()))
}

/// What a digit is worth; nothing where `c` is none.
pub open spec fn digit_worth(c: char) -> Option<nat> {
    if '0' <= c <= '9' {
        Some((c as nat - 48) as nat)
    } else if 'a' <= c <= 'z' {
        Some((c as nat - 87) as nat)
    } else if 'A' <= c <= 'Z' {
        Some((c as nat - 55) as nat)
    } else {
        None
    }
}

/// Whether `c` is a digit in base `radix`.
pub open spec fn digit_in(c: char, radix: nat) -> bool {
    digit_worth(c) matches Some(d) && d < radix
}

/// The number that digits write in base `radix`.
pub open spec fn radix_value(s: Seq<char>, radix: nat) -> nat
    decreases s.len(),
{
    if s.len() == 0 {
        0
    } else {
        radix_value(s.drop_last(), radix) * radix + digit_worth(s.last()).unwrap_or(0)
    }
}

/// The unsigned number that `s` writes in base `radix`, when it writes one no
/// larger than `max`.
pub open spec fn radix_number(s: Seq<char>, radix: nat, max: nat) -> Option<nat> {
    let digits = unsigned_digits(s);
    if digits.len() > 0 && (forall|i: int|
        0 <= i < digits.len() ==> digit_in(#[trigger] digits[i], radix)) && radix_value(
        digits,
        radix,
    ) <= max {
        Some(radix_value(digits, radix))
    } else {
        None
    }
}

/// The unsigned number that a value is, when it is one no larger than `max`.
pub open spec fn number_of(value: Toml, max: nat) -> Option<nat> {
    match value {
        Toml::Integer(digits, radix) => radix_number(digits, radix, max),
        _ => None,
    }
}

proof fn lemma_radix_grows(digits: Seq<char>, radix: nat, n: int)
    requires
        0 <= n <= digits.len(),
        radix >= 1,
    ensures
        radix_value(digits.take(n), radix) <= radix_value(digits, radix),
    decreases digits.len() - n,
{
    if n < digits.len() {
        let t = digits.take(n + 1);
        assert(t.drop_last() =~= digits.take(n));
        let v = radix_value(digits.take(n), radix);
        assert(v <= v * radix) by (nonlinear_arith)
            requires
                radix >= 1,
                v >= 0,
        ;
        lemma_radix_grows(digits, radix, n + 1);
    } else {
        assert(digits.take(n) =~= digits);
    }
}

fn worth(c: char) -> (r: Option<u32>)
    ensures
        r is Some <==> digit_worth(c) is Some,
        r matches Some(d) ==> digit_worth(c) == Some(d as nat),
{
    if '0' <= c && c <= '9' {
        Some(c as u32 - 48)
    } else if 'a' <= c && c <= 'z' {
        Some(c as u32 - 87)
    } else if 'A' <= c && c <= 'Z' {
        Some(c as u32 - 55)
    } else {
        None
    }
}

/// The unsigned number that `s` writes in base `radix`, when it writes one no
/// larger than `max`.
pub fn parse_radix(s: &str, radix: u32, max: u64) -> (r: Option<u64>)
    ensures
        r is Some <==> radix_number(s@, radix as nat, max as nat) is Some,
        r matches Some(n) ==> radix_number(s@, radix as nat, max as nat) == Some(n as nat),
{
    let chars = chars_of(s);
    let start: usize = if chars.len() > 0 && chars[0] == '+' {
        1
    } else {
        0
    };
    let ghost digits = unsigned_digits(s@);
    assert(digits =~= chars@.skip(start as int));
    if chars.len() == start {
        return None;
    }
    let mut value: u64 = 0;
    let mut i: usize = start;
    while i < chars.len()
        invariant
            start <= i <= chars@.len(),
            start < chars@.len(),
            digits == chars@.skip(start as int),
            digits == unsigned_digits(s@),
            forall|j: int| 0 <= j < i - start ==> digit_in(#[trigger] digits[j], radix as nat),
            value == radix_value(digits.take(i - start), radix as nat),
            value <= max,
        decreases chars@.len() - i,
    {
        let c = chars[i];
        let ghost n = i - start;
        assert(c == digits[n]);
        let d = match worth(c) {
            Some(d) => d,
            None => {
                assert(!digit_in(digits[n], radix as nat));
                return None;
            },
        };
        if d >= radix {
            assert(!digit_in(digits[n], radix as nat));
            return None;
        }
        proof {
            assert(digits.take(n + 1).drop_last() =~= digits.take(n));
            lemma_radix_grows(digits, radix as nat, n + 1);
            assert(value * radix <= 0xffff_ffff_ffff_ffff * 0xffff_ffff) by (nonlinear_arith)
                requires
                    value <= 0xffff_ffff_ffff_ffff,
                    radix <= 0xffff_ffff,
                    value >= 0,
                    radix >= 0,
            ;
        }
        let wide = value as u128 * radix as u128 + d as u128;
        if wide > max as u128 {
            return None;
        }
        value = wide as u64;
        i = i + 1;
    }
    assert(digits.take(digits.len() as int) =~= digits);
    Some(value)
}

/// The unsigned number that a value is, when it is one no larger than `max`.
pub(crate) fn read_number(value: &toml::de::DeValue<'_>, max: u64) -> (r: Option<u64>)
    ensures
        r is Some <==> number_of(toml_value(*value), max as nat) is Some,
        r matches Some(n) ==> number_of(toml_value(*value), max as nat) == Some(n as nat),
{
    match integer_value(value) {
        Some((digits, radix)) => parse_radix(digits.as_str(), radix, max),
        None => None,
    }
}

} // verus!
