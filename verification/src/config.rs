//! The configuration file.
//!
//! Every key is optional. A file that does not parse, names a key nobody reads
//! or carries a value outside its range is refused whole, with the line it went
//! wrong on.

use vstd::prelude::*;
use vstd::string::*;

use crate::classify::{basename, Class, Inject, Rule, Table};
use crate::document::{
    array_item, array_len, parse_document, read_number, table_entry, table_len, text_value,
};
use crate::errors::BusybeeError;
use crate::scheduler::Params;
use crate::text::{chars_of, copies, copy, decimal, decimal_wide, find_char, is_absolute, join_path, quoted, same, text_of};

#[allow(unused_imports)]
use crate::classify::{basename_of, class_named, RuleView};
#[allow(unused_imports)]
use crate::document::{number_of, toml_document, toml_value, Toml, TomlEntry, TomlItem};
#[allow(unused_imports)]
use crate::errors::error_text;
#[allow(unused_imports)]
use crate::text::{
    absolute, decimal_of, first_such, lemma_first_such, lemma_first_such_is, pairs, quoted_text,
    slice_view, texts, under,
};

verus! {

/// Leases admitted at once, when the file does not say.
pub const DEFAULT_MAX_CONCURRENT: u32 = 4;

/// How long a drain of tokens may take, when the file does not say.
pub const DEFAULT_DRAIN_DEADLINE_MS: u64 = 2000;

/// Largest pool the fifo can hold: the smallest capacity of a pipe.
pub const MAX_POOL_SIZE: u32 = 4096;

/// Shortest drain deadline.
pub const MIN_DRAIN_DEADLINE_MS: u64 = 100;

/// Longest drain deadline.
pub const MAX_DRAIN_DEADLINE_MS: u64 = 60_000;

/// `static = "fair"`, the share worked out at admission, or a fixed core count.
#[derive(Debug, Clone, Copy, PartialEq, Eq, Structural)]
pub enum StaticDefault {
    Fair,
    Cores(u32),
}

impl StaticDefault {
    /// The core count that a static lease starts from; nothing leaves the fair
    /// share in charge.
    pub fn cores_wanted(self) -> (r: Option<u32>)
        ensures
            r == match self {
                StaticDefault::Fair => None::<u32>,
                StaticDefault::Cores(n) => Some(n),
            },
    {
        match self {
            StaticDefault::Fair => None,
            StaticDefault::Cores(n) => Some(n),
        }
    }
}

impl Default for StaticDefault {
    fn default() -> (r: Self)
        ensures
            r == StaticDefault::Fair,
    {
        StaticDefault::Fair
    }
}

/// Defaults by class for the core count that a task asks for.
#[derive(Debug, Clone, Copy, PartialEq, Eq, Structural)]
pub struct Defaults {
    /// The key `static`.
    pub static_default: StaticDefault,
}

/// One classification row from the file. It replaces the built-in row for the
/// same tool.
#[derive(Debug, PartialEq, Eq)]
pub struct Override {
    /// The tool it matches, as the file spells it.
    pub key: String,
    pub class: Class,
    /// Variables to set for the task.
    pub env: Vec<(String, String)>,
}

/// An override, mathematically.
#[verifier::ext_equal]
pub struct OverrideView {
    pub key: Seq<char>,
    pub class: Class,
    pub env: Seq<(Seq<char>, Seq<char>)>,
}

impl View for Override {
    type V = OverrideView;

    open spec fn view(&self) -> OverrideView {
        OverrideView { key: self.key@, class: self.class, env: pairs(self.env@) }
    }
}

/// The views of overrides.
pub open spec fn override_views(v: Seq<Override>) -> Seq<OverrideView> {
    Seq::new(v.len(), |i: int| v[i]@)
}

/// The effective configuration: what the file said, with every unset key
/// resolved to its default.
#[derive(Debug, PartialEq, Eq)]
pub struct Config {
    pub pool_size: u32,
    pub max_concurrent: u32,
    pub drain_deadline_ms: u64,
    pub defaults: Defaults,
    /// Classification rows, in the order of their keys.
    pub overrides: Vec<Override>,
}

/// A configuration, mathematically.
#[verifier::ext_equal]
pub struct ConfigView {
    pub pool_size: u32,
    pub max_concurrent: u32,
    pub drain_deadline_ms: u64,
    pub static_default: StaticDefault,
    pub overrides: Seq<OverrideView>,
}

impl View for Config {
    type V = ConfigView;

    open spec fn view(&self) -> ConfigView {
        ConfigView {
            pool_size: self.pool_size,
            max_concurrent: self.max_concurrent,
            drain_deadline_ms: self.drain_deadline_ms,
            static_default: self.defaults.static_default,
            overrides: override_views(self.overrides@),
        }
    }
}

/// A variable of a row, as the file writes it.
#[derive(Debug)]
pub struct WrittenEnv {
    pub name: String,
    pub value: String,
    /// Where the value was written.
    pub at: usize,
}

/// A row, as the file writes it.
#[derive(Debug)]
pub struct WrittenOverride {
    pub key: String,
    /// Where the row was written.
    pub at: usize,
    pub class: Class,
    pub env: Vec<WrittenEnv>,
}

/// The file as written: every key optional, each value with the byte at which it
/// was written.
#[derive(Debug)]
pub struct Written {
    pub pool_size: Option<(u32, usize)>,
    pub max_concurrent: Option<(u32, usize)>,
    pub drain_deadline_ms: Option<(u64, usize)>,
    pub static_default: Option<(StaticDefault, usize)>,
    pub overrides: Vec<WrittenOverride>,
}

/// A written variable, mathematically.
#[verifier::ext_equal]
pub struct WrittenEnvView {
    pub name: Seq<char>,
    pub value: Seq<char>,
    pub at: usize,
}

/// A written row, mathematically.
#[verifier::ext_equal]
pub struct WrittenOverrideView {
    pub key: Seq<char>,
    pub at: usize,
    pub class: Class,
    pub env: Seq<WrittenEnvView>,
}

/// A written file, mathematically.
#[verifier::ext_equal]
pub struct WrittenView {
    pub pool_size: Option<(u32, usize)>,
    pub max_concurrent: Option<(u32, usize)>,
    pub drain_deadline_ms: Option<(u64, usize)>,
    pub static_default: Option<(StaticDefault, usize)>,
    pub overrides: Seq<WrittenOverrideView>,
}

/// The views of written variables.
pub open spec fn env_views(v: Seq<WrittenEnv>) -> Seq<WrittenEnvView> {
    Seq::new(
        v.len(),
        |i: int| WrittenEnvView { name: v[i].name@, value: v[i].value@, at: v[i].at },
    )
}

impl View for WrittenOverride {
    type V = WrittenOverrideView;

    open spec fn view(&self) -> WrittenOverrideView {
        WrittenOverrideView {
            key: self.key@,
            at: self.at,
            class: self.class,
            env: env_views(self.env@),
        }
    }
}

impl View for Written {
    type V = WrittenView;

    open spec fn view(&self) -> WrittenView {
        WrittenView {
            pool_size: self.pool_size,
            max_concurrent: self.max_concurrent,
            drain_deadline_ms: self.drain_deadline_ms,
            static_default: self.static_default,
            overrides: Seq::new(self.overrides@.len(), |i: int| self.overrides@[i]@),
        }
    }
}

/// Why a file was refused, and where in it to look.
#[derive(Debug, PartialEq, Eq)]
pub struct Refusal {
    pub reason: String,
    pub at: Option<usize>,
}

/// A refusal, mathematically.
#[verifier::ext_equal]
pub struct Refused {
    pub reason: Seq<char>,
    pub at: Option<usize>,
}

impl View for Refusal {
    type V = Refused;

    open spec fn view(&self) -> Refused {
        Refused { reason: self.reason@, at: self.at }
    }
}

impl Refusal {
    /// A refusal for `reason`, at `at`.
    pub fn at(at: Option<usize>, reason: String) -> (r: Self)
        ensures
            r@ == (Refused { reason: reason@, at }),
    {
        Refusal { reason, at }
    }
}

/// The 1-based line of the byte at `offset`, which may lie behind the end.
pub open spec fn line_at(bytes: Seq<u8>, offset: nat) -> nat {
    newlines(
        bytes.take(
            if offset < bytes.len() {
                offset as int
            } else {
                bytes.len() as int
            },
        ),
    ) + 1
}

/// How many line ends there are.
pub open spec fn newlines(bytes: Seq<u8>) -> nat
    decreases bytes.len(),
{
    if bytes.len() == 0 {
        0
    } else {
        newlines(bytes.drop_last()) + if bytes.last() == 10 {
            1nat
        } else {
            0nat
        }
    }
}

proof fn lemma_newlines(bytes: Seq<u8>)
    ensures
        newlines(bytes) <= bytes.len(),
    decreases bytes.len(),
{
    if bytes.len() > 0 {
        lemma_newlines(bytes.drop_last());
    }
}

/// The 1-based line of the byte at `offset`.
pub fn line_of(text: &str, offset: usize) -> (r: u128)
    ensures
        r == line_at(text.spec_bytes(), offset as nat),
{
    let bytes = text.as_bytes();
    let end: usize = if offset < bytes.len() {
        offset
    } else {
        bytes.len()
    };
    let mut line: u128 = 1;
    let mut i: usize = 0;
    while i < end
        invariant
            i <= end <= bytes@.len(),
            bytes@.len() <= usize::MAX,
            line == newlines(bytes@.take(i as int)) + 1,
        decreases end - i,
    {
        proof {
            assert(bytes@.take(i + 1).drop_last() =~= bytes@.take(i as int));
            lemma_newlines(bytes@.take(i as int));
        }
        if bytes[i] == 10 {
            line = line + 1;
        }
        i = i + 1;
    }
    line
}

/// A file, and the line in it when there is one to name.
pub open spec fn located(path: Seq<char>, bytes: Seq<u8>, at: Option<usize>) -> Seq<char> {
    match at {
        Some(offset) => path + " line "@ + decimal_of(line_at(bytes, offset as nat)),
        None => path,
    }
}

/// A file, and the line in it when there is one to name.
pub fn location(path: &str, text: &str, at: Option<usize>) -> (r: String)
    ensures
        r@ == located(path@, text.spec_bytes(), at),
{
    let mut out = copy(path);
    if let Some(offset) = at {
        out.append(" line ");
        out.append(decimal_wide(line_of(text, offset)).as_str());
    }
    out
}

/// Whether a braced text is one that is substituted.
pub open spec fn is_placeholder(found: Seq<char>) -> bool {
    found == "{cores}"@ || found == "{cores-1}"@ || found == "{fifo}"@
}

/// What is wrong with the first placeholder that is not one.
pub open spec fn placeholder_fault(value: Seq<char>) -> Option<Seq<char>>
    decreases value.len(),
{
    let open = first_such(value, |c: char| c == '{');
    if open >= value.len() {
        None
    } else {
        let rest = value.skip(open as int);
        let close = first_such(rest, |c: char| c == '}');
        if close >= rest.len() {
            Some(quoted_text(rest) + " opens a placeholder that never closes"@)
        } else {
            let found = rest.take(close as int + 1);
            if is_placeholder(found) {
                placeholder_fault(rest.skip(close as int + 1))
            } else {
                Some(
                    found
                        + " is not a placeholder busybee substitutes (only {cores}, {cores-1}, {fifo})"@,
                )
            }
        }
    }
}

/// Refuses a `{…}` that is not one of the three that are substituted.
pub fn check_placeholders(value: &str) -> (r: Result<(), String>)
    ensures
        match r {
            Ok(_) => placeholder_fault(value@) is None,
            Err(e) => placeholder_fault(value@) == Some(e@),
        },
{
    let chars = chars_of(value);
    let mut at: usize = 0;
    assert(value@.skip(0) =~= value@);
    loop
        invariant
            at <= chars@.len(),
            chars@ == value@,
            placeholder_fault(value@) == placeholder_fault(value@.skip(at as int)),
        decreases chars@.len() - at,
    {
        let ghost here = value@.skip(at as int);
        let tail = vstd::slice::slice_subrange(chars.as_slice(), at, chars.len());
        assert(tail@ =~= here);
        let open = find_char(tail, '{');
        if open == tail.len() {
            return Ok(());
        }
        let rest = vstd::slice::slice_subrange(tail, open, tail.len());
        assert(rest@ =~= here.skip(open as int));
        let close = find_char(rest, '}');
        if close == rest.len() {
            let mut text = quoted(text_of(rest).as_str());
            text.append(" opens a placeholder that never closes");
            return Err(text);
        }
        let found = text_of(vstd::slice::slice_subrange(rest, 0, close + 1));
        assert(found@ =~= rest@.take(close + 1));
        if !same(found.as_str(), "{cores}") && !same(found.as_str(), "{cores-1}") && !same(
            found.as_str(),
            "{fifo}",
        ) {
            let mut text = found;
            text.append(
                " is not a placeholder busybee substitutes (only {cores}, {cores-1}, {fifo})",
            );
            return Err(text);
        }
        assert(rest@.skip(close + 1) =~= value@.skip(at + open + close + 1));
        at = at + open + close + 1;
    }
}

/// The refusal of a key that nobody reads.
pub open spec fn unknown_field(entry: TomlEntry, known: Seq<char>) -> Refused {
    Refused {
        reason: "unknown field `"@ + entry.key + "`, expected "@ + known,
        at: Some(entry.key_at as usize),
    }
}

/// The refusal of a value that is not what its key takes.
pub open spec fn wrong_value(entry: TomlEntry, wanted: Seq<char>) -> Refused {
    Refused {
        reason: "invalid value for `"@ + entry.key + "`, expected "@ + wanted,
        at: Some(entry.at as usize),
    }
}

fn refuse_field(key: &str, at: usize, known: &str) -> (r: Refusal)
    ensures
        r@ == (Refused {
            reason: "unknown field `"@ + key@ + "`, expected "@ + known@,
            at: Some(at),
        }),
{
    let mut reason = copy("unknown field `");
    reason.append(key);
    reason.append("`, expected ");
    reason.append(known);
    Refusal { reason, at: Some(at) }
}

fn refuse_value(key: &str, at: usize, wanted: &str) -> (r: Refusal)
    ensures
        r@ == (Refused {
            reason: "invalid value for `"@ + key@ + "`, expected "@ + wanted@,
            at: Some(at),
        }),
{
    let mut reason = copy("invalid value for `");
    reason.append(key);
    reason.append("`, expected ");
    reason.append(wanted);
    Refusal { reason, at: Some(at) }
}

/// The variables that the first `n` entries of an `env` table set.
pub open spec fn read_env(entries: Seq<TomlEntry>, n: nat) -> Result<Seq<WrittenEnvView>, Refused>
    decreases n,
{
    if n == 0 {
        Ok(Seq::empty())
    } else {
        match read_env(entries, (n - 1) as nat) {
            Err(e) => Err(e),
            Ok(before) => {
                let e = entries[n - 1];
                match e.value {
                    Toml::Text(value) => Ok(
                        before.push(WrittenEnvView { name: e.key, value, at: e.at as usize }),
                    ),
                    _ => Err(wrong_value(e, "a string"@)),
                }
            },
        }
    }
}

/// What is known of a row after some of its entries.
#[verifier::ext_equal]
pub struct RowView {
    pub class: Option<Class>,
    pub env: Seq<WrittenEnvView>,
}

/// An element of the array that `key` is given, as an entry of its own.
pub open spec fn item_entry(key: Seq<char>, item: TomlItem) -> TomlEntry {
    TomlEntry { key, key_at: item.at, at: item.at, value: item.value }
}

/// The class that an entry names.
pub open spec fn class_in(e: TomlEntry) -> Result<Class, Refused> {
    match e.value {
        Toml::Text(name) => match class_named(name) {
            Some(class) => Ok(class),
            None => Err(
                Refused {
                    reason: "unknown class "@ + quoted_text(name)
                        + ": expected jobserver, static or none"@,
                    at: Some(e.at as usize),
                },
            ),
        },
        _ => Err(wrong_value(e, "a class name"@)),
    }
}

/// The variables that an entry sets.
pub open spec fn env_in(e: TomlEntry) -> Result<Seq<WrittenEnvView>, Refused> {
    match e.value {
        Toml::Table(inner) => read_env(inner, inner.len()),
        _ => Err(wrong_value(e, "a table"@)),
    }
}

/// What a row says that is written as an array: its class, and the variables it sets.
/// What stands behind them is not looked at.
pub open spec fn read_row_items(key: Seq<char>, items: Seq<TomlItem>) -> Result<RowView, Refused> {
    if items.len() == 0 {
        Ok(RowView { class: None, env: Seq::empty() })
    } else {
        match class_in(item_entry(key, items[0])) {
            Err(r) => Err(r),
            Ok(class) => if items.len() == 1 {
                Ok(RowView { class: Some(class), env: Seq::empty() })
            } else {
                match env_in(item_entry(key, items[1])) {
                    Err(r) => Err(r),
                    Ok(env) => Ok(RowView { class: Some(class), env }),
                }
            },
        }
    }
}

/// What the first `n` entries of a row say.
pub open spec fn read_row(entries: Seq<TomlEntry>, n: nat) -> Result<RowView, Refused>
    decreases n,
{
    if n == 0 {
        Ok(RowView { class: None, env: Seq::empty() })
    } else {
        match read_row(entries, (n - 1) as nat) {
            Err(e) => Err(e),
            Ok(before) => {
                let e = entries[n - 1];
                if e.key == "class"@ {
                    match class_in(e) {
                        Ok(class) => Ok(RowView { class: Some(class), ..before }),
                        Err(r) => Err(r),
                    }
                } else if e.key == "env"@ {
                    match env_in(e) {
                        Ok(env) => Ok(RowView { env, ..before }),
                        Err(r) => Err(r),
                    }
                } else {
                    Err(unknown_field(e, "`class` or `env`"@))
                }
            },
        }
    }
}

/// What a row says, written as a table or as an array.
pub open spec fn row_in(e: TomlEntry) -> Result<RowView, Refused> {
    match e.value {
        Toml::Table(inner) => read_row(inner, inner.len()),
        Toml::Array(items) => read_row_items(e.key, items),
        _ => Err(wrong_value(e, "a table"@)),
    }
}

/// The rows that the first `n` entries of the `overrides` table write.
pub open spec fn read_overrides(entries: Seq<TomlEntry>, n: nat) -> Result<
    Seq<WrittenOverrideView>,
    Refused,
>
    decreases n,
{
    if n == 0 {
        Ok(Seq::empty())
    } else {
        match read_overrides(entries, (n - 1) as nat) {
            Err(e) => Err(e),
            Ok(before) => {
                let e = entries[n - 1];
                match row_in(e) {
                    Err(r) => Err(r),
                    Ok(row) => match row.class {
                        None => Err(
                            Refused {
                                reason: "missing field `class`"@,
                                at: Some(e.at as usize),
                            },
                        ),
                        Some(class) => Ok(
                            before.push(
                                WrittenOverrideView {
                                    key: e.key,
                                    at: e.at as usize,
                                    class,
                                    env: row.env,
                                },
                            ),
                        ),
                    },
                }
            },
        }
    }
}

/// The core count that an entry sets for static leases.
pub open spec fn static_in(e: TomlEntry) -> Result<(StaticDefault, usize), Refused> {
    if number_of(e.value, u32::MAX as nat) is Some {
        let cores = number_of(e.value, u32::MAX as nat)->0;
        Ok((StaticDefault::Cores(cores as u32), e.at as usize))
    } else if e.value == Toml::Text("fair"@) {
        Ok((StaticDefault::Fair, e.at as usize))
    } else {
        Err(wrong_value(e, "\"fair\" or a core count"@))
    }
}

/// What the defaults say where they are written as an array: the core count for static
/// leases. What stands behind it is not looked at.
pub open spec fn read_default_items(key: Seq<char>, items: Seq<TomlItem>) -> Result<
    Option<(StaticDefault, usize)>,
    Refused,
> {
    if items.len() == 0 {
        Ok(None)
    } else {
        match static_in(item_entry(key, items[0])) {
            Ok(d) => Ok(Some(d)),
            Err(r) => Err(r),
        }
    }
}

/// What the first `n` entries of the `defaults` table say.
pub open spec fn read_defaults(entries: Seq<TomlEntry>, n: nat) -> Result<
    Option<(StaticDefault, usize)>,
    Refused,
>
    decreases n,
{
    if n == 0 {
        Ok(None)
    } else {
        match read_defaults(entries, (n - 1) as nat) {
            Err(e) => Err(e),
            Ok(_) => {
                let e = entries[n - 1];
                if e.key == "static"@ {
                    match static_in(e) {
                        Ok(d) => Ok(Some(d)),
                        Err(r) => Err(r),
                    }
                } else {
                    Err(unknown_field(e, "`static`"@))
                }
            },
        }
    }
}

/// What the defaults say, written as a table or as an array.
pub open spec fn defaults_in(e: TomlEntry) -> Result<Option<(StaticDefault, usize)>, Refused> {
    match e.value {
        Toml::Table(inner) => read_defaults(inner, inner.len()),
        Toml::Array(items) => read_default_items(e.key, items),
        _ => Err(wrong_value(e, "a table"@)),
    }
}

/// The file with one more entry of its top table taken in.
pub open spec fn read_entry(before: WrittenView, e: TomlEntry) -> Result<WrittenView, Refused> {
    if e.key == "pool_size"@ {
        match number_of(e.value, u32::MAX as nat) {
            Some(n) => Ok(WrittenView { pool_size: Some((n as u32, e.at as usize)), ..before }),
            None => Err(wrong_value(e, "a number"@)),
        }
    } else if e.key == "max_concurrent"@ {
        match number_of(e.value, u32::MAX as nat) {
            Some(n) => Ok(
                WrittenView { max_concurrent: Some((n as u32, e.at as usize)), ..before },
            ),
            None => Err(wrong_value(e, "a number"@)),
        }
    } else if e.key == "drain_deadline_ms"@ {
        match number_of(e.value, u64::MAX as nat) {
            Some(n) => Ok(
                WrittenView { drain_deadline_ms: Some((n as u64, e.at as usize)), ..before },
            ),
            None => Err(wrong_value(e, "a number"@)),
        }
    } else if e.key == "defaults"@ {
        match defaults_in(e) {
            Ok(static_default) => Ok(WrittenView { static_default, ..before }),
            Err(r) => Err(r),
        }
    } else if e.key == "overrides"@ {
        match e.value {
            Toml::Table(inner) => match read_overrides(inner, inner.len()) {
                Ok(overrides) => Ok(WrittenView { overrides, ..before }),
                Err(r) => Err(r),
            },
            _ => Err(wrong_value(e, "a table"@)),
        }
    } else {
        Err(unknown_field(e, known_fields()))
    }
}

/// The keys that the file may hold.
pub open spec fn known_fields() -> Seq<char> {
    "one of `pool_size`, `max_concurrent`, `drain_deadline_ms`, `defaults`, `overrides`"@
}

/// What the first `n` entries of the file say. The first entry that is not
/// understood refuses the file.
pub open spec fn read_file(entries: Seq<TomlEntry>, n: nat) -> Result<WrittenView, Refused>
    decreases n,
{
    if n == 0 {
        Ok(
            WrittenView {
                pool_size: None,
                max_concurrent: None,
                drain_deadline_ms: None,
                static_default: None,
                overrides: Seq::empty(),
            },
        )
    } else {
        match read_file(entries, (n - 1) as nat) {
            Err(e) => Err(e),
            Ok(before) => read_entry(before, entries[n - 1]),
        }
    }
}

fn written_env(table: &toml::de::DeValue<'_>) -> (r: Result<Vec<WrittenEnv>, Refusal>)
    requires
        toml_value(*table) is Table,
    ensures
        ({
            let entries = toml_value(*table)->Table_0;
            match r {
                Ok(env) => read_env(entries, entries.len()) == Ok::<_, Refused>(env_views(env@)),
                Err(e) => read_env(entries, entries.len()) == Err::<Seq<WrittenEnvView>, _>(e@),
            }
        }),
{
    let ghost entries = toml_value(*table)->Table_0;
    let mut env: Vec<WrittenEnv> = Vec::new();
    let len = match table_len(table) {
        Some(n) => n,
        None => 0,
    };
    let mut i: usize = 0;
    assert(env_views(env@) =~= Seq::empty());
    while i < len
        invariant
            i <= len,
            len == entries.len(),
            toml_value(*table) == Toml::Table(entries),
            read_env(entries, i as nat) == Ok::<_, Refused>(env_views(env@)),
        decreases len - i,
    {
        let ghost before = env_views(env@);
        let (key, _, at, value) = table_entry(table, i);
        match text_value(value) {
            Some(text) => {
                env.push(WrittenEnv { name: key, value: text, at });
                assert(env_views(env@) =~= before.push(
                    WrittenEnvView { name: key@, value: text@, at },
                ));
            },
            None => {
                let e = refuse_value(key.as_str(), at, "a string");
                proof {
                    assert(read_env(entries, i as nat + 1) == Err::<Seq<WrittenEnvView>, _>(e@));
                    lemma_env_fails(entries, i as nat + 1, entries.len());
                }
                return Err(e);
            },
        }
        i = i + 1;
    }
    Ok(env)
}

proof fn lemma_env_fails(entries: Seq<TomlEntry>, k: nat, n: nat)
    requires
        k <= n,
        read_env(entries, k) is Err,
    ensures
        read_env(entries, n) == read_env(entries, k),
    decreases n - k,
{
    if k < n {
        lemma_env_fails(entries, k, (n - 1) as nat);
    }
}

proof fn lemma_row_fails(entries: Seq<TomlEntry>, k: nat, n: nat)
    requires
        k <= n,
        read_row(entries, k) is Err,
    ensures
        read_row(entries, n) == read_row(entries, k),
    decreases n - k,
{
    if k < n {
        lemma_row_fails(entries, k, (n - 1) as nat);
    }
}

proof fn lemma_overrides_fail(entries: Seq<TomlEntry>, k: nat, n: nat)
    requires
        k <= n,
        read_overrides(entries, k) is Err,
    ensures
        read_overrides(entries, n) == read_overrides(entries, k),
    decreases n - k,
{
    if k < n {
        lemma_overrides_fail(entries, k, (n - 1) as nat);
    }
}

proof fn lemma_defaults_fail(entries: Seq<TomlEntry>, k: nat, n: nat)
    requires
        k <= n,
        read_defaults(entries, k) is Err,
    ensures
        read_defaults(entries, n) == read_defaults(entries, k),
    decreases n - k,
{
    if k < n {
        lemma_defaults_fail(entries, k, (n - 1) as nat);
    }
}

proof fn lemma_file_fails(entries: Seq<TomlEntry>, k: nat, n: nat)
    requires
        k <= n,
        read_file(entries, k) is Err,
    ensures
        read_file(entries, n) == read_file(entries, k),
    decreases n - k,
{
    if k < n {
        lemma_file_fails(entries, k, (n - 1) as nat);
    }
}

fn written_class(key: &str, at: usize, value: &toml::de::DeValue<'_>) -> (r: Result<Class, Refusal>)
    ensures
        forall|e: TomlEntry|
            e.key == key@ && e.at == at && e.value == toml_value(*value) ==> match r {
                Ok(class) => #[trigger] class_in(e) == Ok::<_, Refused>(class),
                Err(x) => class_in(e) == Err::<Class, _>(x@),
            },
{
    match text_value(value) {
        Some(name) => match Class::parse(name.as_str()) {
            Ok(class) => Ok(class),
            Err(reason) => Err(Refusal { reason, at: Some(at) }),
        },
        None => Err(refuse_value(key, at, "a class name")),
    }
}

fn written_variables(key: &str, at: usize, value: &toml::de::DeValue<'_>) -> (r: Result<
    Vec<WrittenEnv>,
    Refusal,
>)
    ensures
        forall|e: TomlEntry|
            e.key == key@ && e.at == at && e.value == toml_value(*value) ==> match r {
                Ok(env) => #[trigger] env_in(e) == Ok::<_, Refused>(env_views(env@)),
                Err(x) => env_in(e) == Err::<Seq<WrittenEnvView>, _>(x@),
            },
{
    match table_len(value) {
        Some(_) => written_env(value),
        None => Err(refuse_value(key, at, "a table")),
    }
}

fn written_static(key: &str, at: usize, value: &toml::de::DeValue<'_>) -> (r: Result<
    (StaticDefault, usize),
    Refusal,
>)
    ensures
        forall|e: TomlEntry|
            e.key == key@ && e.at == at && e.value == toml_value(*value) ==> match r {
                Ok(d) => #[trigger] static_in(e) == Ok::<_, Refused>(d),
                Err(x) => static_in(e) == Err::<(StaticDefault, usize), _>(x@),
            },
{
    match read_number(value, 0xffff_ffff) {
        Some(n) => Ok((StaticDefault::Cores(n as u32), at)),
        None => {
            let fair = match text_value(value) {
                Some(word) => same(word.as_str(), "fair"),
                None => false,
            };
            if fair {
                Ok((StaticDefault::Fair, at))
            } else {
                Err(refuse_value(key, at, "\"fair\" or a core count"))
            }
        },
    }
}

fn written_row_items(key: &str, array: &toml::de::DeValue<'_>) -> (r: Result<
    (Option<Class>, Vec<WrittenEnv>),
    Refusal,
>)
    requires
        toml_value(*array) is Array,
    ensures
        ({
            let items = toml_value(*array)->Array_0;
            match r {
                Ok((class, env)) => read_row_items(key@, items) == Ok::<_, Refused>(
                    RowView { class, env: env_views(env@) },
                ),
                Err(e) => read_row_items(key@, items) == Err::<RowView, _>(e@),
            }
        }),
{
    let ghost items = toml_value(*array)->Array_0;
    let none: Vec<WrittenEnv> = Vec::new();
    assert(env_views(none@) =~= Seq::empty());
    let len = match array_len(array) {
        Some(n) => n,
        None => 0,
    };
    if len == 0 {
        return Ok((None, none));
    }
    let (at, value) = array_item(array, 0);
    let ghost first = item_entry(key@, items[0]);
    let class = match written_class(key, at, value) {
        Ok(class) => class,
        Err(e) => {
            assert(class_in(first) == Err::<Class, _>(e@));
            return Err(e);
        },
    };
    assert(class_in(first) == Ok::<_, Refused>(class));
    if len == 1 {
        return Ok((Some(class), none));
    }
    let (at, value) = array_item(array, 1);
    let ghost second = item_entry(key@, items[1]);
    match written_variables(key, at, value) {
        Ok(env) => {
            assert(env_in(second) == Ok::<_, Refused>(env_views(env@)));
            Ok((Some(class), env))
        },
        Err(e) => {
            assert(env_in(second) == Err::<Seq<WrittenEnvView>, _>(e@));
            Err(e)
        },
    }
}

fn written_default_items(key: &str, array: &toml::de::DeValue<'_>) -> (r: Result<
    Option<(StaticDefault, usize)>,
    Refusal,
>)
    requires
        toml_value(*array) is Array,
    ensures
        ({
            let items = toml_value(*array)->Array_0;
            match r {
                Ok(d) => read_default_items(key@, items) == Ok::<_, Refused>(d),
                Err(e) => read_default_items(key@, items) == Err::<
                    Option<(StaticDefault, usize)>,
                    _,
                >(e@),
            }
        }),
{
    let len = match array_len(array) {
        Some(n) => n,
        None => 0,
    };
    if len == 0 {
        return Ok(None);
    }
    let (at, value) = array_item(array, 0);
    let ghost first = item_entry(key@, toml_value(*array)->Array_0[0]);
    match written_static(key, at, value) {
        Ok(d) => {
            assert(static_in(first) == Ok::<_, Refused>(d));
            Ok(Some(d))
        },
        Err(e) => {
            assert(static_in(first) == Err::<(StaticDefault, usize), _>(e@));
            Err(e)
        },
    }
}

fn written_row(table: &toml::de::DeValue<'_>) -> (r: Result<
    (Option<Class>, Vec<WrittenEnv>),
    Refusal,
>)
    requires
        toml_value(*table) is Table,
    ensures
        ({
            let entries = toml_value(*table)->Table_0;
            match r {
                Ok((class, env)) => read_row(entries, entries.len()) == Ok::<_, Refused>(
                    RowView { class, env: env_views(env@) },
                ),
                Err(e) => read_row(entries, entries.len()) == Err::<RowView, _>(e@),
            }
        }),
{
    let ghost entries = toml_value(*table)->Table_0;
    let mut class: Option<Class> = None;
    let mut env: Vec<WrittenEnv> = Vec::new();
    let len = match table_len(table) {
        Some(n) => n,
        None => 0,
    };
    let mut i: usize = 0;
    assert(env_views(env@) =~= Seq::empty());
    while i < len
        invariant
            i <= len,
            len == entries.len(),
            toml_value(*table) == Toml::Table(entries),
            read_row(entries, i as nat) == Ok::<_, Refused>(
                RowView { class, env: env_views(env@) },
            ),
        decreases len - i,
    {
        let (key, key_at, at, value) = table_entry(table, i);
        let ghost entry = entries[i as int];
        let fault: Option<Refusal> = if same(key.as_str(), "class") {
            match written_class(key.as_str(), at, value) {
                Ok(c) => {
                    assert(class_in(entry) == Ok::<_, Refused>(c));
                    class = Some(c);
                    None
                },
                Err(e) => {
                    assert(class_in(entry) == Err::<Class, _>(e@));
                    Some(e)
                },
            }
        } else if same(key.as_str(), "env") {
            match written_variables(key.as_str(), at, value) {
                Ok(e) => {
                    assert(env_in(entry) == Ok::<_, Refused>(env_views(e@)));
                    env = e;
                    None
                },
                Err(e) => {
                    assert(env_in(entry) == Err::<Seq<WrittenEnvView>, _>(e@));
                    Some(e)
                },
            }
        } else {
            Some(refuse_field(key.as_str(), key_at, "`class` or `env`"))
        };
        match fault {
            Some(e) => {
                proof {
                    assert(read_row(entries, i as nat + 1) == Err::<RowView, _>(e@));
                    lemma_row_fails(entries, i as nat + 1, entries.len());
                }
                return Err(e);
            },
            None => {},
        }
        i = i + 1;
    }
    Ok((class, env))
}

/// The views of written rows.
pub open spec fn row_views(v: Seq<WrittenOverride>) -> Seq<WrittenOverrideView> {
    Seq::new(v.len(), |i: int| v[i]@)
}

fn written_overrides(table: &toml::de::DeValue<'_>) -> (r: Result<Vec<WrittenOverride>, Refusal>)
    requires
        toml_value(*table) is Table,
    ensures
        ({
            let entries = toml_value(*table)->Table_0;
            match r {
                Ok(rows) => read_overrides(entries, entries.len()) == Ok::<_, Refused>(
                    row_views(rows@),
                ),
                Err(e) => read_overrides(entries, entries.len()) == Err::<
                    Seq<WrittenOverrideView>,
                    _,
                >(e@),
            }
        }),
{
    let ghost entries = toml_value(*table)->Table_0;
    let mut rows: Vec<WrittenOverride> = Vec::new();
    let len = match table_len(table) {
        Some(n) => n,
        None => 0,
    };
    let mut i: usize = 0;
    assert(row_views(rows@) =~= Seq::empty());
    while i < len
        invariant
            i <= len,
            len == entries.len(),
            toml_value(*table) == Toml::Table(entries),
            read_overrides(entries, i as nat) == Ok::<_, Refused>(row_views(rows@)),
        decreases len - i,
    {
        let ghost before = row_views(rows@);
        let (key, _, at, value) = table_entry(table, i);
        let ghost entry = entries[i as int];
        let found = if table_len(value).is_some() {
            written_row(value)
        } else if array_len(value).is_some() {
            written_row_items(key.as_str(), value)
        } else {
            Err(refuse_value(key.as_str(), at, "a table"))
        };
        assert(match found {
            Ok((class, env)) => row_in(entry) == Ok::<_, Refused>(
                RowView { class, env: env_views(env@) },
            ),
            Err(e) => row_in(entry) == Err::<RowView, _>(e@),
        });
        let fault: Option<Refusal> = match found {
            Ok((Some(class), env)) => {
                let row = WrittenOverride { key, at, class, env };
                let ghost seen = row@;
                rows.push(row);
                assert(row_views(rows@) =~= before.push(seen));
                None
            },
            Ok((None, _)) => Some(
                Refusal { reason: copy("missing field `class`"), at: Some(at) },
            ),
            Err(e) => Some(e),
        };
        match fault {
            Some(e) => {
                proof {
                    assert(read_overrides(entries, i as nat + 1) == Err::<
                        Seq<WrittenOverrideView>,
                        _,
                    >(e@));
                    lemma_overrides_fail(entries, i as nat + 1, entries.len());
                }
                return Err(e);
            },
            None => {},
        }
        i = i + 1;
    }
    Ok(rows)
}

fn written_defaults(table: &toml::de::DeValue<'_>) -> (r: Result<
    Option<(StaticDefault, usize)>,
    Refusal,
>)
    requires
        toml_value(*table) is Table,
    ensures
        ({
            let entries = toml_value(*table)->Table_0;
            match r {
                Ok(d) => read_defaults(entries, entries.len()) == Ok::<_, Refused>(d),
                Err(e) => read_defaults(entries, entries.len()) == Err::<
                    Option<(StaticDefault, usize)>,
                    _,
                >(e@),
            }
        }),
{
    let ghost entries = toml_value(*table)->Table_0;
    let mut found: Option<(StaticDefault, usize)> = None;
    let len = match table_len(table) {
        Some(n) => n,
        None => 0,
    };
    let mut i: usize = 0;
    while i < len
        invariant
            i <= len,
            len == entries.len(),
            toml_value(*table) == Toml::Table(entries),
            read_defaults(entries, i as nat) == Ok::<_, Refused>(found),
        decreases len - i,
    {
        let (key, key_at, at, value) = table_entry(table, i);
        let ghost entry = entries[i as int];
        let fault: Option<Refusal> = if same(key.as_str(), "static") {
            match written_static(key.as_str(), at, value) {
                Ok(d) => {
                    assert(static_in(entry) == Ok::<_, Refused>(d));
                    found = Some(d);
                    None
                },
                Err(e) => {
                    assert(static_in(entry) == Err::<(StaticDefault, usize), _>(e@));
                    Some(e)
                },
            }
        } else {
            Some(refuse_field(key.as_str(), key_at, "`static`"))
        };
        match fault {
            Some(e) => {
                proof {
                    assert(read_defaults(entries, i as nat + 1) == Err::<
                        Option<(StaticDefault, usize)>,
                        _,
                    >(e@));
                    lemma_defaults_fail(entries, i as nat + 1, entries.len());
                }
                return Err(e);
            },
            None => {},
        }
        i = i + 1;
    }
    Ok(found)
}

/// What a document's table writes, or why it is refused.
fn written_file(table: &toml::de::DeValue<'_>) -> (r: Result<Written, Refusal>)
    requires
        toml_value(*table) is Table,
    ensures
        ({
            let entries = toml_value(*table)->Table_0;
            match r {
                Ok(w) => read_file(entries, entries.len()) == Ok::<_, Refused>(w@),
                Err(e) => read_file(entries, entries.len()) == Err::<WrittenView, _>(e@),
            }
        }),
{
    let ghost entries = toml_value(*table)->Table_0;
    let mut w = Written {
        pool_size: None,
        max_concurrent: None,
        drain_deadline_ms: None,
        static_default: None,
        overrides: Vec::new(),
    };
    let len = match table_len(table) {
        Some(n) => n,
        None => 0,
    };
    let mut i: usize = 0;
    assert(w@.overrides =~= Seq::empty());
    while i < len
        invariant
            i <= len,
            len == entries.len(),
            toml_value(*table) == Toml::Table(entries),
            read_file(entries, i as nat) == Ok::<_, Refused>(w@),
        decreases len - i,
    {
        let ghost before = w@;
        let (key, key_at, at, value) = table_entry(table, i);
        let ghost entry = entries[i as int];
        let fault: Option<Refusal> = if same(key.as_str(), "pool_size") {
            match read_number(value, 0xffff_ffff) {
                Some(n) => {
                    w.pool_size = Some((n as u32, at));
                    None
                },
                None => Some(refuse_value(key.as_str(), at, "a number")),
            }
        } else if same(key.as_str(), "max_concurrent") {
            match read_number(value, 0xffff_ffff) {
                Some(n) => {
                    w.max_concurrent = Some((n as u32, at));
                    None
                },
                None => Some(refuse_value(key.as_str(), at, "a number")),
            }
        } else if same(key.as_str(), "drain_deadline_ms") {
            match read_number(value, 0xffff_ffff_ffff_ffff) {
                Some(n) => {
                    w.drain_deadline_ms = Some((n, at));
                    None
                },
                None => Some(refuse_value(key.as_str(), at, "a number")),
            }
        } else if same(key.as_str(), "defaults") {
            let found = if table_len(value).is_some() {
                written_defaults(value)
            } else if array_len(value).is_some() {
                written_default_items(key.as_str(), value)
            } else {
                Err(refuse_value(key.as_str(), at, "a table"))
            };
            assert(match found {
                Ok(d) => defaults_in(entry) == Ok::<_, Refused>(d),
                Err(e) => defaults_in(entry) == Err::<Option<(StaticDefault, usize)>, _>(e@),
            });
            match found {
                Ok(d) => {
                    w.static_default = d;
                    None
                },
                Err(e) => Some(e),
            }
        } else if same(key.as_str(), "overrides") {
            match table_len(value) {
                Some(_) => match written_overrides(value) {
                    Ok(rows) => {
                        w.overrides = rows;
                        assert(w@.overrides =~= row_views(rows@));
                        None
                    },
                    Err(e) => Some(e),
                },
                None => Some(refuse_value(key.as_str(), at, "a table")),
            }
        } else {
            Some(
                refuse_field(
                    key.as_str(),
                    key_at,
                    "one of `pool_size`, `max_concurrent`, `drain_deadline_ms`, `defaults`, `overrides`",
                ),
            )
        };
        match fault {
            Some(e) => {
                proof {
                    assert(read_file(entries, i as nat + 1) == Err::<WrittenView, _>(e@));
                    lemma_file_fails(entries, i as nat + 1, entries.len());
                }
                return Err(e);
            },
            None => {
                assert(w@ =~= read_entry(before, entry)->Ok_0);
            },
        }
        i = i + 1;
    }
    Ok(w)
}

/// Where a value was written, when it was.
pub open spec fn place<T>(v: Option<(T, usize)>) -> Option<usize> {
    match v {
        Some((_, at)) => Some(at),
        None => None,
    }
}

/// What was written, or the default.
pub open spec fn given<T>(v: Option<(T, usize)>, default: T) -> T {
    match v {
        Some((value, _)) => value,
        None => default,
    }
}

/// What is wrong with the first `n` variables of a row.
pub open spec fn env_fault(row: WrittenOverrideView, n: nat) -> Option<Refused>
    decreases n,
{
    if n == 0 {
        None
    } else if env_fault(row, (n - 1) as nat) is Some {
        env_fault(row, (n - 1) as nat)
    } else {
        let e = row.env[n - 1];
        match placeholder_fault(e.value) {
            Some(reason) => Some(
                Refused {
                    reason: "overrides."@ + row.key + ".env."@ + e.name + ": "@ + reason,
                    at: Some(e.at),
                },
            ),
            None => None,
        }
    }
}

/// Whether a row before place `k` is for the same tool as the one there.
pub open spec fn tool_taken(rows: Seq<WrittenOverrideView>, k: int) -> bool {
    exists|j: int|
        0 <= j < k && basename_of((#[trigger] rows[j]).key) == basename_of(rows[k].key)
}

/// What is wrong with the first `n` rows.
pub open spec fn rows_fault(rows: Seq<WrittenOverrideView>, n: nat) -> Option<Refused>
    decreases n,
{
    if n == 0 {
        None
    } else if rows_fault(rows, (n - 1) as nat) is Some {
        rows_fault(rows, (n - 1) as nat)
    } else {
        let row = rows[n - 1];
        if tool_taken(rows, n - 1) {
            Some(
                Refused {
                    reason: "two overrides match the tool "@ + quoted_text(basename_of(row.key))
                        + "; keys are matched on the basename, so only one of them can have the row"@,
                    at: Some(row.at),
                },
            )
        } else {
            env_fault(row, row.env.len())
        }
    }
}

/// What is wrong with a file whose pool size is `pool`: the first value outside
/// its range.
pub open spec fn fault(w: WrittenView, pool: u32) -> Option<Refused> {
    if !(1 <= pool <= MAX_POOL_SIZE) {
        Some(
            Refused {
                reason: "pool_size must be between 1 and 4096, got "@ + decimal_of(pool as nat),
                at: place(w.pool_size),
            },
        )
    } else if given(w.max_concurrent, DEFAULT_MAX_CONCURRENT) == 0 {
        Some(
            Refused {
                reason: "max_concurrent must be at least 1, got 0"@,
                at: place(w.max_concurrent),
            },
        )
    } else if !(MIN_DRAIN_DEADLINE_MS <= given(w.drain_deadline_ms, DEFAULT_DRAIN_DEADLINE_MS)
        <= MAX_DRAIN_DEADLINE_MS) {
        Some(
            Refused {
                reason: "drain_deadline_ms must be between 100 and 60000, got "@ + decimal_of(
                    given(w.drain_deadline_ms, DEFAULT_DRAIN_DEADLINE_MS) as nat,
                ),
                at: place(w.drain_deadline_ms),
            },
        )
    } else if given(w.static_default, StaticDefault::Fair) == StaticDefault::Cores(0) {
        Some(
            Refused {
                reason: "defaults.static must be \"fair\" or at least 1, got 0"@,
                at: place(w.static_default),
            },
        )
    } else {
        rows_fault(w.overrides, w.overrides.len())
    }
}

/// The variables that a written row sets.
pub open spec fn written_pairs(env: Seq<WrittenEnvView>) -> Seq<(Seq<char>, Seq<char>)> {
    Seq::new(env.len(), |i: int| (env[i].name, env[i].value))
}

/// The configuration that a file writes, with `pool` tokens.
pub open spec fn resolved(w: WrittenView, pool: u32) -> ConfigView {
    ConfigView {
        pool_size: pool,
        max_concurrent: given(w.max_concurrent, DEFAULT_MAX_CONCURRENT),
        drain_deadline_ms: given(w.drain_deadline_ms, DEFAULT_DRAIN_DEADLINE_MS),
        static_default: given(w.static_default, StaticDefault::Fair),
        overrides: Seq::new(
            w.overrides.len(),
            |i: int|
                OverrideView {
                    key: w.overrides[i].key,
                    class: w.overrides[i].class,
                    env: written_pairs(w.overrides[i].env),
                },
        ),
    }
}

/// A refusal as the user reads it.
pub open spec fn refusal_text(path: Seq<char>, bytes: Seq<u8>, r: Refused) -> Seq<char> {
    located(path, bytes, r.at) + ": "@ + r.reason
}

/// The configuration that a written file gives on a machine of `cores` logical
/// cores, where that is known; or why it gives none.
pub open spec fn configured(
    w: WrittenView,
    path: Seq<char>,
    bytes: Seq<u8>,
    cores: Result<u32, Seq<char>>,
) -> Result<ConfigView, Seq<char>> {
    let pool = match w.pool_size {
        Some(p) => Ok(p.0),
        None => cores,
    };
    match pool {
        Err(e) => Err(
            "cannot read the machine's logical core count ("@ + e
                + "); set pool_size in the config file"@,
        ),
        Ok(pool) => match fault(w, pool) {
            Some(r) => Err(refusal_text(path, bytes, r)),
            None => Ok(resolved(w, pool)),
        },
    }
}

/// The configuration that a text gives, by what the document in it holds.
pub open spec fn config_of(
    document: Result<Seq<TomlEntry>, Seq<char>>,
    path: Seq<char>,
    bytes: Seq<u8>,
    cores: Result<u32, Seq<char>>,
) -> Result<ConfigView, Seq<char>> {
    match document {
        Err(e) => Err(path + ": "@ + e),
        Ok(entries) => match read_file(entries, entries.len()) {
            Err(r) => Err(refusal_text(path, bytes, r)),
            Ok(w) => configured(w, path, bytes, cores),
        },
    }
}

/// A file that writes nothing.
pub open spec fn unwritten() -> WrittenView {
    WrittenView {
        pool_size: None,
        max_concurrent: None,
        drain_deadline_ms: None,
        static_default: None,
        overrides: Seq::empty(),
    }
}

/// The core count, or the text of why it is not known.
pub open spec fn cores_view(cores: Result<u32, String>) -> Result<u32, Seq<char>> {
    match cores {
        Ok(n) => Ok(n),
        Err(e) => Err(e@),
    }
}

/// Whether an answer is the one that `want` states.
pub open spec fn answers(
    r: Result<Config, BusybeeError>,
    want: Result<ConfigView, Seq<char>>,
) -> bool {
    match r {
        Ok(c) => want == Ok::<_, Seq<char>>(c@),
        Err(e) => e is Other && want == Err::<ConfigView, _>(error_text(e)),
    }
}

fn check_env(row: &WrittenOverride) -> (r: Result<(), Refusal>)
    ensures
        match r {
            Ok(_) => env_fault(row@, row@.env.len()) is None,
            Err(e) => env_fault(row@, row@.env.len()) == Some(e@),
        },
{
    let mut i: usize = 0;
    while i < row.env.len()
        invariant
            i <= row.env@.len(),
            env_fault(row@, i as nat) is None,
        decreases row.env@.len() - i,
    {
        let e = &row.env[i];
        match check_placeholders(e.value.as_str()) {
            Ok(_) => {},
            Err(reason) => {
                let mut text = copy("overrides.");
                text.append(row.key.as_str());
                text.append(".env.");
                text.append(e.name.as_str());
                text.append(": ");
                text.append(reason.as_str());
                let refusal = Refusal { reason: text, at: Some(e.at) };
                proof {
                    assert(env_fault(row@, i as nat + 1) == Some(refusal@));
                    lemma_env_fault(row@, i as nat + 1, row@.env.len());
                }
                return Err(refusal);
            },
        }
        assert(env_fault(row@, i as nat + 1) is None);
        i = i + 1;
    }
    Ok(())
}

proof fn lemma_env_fault(row: WrittenOverrideView, k: nat, n: nat)
    requires
        k <= n,
        env_fault(row, k) is Some,
    ensures
        env_fault(row, n) == env_fault(row, k),
    decreases n - k,
{
    if k < n {
        lemma_env_fault(row, k, (n - 1) as nat);
    }
}

proof fn lemma_rows_fault(rows: Seq<WrittenOverrideView>, k: nat, n: nat)
    requires
        k <= n,
        rows_fault(rows, k) is Some,
    ensures
        rows_fault(rows, n) == rows_fault(rows, k),
    decreases n - k,
{
    if k < n {
        lemma_rows_fault(rows, k, (n - 1) as nat);
    }
}

fn check_rows(rows: &[WrittenOverride]) -> (r: Result<(), Refusal>)
    ensures
        match r {
            Ok(_) => rows_fault(row_views(rows@), rows@.len()) is None,
            Err(e) => rows_fault(row_views(rows@), rows@.len()) == Some(e@),
        },
{
    let ghost all = row_views(rows@);
    let mut i: usize = 0;
    while i < rows.len()
        invariant
            i <= rows@.len(),
            all == row_views(rows@),
            rows_fault(all, i as nat) is None,
        decreases rows@.len() - i,
    {
        let row = &rows[i];
        assert(all[i as int] == row@);
        let tool = basename(row.key.as_str());
        let mut j: usize = 0;
        while j < i
            invariant
                j <= i < rows@.len(),
                all == row_views(rows@),
                tool@ == basename_of(all[i as int].key),
                row@ == all[i as int],
                rows_fault(all, i as nat) is None,
                forall|k: int|
                    0 <= k < j ==> basename_of((#[trigger] all[k]).key) != tool@,
            decreases i - j,
        {
            assert(all[j as int].key == rows@[j as int].key@);
            if same(basename(rows[j].key.as_str()), tool) {
                let mut text = copy("two overrides match the tool ");
                text.append(quoted(tool).as_str());
                text.append(
                    "; keys are matched on the basename, so only one of them can have the row",
                );
                let refusal = Refusal { reason: text, at: Some(row.at) };
                proof {
                    assert(tool_taken(all, i as int));
                    assert(rows_fault(all, i as nat + 1) == Some(refusal@));
                    lemma_rows_fault(all, i as nat + 1, all.len());
                }
                return Err(refusal);
            }
            j = j + 1;
        }
        assert(!tool_taken(all, i as int));
        match check_env(row) {
            Ok(_) => {},
            Err(e) => {
                proof {
                    assert(rows_fault(all, i as nat + 1) == Some(e@));
                    lemma_rows_fault(all, i as nat + 1, all.len());
                }
                return Err(e);
            },
        }
        assert(rows_fault(all, i as nat + 1) is None);
        i = i + 1;
    }
    Ok(())
}

fn place_of<T: Copy>(v: &Option<(T, usize)>) -> (r: Option<usize>)
    ensures
        r == place(*v),
{
    match v {
        Some((_, at)) => Some(*at),
        None => None,
    }
}

/// The text of a refusal for a number outside its range.
fn out_of_range(text: &str, got: u64) -> (r: String)
    ensures
        r@ == text@ + decimal_of(got as nat),
{
    let mut out = copy(text);
    out.append(decimal(got).as_str());
    out
}

/// Takes the values out of a written row.
fn settled_env(env: &[WrittenEnv]) -> (r: Vec<(String, String)>)
    ensures
        pairs(r@) == written_pairs(env_views(env@)),
{
    let mut out: Vec<(String, String)> = Vec::new();
    let mut i: usize = 0;
    while i < env.len()
        invariant
            i <= env@.len(),
            out@.len() == i,
            forall|j: int|
                0 <= j < i ==> (#[trigger] out@[j]).0@ == env@[j].name@ && out@[j].1@
                    == env@[j].value@,
        decreases env@.len() - i,
    {
        out.push((env[i].name.clone(), env[i].value.clone()));
        i = i + 1;
    }
    assert(pairs(out@) =~= written_pairs(env_views(env@)));
    out
}

impl Config {
    /// Ranges and placeholders: the first value of a written file that the pool
    /// or a task could not act on.
    pub fn validate(w: &Written, pool_size: u32) -> (r: Result<(), Refusal>)
        ensures
            match r {
                Ok(_) => fault(w@, pool_size) is None,
                Err(e) => fault(w@, pool_size) == Some(e@),
            },
    {
        if pool_size < 1 || pool_size > MAX_POOL_SIZE {
            return Err(
                Refusal::at(
                    place_of(&w.pool_size),
                    out_of_range("pool_size must be between 1 and 4096, got ", pool_size as u64),
                ),
            );
        }
        if let Some((m, _)) = w.max_concurrent {
            if m == 0 {
                return Err(
                    Refusal::at(
                        place_of(&w.max_concurrent),
                        copy("max_concurrent must be at least 1, got 0"),
                    ),
                );
            }
        }
        if let Some((d, _)) = w.drain_deadline_ms {
            if d < MIN_DRAIN_DEADLINE_MS || d > MAX_DRAIN_DEADLINE_MS {
                return Err(
                    Refusal::at(
                        place_of(&w.drain_deadline_ms),
                        out_of_range("drain_deadline_ms must be between 100 and 60000, got ", d),
                    ),
                );
            }
        }
        if let Some((c, _)) = w.static_default {
            if c == StaticDefault::Cores(0) {
                return Err(
                    Refusal::at(
                        place_of(&w.static_default),
                        copy("defaults.static must be \"fair\" or at least 1, got 0"),
                    ),
                );
            }
        }
        assert(w@.overrides =~= row_views(w.overrides@));
        check_rows(w.overrides.as_slice())
    }

    /// The configuration that a written file gives. `path` and `text` are where
    /// it was read from, for the refusal to name; `cores` is the machine's core
    /// count, or why it is not known.
    pub fn from_written(
        w: Written,
        path: &str,
        text: &str,
        cores: &Result<u32, String>,
    ) -> (r: Result<Config, BusybeeError>)
        ensures
            answers(r, configured(w@, path@, text.spec_bytes(), cores_view(*cores))),
    {
        let pool_size = match w.pool_size {
            Some((n, _)) => n,
            None => match cores {
                Ok(n) => *n,
                Err(e) => {
                    let mut text = copy("cannot read the machine's logical core count (");
                    text.append(e.as_str());
                    text.append("); set pool_size in the config file");
                    return Err(BusybeeError::Other(text));
                },
            },
        };
        if let Err(e) = Config::validate(&w, pool_size) {
            return Err(refused(path, text, e));
        }
        let mut overrides: Vec<Override> = Vec::new();
        let mut i: usize = 0;
        while i < w.overrides.len()
            invariant
                i <= w.overrides@.len(),
                overrides@.len() == i,
                forall|j: int|
                    0 <= j < i ==> (#[trigger] overrides@[j])@ == resolved(
                        w@,
                        pool_size,
                    ).overrides[j],
            decreases w.overrides@.len() - i,
        {
            let row = &w.overrides[i];
            overrides.push(
                Override {
                    key: row.key.clone(),
                    class: row.class,
                    env: settled_env(row.env.as_slice()),
                },
            );
            i = i + 1;
        }
        let config = Config {
            pool_size,
            max_concurrent: match w.max_concurrent {
                Some((n, _)) => n,
                None => DEFAULT_MAX_CONCURRENT,
            },
            drain_deadline_ms: match w.drain_deadline_ms {
                Some((n, _)) => n,
                None => DEFAULT_DRAIN_DEADLINE_MS,
            },
            defaults: Defaults {
                static_default: match w.static_default {
                    Some((d, _)) => d,
                    None => StaticDefault::Fair,
                },
            },
            overrides,
        };
        assert(config@ =~= resolved(w@, pool_size));
        Ok(config)
    }

    /// Reads the text of a file. `path` is where it was read from, and `cores`
    /// the machine's core count, or why it is not known.
    pub fn parse(text: &str, path: &str, cores: &Result<u32, String>) -> (r: Result<
        Config,
        BusybeeError,
    >)
        ensures
            answers(
                r,
                config_of(toml_document(text@), path@, text.spec_bytes(), cores_view(*cores)),
            ),
    {
        match parse_document(text) {
            Ok(document) => match written_file(&document) {
                Ok(w) => Config::from_written(w, path, text, cores),
                Err(e) => Err(refused(path, text, e)),
            },
            Err(e) => {
                let mut text = copy(path);
                text.append(": ");
                text.append(e.as_str());
                Err(BusybeeError::Other(text))
            },
        }
    }

    /// The configuration of a machine without a file.
    pub fn defaults(cores: &Result<u32, String>) -> (r: Result<Config, BusybeeError>)
        ensures
            answers(r, configured(unwritten(), "<defaults>"@, "".spec_bytes(), cores_view(*cores))),
    {
        let w = Written {
            pool_size: None,
            max_concurrent: None,
            drain_deadline_ms: None,
            static_default: None,
            overrides: Vec::new(),
        };
        assert(w@ =~= unwritten());
        Config::from_written(w, "<defaults>", "", cores)
    }

    /// The scheduler's view of the configuration.
    pub fn params(&self) -> (r: Params)
        ensures
            r.pool_size == self.pool_size,
            r.max_concurrent == self.max_concurrent,
    {
        Params { pool_size: self.pool_size, max_concurrent: self.max_concurrent }
    }
}

/// A refusal as an error.
fn refused(path: &str, text: &str, e: Refusal) -> (r: BusybeeError)
    ensures
        r is Other,
        error_text(r) == refusal_text(path@, text.spec_bytes(), e@),
{
    let mut out = location(path, text, e.at);
    out.append(": ");
    out.append(e.reason.as_str());
    BusybeeError::Other(out)
}

/// Where the configuration file is: `BUSYBEE_CONFIG` names it outright and has to
/// be absolute; `XDG_CONFIG_HOME` and then `HOME` count only where they are.
pub open spec fn config_path(
    busybee_config: Option<Seq<char>>,
    xdg_config_home: Option<Seq<char>>,
    home: Option<Seq<char>>,
) -> Result<Seq<char>, Seq<char>> {
    if busybee_config is Some {
        let path = busybee_config->0;
        if absolute(path) {
            Ok(path)
        } else {
            Err("BUSYBEE_CONFIG must be an absolute path, got "@ + quoted_text(path))
        }
    } else if xdg_config_home is Some && absolute(xdg_config_home->0) {
        Ok(under(xdg_config_home->0, "busybee/config.toml"@))
    } else if home is Some && absolute(home->0) {
        Ok(under(home->0, ".config/busybee/config.toml"@))
    } else {
        Err(
            "cannot locate the busybee config file: BUSYBEE_CONFIG is unset and neither XDG_CONFIG_HOME nor HOME holds an absolute path"@,
        )
    }
}

/// Where the configuration file is, by what the environment holds.
pub fn path_from(
    busybee_config: Option<&str>,
    xdg_config_home: Option<&str>,
    home: Option<&str>,
) -> (r: Result<String, BusybeeError>)
    ensures
        ({
            let want = config_path(
                slice_view(busybee_config),
                slice_view(xdg_config_home),
                slice_view(home),
            );
            match r {
                Ok(path) => want == Ok::<_, Seq<char>>(path@),
                Err(e) => e is Other && want == Err::<Seq<char>, _>(error_text(e)),
            }
        }),
{
    if let Some(path) = busybee_config {
        if is_absolute(path) {
            return Ok(copy(path));
        }
        let mut text = copy("BUSYBEE_CONFIG must be an absolute path, got ");
        text.append(quoted(path).as_str());
        return Err(BusybeeError::Other(text));
    }
    if let Some(dir) = xdg_config_home {
        if is_absolute(dir) {
            return Ok(join_path(dir, "busybee/config.toml"));
        }
    }
    if let Some(dir) = home {
        if is_absolute(dir) {
            return Ok(join_path(dir, ".config/busybee/config.toml"));
        }
    }
    Err(
        BusybeeError::Other(
            copy(
                "cannot locate the busybee config file: BUSYBEE_CONFIG is unset and neither XDG_CONFIG_HOME nor HOME holds an absolute path",
            ),
        ),
    )
}

/// The rows that are not for `tool`.
pub open spec fn other_rows(rows: Seq<RuleView>, tool: Seq<char>) -> Seq<RuleView>
    decreases rows.len(),
{
    if rows.len() == 0 {
        Seq::empty()
    } else {
        let before = other_rows(rows.drop_last(), tool);
        if rows.last().tool == tool {
            before
        } else {
            before.push(rows.last())
        }
    }
}

/// The parallelism flags known for `tool`: those of its first row that has any.
pub open spec fn known_flags(rows: Seq<RuleView>, tool: Seq<char>) -> Seq<Seq<char>> {
    let i = first_such(rows, |r: RuleView| r.tool == tool && r.parallel_flags.len() > 0);
    if i < rows.len() {
        rows[i as int].parallel_flags
    } else {
        Seq::empty()
    }
}

/// The row that an override puts in the place of those for its tool. How a tool
/// spells parallelism is not something the file can say, so the flags stay.
pub open spec fn override_row(rows: Seq<RuleView>, over: OverrideView) -> RuleView {
    let tool = basename_of(over.key);
    RuleView {
        tool,
        requires: None,
        class: over.class,
        inject: if over.class == Class::Jobserver {
            Inject::Jobserver
        } else {
            Inject::Nothing
        },
        parallel_flags: known_flags(rows, tool),
        env_set: over.env,
    }
}

/// The table with the first `n` overrides layered onto it.
pub open spec fn overridden(
    rows: Seq<RuleView>,
    overrides: Seq<OverrideView>,
    n: nat,
) -> Seq<RuleView>
    decreases n,
{
    if n == 0 {
        rows
    } else {
        let before = overridden(rows, overrides, (n - 1) as nat);
        let over = overrides[n - 1];
        other_rows(before, basename_of(over.key)).push(override_row(before, over))
    }
}

/// The views of rows.
pub open spec fn rule_views(v: Seq<Rule>) -> Seq<RuleView> {
    Seq::new(v.len(), |i: int| v[i]@)
}

fn flags_of(rows: &[Rule], tool: &str) -> (r: Vec<String>)
    ensures
        texts(r@) == known_flags(rule_views(rows@), tool@),
{
    let ghost all = rule_views(rows@);
    let ghost p = |r: RuleView| r.tool == tool@ && r.parallel_flags.len() > 0;
    let mut i: usize = 0;
    while i < rows.len()
        invariant
            i <= rows@.len(),
            all == rule_views(rows@),
            p == (|r: RuleView| r.tool == tool@ && r.parallel_flags.len() > 0),
            forall|j: int| 0 <= j < i ==> !p(#[trigger] all[j]),
        decreases rows@.len() - i,
    {
        assert(all[i as int] == rows@[i as int]@);
        if same(rows[i].tool.as_str(), tool) && rows[i].parallel_flags.len() > 0 {
            proof {
                lemma_first_such_is(all, p, i as int);
            }
            return copies(rows[i].parallel_flags.as_slice());
        }
        i = i + 1;
    }
    proof {
        lemma_first_such_is(all, p, i as int);
    }
    let none: Vec<String> = Vec::new();
    assert(texts(none@) =~= Seq::empty());
    none
}

fn drop_tool(rows: Vec<Rule>, tool: &str) -> (r: Vec<Rule>)
    ensures
        rule_views(r@) == other_rows(rule_views(rows@), tool@),
{
    let ghost all = rule_views(rows@);
    let mut rest = rows;
    let mut out: Vec<Rule> = Vec::new();
    let ghost mut k: int = 0;
    assert(all.take(0) =~= Seq::empty());
    assert(all.skip(0) =~= all);
    assert(rule_views(out@) =~= Seq::empty());
    while rest.len() > 0
        invariant
            0 <= k <= all.len(),
            rest@.len() == all.len() - k,
            rule_views(rest@) == all.skip(k),
            rule_views(out@) == other_rows(all.take(k), tool@),
        decreases rest@.len(),
    {
        let ghost kept = rule_views(out@);
        let ghost was = rule_views(rest@);
        let row = rest.remove(0);
        let ghost seen = row@;
        proof {
            assert(seen == was[0]);
            assert(all.take(k + 1).drop_last() =~= all.take(k));
            assert(all.take(k + 1).last() == seen);
            assert forall|i: int| 0 <= i < rest@.len() implies #[trigger] rule_views(rest@)[i]
                == all.skip(k + 1)[i] by {
                assert(was[i + 1] == all[k + i + 1]);
            }
            assert(rule_views(rest@) =~= all.skip(k + 1));
        }
        if !same(row.tool.as_str(), tool) {
            out.push(row);
            assert(rule_views(out@) =~= kept.push(seen));
        }
        proof {
            k = k + 1;
        }
    }
    assert(all.take(k) =~= all);
    out
}

impl Config {
    /// Layers the overrides onto `table`: each replaces every row for its tool.
    pub fn apply_overrides(&self, table: &mut Table)
        ensures
            final(table)@ == overridden(old(table)@, self@.overrides, self@.overrides.len()),
    {
        let ghost start = table@;
        let mut i: usize = 0;
        let mut rows: Vec<Rule> = Vec::new();
        std::mem::swap(&mut rows, &mut table.rows);
        assert(rule_views(rows@) =~= start);
        while i < self.overrides.len()
            invariant
                i <= self.overrides@.len(),
                rule_views(rows@) == overridden(start, self@.overrides, i as nat),
            decreases self.overrides@.len() - i,
        {
            let over = &self.overrides[i];
            let ghost before = rule_views(rows@);
            assert(over@ == self@.overrides[i as int]);
            let tool = basename(over.key.as_str());
            let parallel_flags = flags_of(rows.as_slice(), tool);
            let row = Rule {
                tool: copy(tool),
                requires: None,
                class: over.class,
                inject: match over.class {
                    Class::Jobserver => Inject::Jobserver,
                    Class::Static | Class::Exclusive => Inject::Nothing,
                },
                parallel_flags,
                env_set: copy_pairs(over.env.as_slice()),
            };
            let ghost seen = row@;
            assert(seen =~= override_row(before, over@));
            rows = drop_tool(rows, tool);
            let ghost kept = rule_views(rows@);
            rows.push(row);
            assert(rule_views(rows@) =~= kept.push(seen));
            i = i + 1;
        }
        std::mem::swap(&mut rows, &mut table.rows);
        assert(table@ =~= rule_views(table.rows@));
    }
}

fn copy_pairs(v: &[(String, String)]) -> (r: Vec<(String, String)>)
    ensures
        pairs(r@) == pairs(v@),
{
    let mut out: Vec<(String, String)> = Vec::new();
    let mut i: usize = 0;
    while i < v.len()
        invariant
            i <= v@.len(),
            out@.len() == i,
            forall|j: int|
                0 <= j < i ==> (#[trigger] out@[j]).0@ == v@[j].0@ && out@[j].1@ == v@[j].1@,
        decreases v@.len() - i,
    {
        out.push((v[i].0.clone(), v[i].1.clone()));
        i = i + 1;
    }
    assert(pairs(out@) =~= pairs(v@));
    out
}

/// An accepted configuration is within its ranges, whatever file it came from:
/// the pool fits the fifo, at least one lease may run, the deadline is between its
/// bounds, a fixed core count is at least 1, and every placeholder in a row is one
/// that is substituted.
pub proof fn law_an_accepted_file_is_within_its_ranges(
    w: WrittenView,
    path: Seq<char>,
    bytes: Seq<u8>,
    cores: Result<u32, Seq<char>>,
)
    requires
        configured(w, path, bytes, cores) is Ok,
    ensures
        ({
            let c = configured(w, path, bytes, cores)->Ok_0;
            &&& 1 <= c.pool_size <= MAX_POOL_SIZE
            &&& c.max_concurrent >= 1
            &&& MIN_DRAIN_DEADLINE_MS <= c.drain_deadline_ms <= MAX_DRAIN_DEADLINE_MS
            &&& c.static_default != StaticDefault::Cores(0)
            &&& forall|i: int, j: int|
                0 <= i < c.overrides.len() && 0 <= j < c.overrides[i].env.len()
                    ==> placeholder_fault((#[trigger] c.overrides[i].env[j]).1) is None
            &&& distinct_tools(c.overrides)
        }),
{
    let c = configured(w, path, bytes, cores)->Ok_0;
    let n = w.overrides.len();
    assert forall|i: int, j: int|
        0 <= i < c.overrides.len() && 0 <= j < c.overrides[i].env.len() implies placeholder_fault(
        (#[trigger] c.overrides[i].env[j]).1,
    ) is None by {
        lemma_sound_rows(w.overrides, n, i);
        lemma_sound_env(w.overrides[i], w.overrides[i].env.len(), j);
    }
    assert forall|i: int, j: int| 0 <= i < j < c.overrides.len() implies basename_of(
        (#[trigger] c.overrides[i]).key,
    ) != basename_of((#[trigger] c.overrides[j]).key) by {
        lemma_sound_rows(w.overrides, n, j);
        assert(c.overrides[i].key == w.overrides[i].key);
        assert(c.overrides[j].key == w.overrides[j].key);
    }
}

proof fn lemma_sound_rows(rows: Seq<WrittenOverrideView>, n: nat, i: int)
    requires
        rows_fault(rows, n) is None,
        0 <= i < n <= rows.len(),
    ensures
        !tool_taken(rows, i),
        env_fault(rows[i], rows[i].env.len()) is None,
    decreases n,
{
    if i < n - 1 {
        lemma_sound_rows(rows, (n - 1) as nat, i);
    }
}

proof fn lemma_sound_env(row: WrittenOverrideView, n: nat, j: int)
    requires
        env_fault(row, n) is None,
        0 <= j < n <= row.env.len(),
    ensures
        placeholder_fault(row.env[j].value) is None,
    decreases n,
{
    if j < n - 1 {
        lemma_sound_env(row, (n - 1) as nat, j);
    }
}

/// A machine without a file runs on the defaults, with as many tokens as it has
/// cores, as long as the fifo can hold them.
pub proof fn law_no_file_is_the_defaults(path: Seq<char>, bytes: Seq<u8>, cores: u32)
    requires
        1 <= cores <= MAX_POOL_SIZE,
    ensures
        configured(unwritten(), path, bytes, Ok(cores)) == Ok::<_, Seq<char>>(
            ConfigView {
                pool_size: cores,
                max_concurrent: DEFAULT_MAX_CONCURRENT,
                drain_deadline_ms: DEFAULT_DRAIN_DEADLINE_MS,
                static_default: StaticDefault::Fair,
                overrides: Seq::empty(),
            },
        ),
{
    assert(resolved(unwritten(), cores).overrides =~= Seq::empty());
}

/// Whether one of the first `n` overrides is for `tool`.
pub open spec fn overrides_tool(overrides: Seq<OverrideView>, n: nat, tool: Seq<char>) -> bool {
    exists|i: int| 0 <= i < n && basename_of((#[trigger] overrides[i]).key) == tool
}

/// The rows that none of the first `n` overrides is for, in their order.
pub open spec fn untouched(
    rows: Seq<RuleView>,
    overrides: Seq<OverrideView>,
    n: nat,
) -> Seq<RuleView>
    decreases rows.len(),
{
    if rows.len() == 0 {
        Seq::empty()
    } else {
        let before = untouched(rows.drop_last(), overrides, n);
        if overrides_tool(overrides, n, rows.last().tool) {
            before
        } else {
            before.push(rows.last())
        }
    }
}

/// The rows that the first `n` overrides put in the place of those in `rows`.
pub open spec fn override_rows(
    rows: Seq<RuleView>,
    overrides: Seq<OverrideView>,
    n: nat,
) -> Seq<RuleView> {
    Seq::new(n, |i: int| override_row(rows, overrides[i]))
}

/// Whether no two overrides are for one tool.
pub open spec fn distinct_tools(overrides: Seq<OverrideView>) -> bool {
    forall|i: int, j: int|
        0 <= i < j < overrides.len() ==> basename_of((#[trigger] overrides[i]).key)
            != basename_of((#[trigger] overrides[j]).key)
}

/// An override replaces every row for its tool: the rows for other tools stay as they
/// were and in their order, behind them stands one row for each override, and layering
/// the overrides a second time changes nothing.
pub proof fn law_an_override_replaces_every_row_for_its_tool(
    rows: Seq<RuleView>,
    overrides: Seq<OverrideView>,
)
    requires
        distinct_tools(overrides),
    ensures
        ({
            let n = overrides.len();
            let out = overridden(rows, overrides, n);
            &&& out == untouched(rows, overrides, n) + override_rows(rows, overrides, n)
            &&& overridden(out, overrides, n) == out
        }),
{
    let n = overrides.len();
    let out = overridden(rows, overrides, n);
    lemma_overridden(rows, overrides, n);
    lemma_overridden(out, overrides, n);
    let kept = untouched(rows, overrides, n);
    let new = override_rows(rows, overrides, n);
    lemma_untouched_again(rows, overrides, n);
    assert forall|i: int| 0 <= i < new.len() implies overrides_tool(
        overrides,
        n,
        (#[trigger] new[i]).tool,
    ) by {
        assert(basename_of(overrides[i].key) == new[i].tool);
    }
    lemma_untouched_behind(kept, new, overrides, n);
    assert forall|i: int| 0 <= i < n implies #[trigger] override_row(out, overrides[i])
        == override_row(rows, overrides[i]) by {
        let tool = basename_of(overrides[i].key);
        lemma_untouched_tools(rows, overrides, n);
        assert forall|j: int| 0 <= j < kept.len() implies (#[trigger] kept[j]).tool != tool by {
            assert(overrides_tool(overrides, n, tool));
        }
        lemma_flags_behind(kept, new, i, tool);
    }
    assert(override_rows(out, overrides, n) =~= new);
}

proof fn lemma_flags_push(rows: Seq<RuleView>, r: RuleView, tool: Seq<char>)
    ensures
        known_flags(rows.push(r), tool) == if known_flags(rows, tool).len() > 0 {
            known_flags(rows, tool)
        } else if r.tool == tool {
            r.parallel_flags
        } else {
            Seq::empty()
        },
{
    let p = |r: RuleView| r.tool == tool && r.parallel_flags.len() > 0;
    let all = rows.push(r);
    let i = first_such(rows, p) as int;
    lemma_first_such(rows, p);
    assert forall|j: int| 0 <= j < i implies !p(#[trigger] all[j]) by {
        assert(all[j] == rows[j]);
    }
    if i < rows.len() {
        assert(all[i] == rows[i]);
        lemma_first_such_is(all, p, i);
    } else if p(r) {
        lemma_first_such_is(all, p, i);
    } else {
        assert forall|j: int| 0 <= j < all.len() implies !p(#[trigger] all[j]) by {
            if j < rows.len() {
                assert(all[j] == rows[j]);
            }
        }
        lemma_first_such_is(all, p, all.len() as int);
        if r.tool == tool {
            assert(r.parallel_flags =~= Seq::empty());
        }
    }
}

/// Rows for another tool that go change nothing about the flags known for this one.
proof fn lemma_flags_others(rows: Seq<RuleView>, gone: Seq<char>, tool: Seq<char>)
    requires
        gone != tool,
    ensures
        known_flags(other_rows(rows, gone), tool) == known_flags(rows, tool),
    decreases rows.len(),
{
    if rows.len() > 0 {
        let before = rows.drop_last();
        lemma_flags_others(before, gone, tool);
        assert(before.push(rows.last()) =~= rows);
        lemma_flags_push(before, rows.last(), tool);
        lemma_flags_push(other_rows(before, gone), rows.last(), tool);
        if rows.last().tool == gone && known_flags(before, tool).len() == 0 {
            assert(known_flags(before, tool) =~= Seq::empty());
        }
    }
}

proof fn lemma_flags_overridden(
    rows: Seq<RuleView>,
    overrides: Seq<OverrideView>,
    n: nat,
    tool: Seq<char>,
)
    requires
        n <= overrides.len(),
        !overrides_tool(overrides, n, tool),
    ensures
        known_flags(overridden(rows, overrides, n), tool) == known_flags(rows, tool),
    decreases n,
{
    if n > 0 {
        let k = (n - 1) as nat;
        let over = overrides[k as int];
        let before = overridden(rows, overrides, k);
        assert forall|i: int| 0 <= i < n implies basename_of((#[trigger] overrides[i]).key)
            != tool by {}
        lemma_flags_overridden(rows, overrides, k, tool);
        lemma_flags_others(before, basename_of(over.key), tool);
        let rest = other_rows(before, basename_of(over.key));
        lemma_flags_push(rest, override_row(before, over), tool);
        if known_flags(rest, tool).len() == 0 {
            assert(known_flags(rest, tool) =~= Seq::empty());
        }
    }
}

/// Behind rows for other tools, the flags known for a tool are those of the one row
/// that is for it.
proof fn lemma_flags_behind(kept: Seq<RuleView>, new: Seq<RuleView>, i: int, tool: Seq<char>)
    requires
        forall|j: int| 0 <= j < kept.len() ==> (#[trigger] kept[j]).tool != tool,
        forall|j: int| 0 <= j < new.len() && j != i ==> (#[trigger] new[j]).tool != tool,
        0 <= i < new.len(),
        new[i].tool == tool,
    ensures
        known_flags(kept + new, tool) == new[i].parallel_flags,
{
    let p = |r: RuleView| r.tool == tool && r.parallel_flags.len() > 0;
    let all = kept + new;
    let at = kept.len() + i;
    assert(all[at] == new[i]);
    assert forall|j: int| 0 <= j < all.len() && j != at implies !p(#[trigger] all[j]) by {
        if j < kept.len() {
            assert(all[j] == kept[j]);
        } else {
            assert(all[j] == new[j - kept.len()]);
        }
    }
    if p(new[i]) {
        lemma_first_such_is(all, p, at);
    } else {
        lemma_first_such_is(all, p, all.len() as int);
        assert(new[i].parallel_flags =~= Seq::empty());
    }
}

proof fn lemma_other_behind(a: Seq<RuleView>, b: Seq<RuleView>, tool: Seq<char>)
    requires
        forall|i: int| 0 <= i < b.len() ==> (#[trigger] b[i]).tool != tool,
    ensures
        other_rows(a + b, tool) == other_rows(a, tool) + b,
    decreases b.len(),
{
    if b.len() == 0 {
        assert(a + b =~= a);
        assert(other_rows(a, tool) + b =~= other_rows(a, tool));
    } else {
        let last = b[b.len() - 1];
        assert((a + b).drop_last() =~= a + b.drop_last());
        assert((a + b).last() == last);
        lemma_other_behind(a, b.drop_last(), tool);
        assert(other_rows(a, tool) + b =~= (other_rows(a, tool) + b.drop_last()).push(last));
    }
}

proof fn lemma_untouched_behind(
    a: Seq<RuleView>,
    b: Seq<RuleView>,
    overrides: Seq<OverrideView>,
    n: nat,
)
    requires
        forall|i: int| 0 <= i < b.len() ==> overrides_tool(overrides, n, (#[trigger] b[i]).tool),
    ensures
        untouched(a + b, overrides, n) == untouched(a, overrides, n),
    decreases b.len(),
{
    if b.len() == 0 {
        assert(a + b =~= a);
    } else {
        let last = b[b.len() - 1];
        assert(overrides_tool(overrides, n, last.tool));
        assert((a + b).drop_last() =~= a + b.drop_last());
        assert((a + b).last() == last);
        lemma_untouched_behind(a, b.drop_last(), overrides, n);
    }
}

/// The rows that stay are for other tools.
pub proof fn lemma_untouched_tools(rows: Seq<RuleView>, overrides: Seq<OverrideView>, n: nat)
    ensures
        forall|i: int|
            0 <= i < untouched(rows, overrides, n).len() ==> !overrides_tool(
                overrides,
                n,
                (#[trigger] untouched(rows, overrides, n)[i]).tool,
            ),
    decreases rows.len(),
{
    if rows.len() > 0 {
        lemma_untouched_tools(rows.drop_last(), overrides, n);
    }
}

proof fn lemma_untouched_again(rows: Seq<RuleView>, overrides: Seq<OverrideView>, n: nat)
    ensures
        untouched(untouched(rows, overrides, n), overrides, n) == untouched(rows, overrides, n),
    decreases rows.len(),
{
    if rows.len() > 0 {
        let before = untouched(rows.drop_last(), overrides, n);
        lemma_untouched_again(rows.drop_last(), overrides, n);
        assert(before.push(rows.last()).drop_last() =~= before);
    }
}

/// One more override takes out the rows for its tool.
proof fn lemma_untouched_next(rows: Seq<RuleView>, overrides: Seq<OverrideView>, n: nat)
    requires
        0 < n <= overrides.len(),
    ensures
        other_rows(
            untouched(rows, overrides, (n - 1) as nat),
            basename_of(overrides[n - 1].key),
        ) == untouched(rows, overrides, n),
    decreases rows.len(),
{
    if rows.len() > 0 {
        let k = (n - 1) as nat;
        let tool = basename_of(overrides[n - 1].key);
        let last = rows.last();
        let before = untouched(rows.drop_last(), overrides, k);
        lemma_untouched_next(rows.drop_last(), overrides, n);
        assert(before.push(last).drop_last() =~= before);
        assert(overrides_tool(overrides, n, last.tool) <==> overrides_tool(
            overrides,
            k,
            last.tool,
        ) || last.tool == tool) by {
            if overrides_tool(overrides, k, last.tool) {
                let i = choose|i: int|
                    0 <= i < k && basename_of((#[trigger] overrides[i]).key) == last.tool;
                assert(basename_of(overrides[i].key) == last.tool);
            }
            if last.tool == tool {
                assert(basename_of(overrides[n - 1].key) == last.tool);
            }
        }
    }
}

proof fn lemma_overridden(rows: Seq<RuleView>, overrides: Seq<OverrideView>, n: nat)
    requires
        n <= overrides.len(),
        distinct_tools(overrides),
    ensures
        overridden(rows, overrides, n) == untouched(rows, overrides, n) + override_rows(
            rows,
            overrides,
            n,
        ),
    decreases n,
{
    if n == 0 {
        lemma_all_untouched(rows, overrides);
        assert(rows + override_rows(rows, overrides, 0) =~= rows);
    } else {
        let k = (n - 1) as nat;
        let over = overrides[k as int];
        let tool = basename_of(over.key);
        let before = overridden(rows, overrides, k);
        let new = override_rows(rows, overrides, k);
        lemma_overridden(rows, overrides, k);
        assert forall|i: int| 0 <= i < new.len() implies (#[trigger] new[i]).tool != tool by {
            assert(basename_of(overrides[i].key) != basename_of(overrides[k as int].key));
        }
        lemma_other_behind(untouched(rows, overrides, k), new, tool);
        lemma_untouched_next(rows, overrides, n);
        assert(!overrides_tool(overrides, k, tool)) by {
            assert forall|i: int| 0 <= i < k implies basename_of((#[trigger] overrides[i]).key)
                != tool by {
                assert(basename_of(overrides[i].key) != basename_of(overrides[k as int].key));
            }
        }
        lemma_flags_overridden(rows, overrides, k, tool);
        assert(override_row(before, over) == override_row(rows, over));
        assert(overridden(rows, overrides, n) =~= untouched(rows, overrides, n) + override_rows(
            rows,
            overrides,
            n,
        ));
    }
}

proof fn lemma_all_untouched(rows: Seq<RuleView>, overrides: Seq<OverrideView>)
    ensures
        untouched(rows, overrides, 0) == rows,
    decreases rows.len(),
{
    if rows.len() > 0 {
        lemma_all_untouched(rows.drop_last(), overrides);
        assert(rows.drop_last().push(rows.last()) =~= rows);
    }
}

/// The flags of a tool that are watched for are those of its first row that has any.
pub proof fn law_a_tools_flags_are_those_of_its_row(
    before: Seq<RuleView>,
    row: RuleView,
    after: Seq<RuleView>,
    tool: Seq<char>,
)
    requires
        forall|i: int|
            0 <= i < before.len() ==> (#[trigger] before[i]).tool != tool
                || before[i].parallel_flags.len() == 0,
    ensures
        row.tool == tool && row.parallel_flags.len() > 0 ==> known_flags(
            before + seq![row] + after,
            tool,
        ) == row.parallel_flags,
        known_flags(before, tool).len() == 0,
{
    let p = |r: RuleView| r.tool == tool && r.parallel_flags.len() > 0;
    let n = before.len() as int;
    assert forall|j: int| 0 <= j < n implies !p(#[trigger] before[j]) by {}
    lemma_first_such_is(before, p, n);
    let all = before + seq![row] + after;
    if p(row) {
        assert forall|j: int| 0 <= j < n implies !p(#[trigger] all[j]) by {
            assert(all[j] == before[j]);
        }
        assert(all[n] == row);
        lemma_first_such_is(all, p, n);
    }
}

} // verus!
