//! What a configuration file means, stated of what is written in it.

use vstd::prelude::*;

#[allow(unused_imports)]
use crate::classify::{
    basename_of, class_named, law_the_names_of_the_classes, row_for, row_matches, Class, Inject,
    RuleView,
};
#[allow(unused_imports)]
use crate::config::{
    config_of, config_path, configured, defaults_in, distinct_tools, env_fault, env_in, fault,
    known_flags, law_an_override_replaces_every_row_for_its_tool, lemma_untouched_tools, line_at,
    other_rows, overridden, override_row, override_rows, overrides_tool, placeholder_fault,
    read_defaults, read_env, read_file, read_overrides, read_row, row_in, rows_fault, static_in,
    tool_taken, untouched, OverrideView, Refused, StaticDefault, WrittenOverrideView, WrittenView,
};
#[allow(unused_imports)]
use crate::document::{digit_in, number_of, radix_value, Toml, TomlEntry, TomlItem};
#[allow(unused_imports)]
use crate::text::{
    absolute, decimal_of, digit, first_such, is_digit, lemma_decimal, lemma_first_such,
    lemma_first_such_is, under, unsigned_digits,
};

verus! {

/// A number in decimal is read as that number, up to the largest that fits.
pub proof fn law_a_number_is_read_as_written(n: nat, max: nat)
    ensures
        n <= max ==> number_of(Toml::Integer(decimal_of(n), 10), max) == Some(n),
        n > max ==> number_of(Toml::Integer(decimal_of(n), 10), max) is None,
{
    lemma_radix_of_decimal(n);
    lemma_decimal(n);
    let s = decimal_of(n);
    assert(is_digit(s[0]));
    assert(unsigned_digits(s) == s);
}

proof fn lemma_radix_of_decimal(n: nat)
    ensures
        radix_value(decimal_of(n), 10) == n,
        forall|i: int| 0 <= i < decimal_of(n).len() ==> digit_in(#[trigger] decimal_of(n)[i], 10),
    decreases n,
{
    let s = decimal_of(n);
    if n < 10 {
        assert(s.drop_last() =~= Seq::empty());
        assert(radix_value(s.drop_last(), 10) == 0);
        assert(s.last() == digit(n));
    } else {
        lemma_radix_of_decimal(n / 10);
        let t = decimal_of(n / 10);
        assert(s.drop_last() =~= t);
        assert(s.last() == digit(n % 10));
        assert forall|i: int| 0 <= i < s.len() implies digit_in(#[trigger] s[i], 10) by {
            if i < t.len() {
                assert(s[i] == t[i]);
            }
        }
    }
}

/// Whether no two entries have one key.
pub open spec fn distinct_keys(entries: Seq<TomlEntry>) -> bool {
    forall|i: int, j: int|
        0 <= i < j < entries.len() ==> (#[trigger] entries[i]).key != (#[trigger] entries[j]).key
}

/// Whether one of the first `n` entries has the key.
pub open spec fn has_key(entries: Seq<TomlEntry>, n: nat, key: Seq<char>) -> bool {
    exists|i: int| 0 <= i < n && (#[trigger] entries[i]).key == key
}

proof fn lemma_fields()
    ensures
        "pool_size"@.len() == 9,
        "max_concurrent"@.len() == 14,
        "drain_deadline_ms"@.len() == 17,
        "defaults"@.len() == 8,
        "overrides"@.len() == 9,
        "pool_size"@[0] == 'p',
        "overrides"@[0] == 'o',
        "class"@.len() == 5,
        "env"@.len() == 3,
{
    reveal_strlit("pool_size");
    reveal_strlit("max_concurrent");
    reveal_strlit("drain_deadline_ms");
    reveal_strlit("defaults");
    reveal_strlit("overrides");
    reveal_strlit("class");
    reveal_strlit("env");
}

/// A file sets what it names and nothing else: each setting is what the entry under
/// its name says, and unset where there is no such entry; an entry under any other
/// name has the file refused.
pub proof fn law_a_file_sets_what_it_names(entries: Seq<TomlEntry>, n: nat)
    requires
        n <= entries.len(),
        distinct_keys(entries),
        read_file(entries, n) is Ok,
    ensures
        ({
            let w = read_file(entries, n)->Ok_0;
            &&& forall|i: int|
                0 <= i < n ==> {
                    let e = #[trigger] entries[i];
                    ||| e.key == "pool_size"@ && number_of(e.value, u32::MAX as nat) is Some
                        && w.pool_size == Some(
                        (number_of(e.value, u32::MAX as nat)->0 as u32, e.at as usize),
                    )
                    ||| e.key == "max_concurrent"@ && number_of(e.value, u32::MAX as nat) is Some
                        && w.max_concurrent == Some(
                        (number_of(e.value, u32::MAX as nat)->0 as u32, e.at as usize),
                    )
                    ||| e.key == "drain_deadline_ms"@ && number_of(e.value, u64::MAX as nat) is Some
                        && w.drain_deadline_ms == Some(
                        (number_of(e.value, u64::MAX as nat)->0 as u64, e.at as usize),
                    )
                    ||| e.key == "defaults"@ && defaults_in(e) == Ok::<_, Refused>(w.static_default)
                    ||| e.key == "overrides"@ && (e.value matches Toml::Table(inner)
                        && read_overrides(inner, inner.len()) == Ok::<_, Refused>(w.overrides))
                }
            &&& !has_key(entries, n, "pool_size"@) ==> w.pool_size is None
            &&& !has_key(entries, n, "max_concurrent"@) ==> w.max_concurrent is None
            &&& !has_key(entries, n, "drain_deadline_ms"@) ==> w.drain_deadline_ms is None
            &&& !has_key(entries, n, "defaults"@) ==> w.static_default is None
            &&& !has_key(entries, n, "overrides"@) ==> w.overrides.len() == 0
        }),
    decreases n,
{
    lemma_fields();
    if n > 0 {
        let m = (n - 1) as nat;
        law_a_file_sets_what_it_names(entries, m);
        let last = entries[n - 1];
        assert forall|key: Seq<char>| has_key(entries, m, key) implies #[trigger] has_key(
            entries,
            n,
            key,
        ) by {}
        assert(has_key(entries, n, last.key));
        let before = read_file(entries, m)->Ok_0;
        let w = read_file(entries, n)->Ok_0;
        assert forall|i: int| 0 <= i < m implies (#[trigger] entries[i]).key != last.key by {}
    }
}

/// What an accepted file comes to: its own settings, and where it has none the
/// defaults: as many tokens as the machine has cores, four leases at once, two
/// seconds for a drain, and the fair share for a command with a fixed one.
pub proof fn law_what_is_not_set_is_the_default(
    w: WrittenView,
    path: Seq<char>,
    bytes: Seq<u8>,
    cores: Result<u32, Seq<char>>,
)
    requires
        configured(w, path, bytes, cores) is Ok,
    ensures
        ({
            let c = configured(w, path, bytes, cores)->Ok_0;
            &&& w.pool_size matches Some(p) ==> c.pool_size == p.0
            &&& w.pool_size is None ==> cores == Ok::<u32, Seq<char>>(c.pool_size)
            &&& w.max_concurrent matches Some(p) ==> c.max_concurrent == p.0
            &&& w.max_concurrent is None ==> c.max_concurrent == 4
            &&& w.drain_deadline_ms matches Some(p) ==> c.drain_deadline_ms == p.0
            &&& w.drain_deadline_ms is None ==> c.drain_deadline_ms == 2000
            &&& w.static_default matches Some(p) ==> c.static_default == p.0
            &&& w.static_default is None ==> c.static_default == StaticDefault::Fair
            &&& c.overrides.len() == w.overrides.len()
            &&& forall|i: int|
                0 <= i < w.overrides.len() ==> {
                    let o = #[trigger] c.overrides[i];
                    &&& o.key == w.overrides[i].key
                    &&& o.class == w.overrides[i].class
                    &&& o.env.len() == w.overrides[i].env.len()
                    &&& forall|j: int|
                        0 <= j < o.env.len() ==> (#[trigger] o.env[j]).0
                            == w.overrides[i].env[j].name && o.env[j].1
                            == w.overrides[i].env[j].value
                }
        }),
{
}

/// Whether every value that the row sets holds known placeholders only.
pub open spec fn placeholders_known(row: WrittenOverrideView) -> bool {
    forall|j: int|
        0 <= j < row.env.len() ==> placeholder_fault((#[trigger] row.env[j]).value) is None
}

/// A file is accepted exactly where its settings are within their ranges: a pool of
/// 1 to 4096 tokens, at least one lease at once, a drain of 100 to 60000
/// milliseconds, a fixed share of at least one core, one override for a tool, and
/// no placeholder but the known ones.
pub proof fn law_what_is_within_its_range_is_accepted(w: WrittenView, pool: u32)
    ensures
        fault(w, pool) is None <==> {
            &&& 1 <= pool <= 4096
            &&& w.max_concurrent matches Some(p) ==> p.0 >= 1
            &&& w.drain_deadline_ms matches Some(p) ==> 100 <= p.0 <= 60_000
            &&& w.static_default matches Some(p) ==> p.0 != StaticDefault::Cores(0)
            &&& forall|i: int, j: int|
                0 <= i < j < w.overrides.len() ==> basename_of((#[trigger] w.overrides[i]).key)
                    != basename_of((#[trigger] w.overrides[j]).key)
            &&& forall|i: int|
                0 <= i < w.overrides.len() ==> placeholders_known(#[trigger] w.overrides[i])
        },
{
    let rows = w.overrides;
    lemma_rows_fault(rows, rows.len());
    let apart = forall|i: int, j: int|
        0 <= i < j < rows.len() ==> basename_of((#[trigger] rows[i]).key) != basename_of(
            (#[trigger] rows[j]).key,
        );
    if rows_fault(rows, rows.len()) is None {
        assert forall|i: int, j: int| 0 <= i < j < rows.len() implies basename_of(
            (#[trigger] rows[i]).key,
        ) != basename_of((#[trigger] rows[j]).key) by {
            assert(!tool_taken(rows, j));
        }
    }
    if apart {
        assert forall|k: int| 0 <= k < rows.len() implies !#[trigger] tool_taken(rows, k) by {
            if tool_taken(rows, k) {
                let j = choose|j: int|
                    0 <= j < k && basename_of((#[trigger] rows[j]).key) == basename_of(
                        rows[k].key,
                    );
                assert(basename_of(rows[j].key) != basename_of(rows[k].key));
            }
        }
    }
}

proof fn lemma_rows_fault(rows: Seq<WrittenOverrideView>, n: nat)
    requires
        n <= rows.len(),
    ensures
        rows_fault(rows, n) is None <==> (forall|k: int|
            0 <= k < n ==> !#[trigger] tool_taken(rows, k)) && (forall|k: int|
            0 <= k < n ==> placeholders_known(#[trigger] rows[k])),
    decreases n,
{
    if n > 0 {
        lemma_rows_fault(rows, (n - 1) as nat);
        let row = rows[n - 1];
        lemma_env_fault(row, row.env.len());
        assert(tool_taken(rows, n - 1) || !tool_taken(rows, n - 1));
    }
}

proof fn lemma_env_fault(row: WrittenOverrideView, n: nat)
    requires
        n <= row.env.len(),
    ensures
        env_fault(row, n) is None <==> forall|j: int|
            0 <= j < n ==> placeholder_fault((#[trigger] row.env[j]).value) is None,
    decreases n,
{
    if n > 0 {
        lemma_env_fault(row, (n - 1) as nat);
        assert(row.env[n - 1] == row.env[n - 1]);
    }
}

/// Text is in order as long as every brace in it opens a known placeholder: text
/// without one is, `{cores}`, `{cores-1}` and `{fifo}` are, and what follows decides;
/// any other name in braces is not, nor is a brace that is never closed.
pub proof fn law_only_known_placeholders_are_in_order(
    plain: Seq<char>,
    name: Seq<char>,
    rest: Seq<char>,
)
    requires
        !plain.contains('{'),
        !name.contains('}'),
    ensures
        placeholder_fault(plain) is None,
        name == "cores"@ || name == "cores-1"@ || name == "fifo"@ ==> placeholder_fault(
            plain + seq!['{'] + name + seq!['}'] + rest,
        ) == placeholder_fault(rest),
        name != "cores"@ && name != "cores-1"@ && name != "fifo"@ ==> placeholder_fault(
            plain + seq!['{'] + name + seq!['}'] + rest,
        ) is Some,
        placeholder_fault(plain + seq!['{'] + name) is Some,
{
    let p = |c: char| c == '{';
    let q = |c: char| c == '}';
    let n = plain.len() as int;
    assert forall|j: int| 0 <= j < n implies !p(#[trigger] plain[j]) by {
        assert(plain.contains(plain[j]));
    }
    lemma_first_such_is(plain, p, n);
    let v = plain + seq!['{'] + name + seq!['}'] + rest;
    assert forall|j: int| 0 <= j < n implies !p(#[trigger] v[j]) by {
        assert(v[j] == plain[j]);
    }
    assert(v[n] == '{');
    lemma_first_such_is(v, p, n);
    let tail = v.skip(n);
    let close = name.len() as int + 1;
    assert(tail =~= seq!['{'] + name + seq!['}'] + rest);
    assert forall|j: int| 0 <= j < close implies !q(#[trigger] tail[j]) by {
        if j > 0 {
            assert(tail[j] == name[j - 1]);
            assert(name.contains(name[j - 1]));
        }
    }
    assert(tail[close] == '}');
    lemma_first_such_is(tail, q, close);
    let found = tail.take(close + 1);
    assert(found =~= seq!['{'] + name + seq!['}']);
    assert(tail.skip(close + 1) =~= rest);
    reveal_strlit("{cores}");
    reveal_strlit("{cores-1}");
    reveal_strlit("{fifo}");
    reveal_strlit("cores");
    reveal_strlit("cores-1");
    reveal_strlit("fifo");
    assert(found.subrange(1, close) =~= name);
    assert("{cores}"@.subrange(1, 6) =~= "cores"@);
    assert("{cores-1}"@.subrange(1, 8) =~= "cores-1"@);
    assert("{fifo}"@.subrange(1, 5) =~= "fifo"@);
    if name == "cores"@ {
        assert(found =~= "{cores}"@);
    }
    if name == "cores-1"@ {
        assert(found =~= "{cores-1}"@);
    }
    if name == "fifo"@ {
        assert(found =~= "{fifo}"@);
    }
    assert("{cores}"@.len() == 7 && "{cores-1}"@.len() == 9 && "{fifo}"@.len() == 6);
    assert(found.len() == close + 1);
    let open = plain + seq!['{'] + name;
    assert forall|j: int| 0 <= j < n implies !p(#[trigger] open[j]) by {
        assert(open[j] == plain[j]);
    }
    assert(open[n] == '{');
    lemma_first_such_is(open, p, n);
    let end = open.skip(n);
    assert(end =~= seq!['{'] + name);
    assert forall|j: int| 0 <= j < end.len() implies !q(#[trigger] end[j]) by {
        if j > 0 {
            assert(end[j] == name[j - 1]);
            assert(name.contains(name[j - 1]));
        }
    }
    lemma_first_such_is(end, q, end.len() as int);
}

/// A setting for commands with a fixed share is the word `fair` or a core count.
pub proof fn law_a_fixed_share_is_fair_or_a_count(e: TomlEntry, n: nat)
    ensures
        e.value == Toml::Text("fair"@) ==> (static_in(e) matches Ok(d) && d.0
            == StaticDefault::Fair),
        e.value == Toml::Integer(decimal_of(n), 10) && n <= u32::MAX ==> (static_in(e) matches Ok(d)
            && d.0 == StaticDefault::Cores(n as u32)),
        e.value matches Toml::Text(t) && t != "fair"@ ==> static_in(e) is Err,
{
    law_a_number_is_read_as_written(n, u32::MAX as nat);
}

/// An override's class is the one that its entry names, and its variables are those
/// of its table; one without a class is refused.
pub proof fn law_an_override_says_its_class(entries: Seq<TomlEntry>, n: nat)
    requires
        n <= entries.len(),
        distinct_keys(entries),
        read_row(entries, n) is Ok,
    ensures
        ({
            let row = read_row(entries, n)->Ok_0;
            &&& forall|i: int|
                0 <= i < n ==> {
                    let e = #[trigger] entries[i];
                    ||| e.key == "class"@ && (e.value matches Toml::Text(name) && class_named(name)
                        is Some && row.class == class_named(name))
                    ||| e.key == "env"@ && env_in(e) == Ok::<_, Refused>(row.env)
                }
            &&& !has_key(entries, n, "class"@) ==> row.class is None
            &&& !has_key(entries, n, "env"@) ==> row.env.len() == 0
        }),
    decreases n,
{
    lemma_fields();
    if n > 0 {
        let m = (n - 1) as nat;
        law_an_override_says_its_class(entries, m);
        let last = entries[n - 1];
        assert forall|key: Seq<char>| has_key(entries, m, key) implies #[trigger] has_key(
            entries,
            n,
            key,
        ) by {}
        assert(has_key(entries, n, last.key));
        assert forall|i: int| 0 <= i < m implies (#[trigger] entries[i]).key != last.key by {}
    }
}

/// Each override of the file is one of the configuration's, in its order, under its
/// key, with the class and the variables of its row.
pub proof fn law_every_override_is_read(entries: Seq<TomlEntry>, n: nat)
    requires
        n <= entries.len(),
        read_overrides(entries, n) is Ok,
    ensures
        ({
            let out = read_overrides(entries, n)->Ok_0;
            &&& out.len() == n
            &&& forall|i: int|
                0 <= i < n ==> {
                    let o = #[trigger] out[i];
                    &&& o.key == entries[i].key
                    &&& row_in(entries[i]) matches Ok(row) && row.class == Some(o.class) && row.env
                        == o.env
                }
        }),
    decreases n,
{
    if n > 0 {
        law_every_override_is_read(entries, (n - 1) as nat);
        let before = read_overrides(entries, (n - 1) as nat)->Ok_0;
        let out = read_overrides(entries, n)->Ok_0;
        assert forall|i: int| 0 <= i < n implies {
            let o = #[trigger] out[i];
            &&& o.key == entries[i].key
            &&& row_in(entries[i]) matches Ok(row) && row.class == Some(o.class) && row.env == o.env
        } by {
            if i < n - 1 {
                assert(out[i] == before[i]);
            }
        }
    }
}

/// The variables of a row are its entries, in their order, each of which is a text.
pub proof fn law_every_variable_is_read(entries: Seq<TomlEntry>, n: nat)
    requires
        n <= entries.len(),
    ensures
        read_env(entries, n) is Ok <==> forall|i: int|
            0 <= i < n ==> (#[trigger] entries[i]).value is Text,
        read_env(entries, n) matches Ok(out) ==> out.len() == n && forall|i: int|
            0 <= i < n ==> (#[trigger] out[i]).name == entries[i].key && Toml::Text(out[i].value)
                == entries[i].value,
    decreases n,
{
    if n > 0 {
        law_every_variable_is_read(entries, (n - 1) as nat);
        assert(entries[n - 1].value is Text || !(entries[n - 1].value is Text));
        if read_env(entries, n) is Ok {
            let before = read_env(entries, (n - 1) as nat)->Ok_0;
            let out = read_env(entries, n)->Ok_0;
            assert forall|i: int| 0 <= i < n implies (#[trigger] out[i]).name == entries[i].key
                && Toml::Text(out[i].value) == entries[i].value by {
                if i < n - 1 {
                    assert(out[i] == before[i]);
                }
            }
        }
    }
}

/// The configuration file is the one that `BUSYBEE_CONFIG` names, whatever else is
/// set; else the one in the user's configuration directory, else the one under
/// their home. A `BUSYBEE_CONFIG` that is not absolute is refused, and so is a
/// machine on which none of the three is.
pub proof fn law_the_file_is_named_or_found(
    named: Option<Seq<char>>,
    xdg: Option<Seq<char>>,
    home: Option<Seq<char>>,
)
    ensures
        named matches Some(path) ==> {
            &&& path.len() > 0 && path[0] == '/' ==> config_path(named, xdg, home) == Ok::<_, Seq<char>>(path)
            &&& path.len() == 0 || path[0] != '/' ==> config_path(named, xdg, home) is Err
        },
        named is None && (xdg matches Some(dir) && dir.len() > 0 && dir[0] == '/') ==> config_path(
            named,
            xdg,
            home,
        ) == Ok::<_, Seq<char>>(under(xdg->0, "busybee/config.toml"@)),
        named is None && !(xdg matches Some(dir) && dir.len() > 0 && dir[0] == '/') && (home
            matches Some(dir) && dir.len() > 0 && dir[0] == '/') ==> config_path(named, xdg, home)
            == Ok::<_, Seq<char>>(under(home->0, ".config/busybee/config.toml"@)),
        named is None && !(xdg matches Some(dir) && dir.len() > 0 && dir[0] == '/') && !(home
            matches Some(dir) && dir.len() > 0 && dir[0] == '/') ==> config_path(named, xdg, home)
            is Err,
{
}

/// A path under a directory is the directory, one slash and the path.
pub proof fn law_a_path_under_a_directory(dir: Seq<char>, rel: Seq<char>)
    requires
        dir.len() > 0,
    ensures
        dir.last() != '/' ==> under(dir, rel) == dir + seq!['/'] + rel,
        dir.last() == '/' ==> under(dir, rel) == dir + rel,
{
    assert(dir.push('/') =~= dir + seq!['/']);
}

/// Lines are counted from 1, and each newline before a place counts for one more.
pub proof fn law_lines_are_counted_from_one(bytes: Seq<u8>, offset: nat)
    ensures
        line_at(bytes, 0) == 1,
        offset < bytes.len() ==> line_at(bytes, offset + 1) == line_at(bytes, offset) + (
        if bytes[offset as int] == 10 {
            1nat
        } else {
            0nat
        }),
        offset >= bytes.len() ==> line_at(bytes, offset) == line_at(bytes, bytes.len()),
{
    assert(bytes.take(0) =~= Seq::empty());
    if offset < bytes.len() {
        let t = bytes.take(offset as int + 1);
        assert(t.drop_last() =~= bytes.take(offset as int));
        assert(t.last() == bytes[offset as int]);
        if offset + 1 == bytes.len() {
            assert(bytes.take(bytes.len() as int) =~= t);
        }
    }
}

/// An override decides for its tool: a command of that tool has the override's
/// class, unless the user asks for another, and its variables; the flags that the
/// table knows of the tool are still watched for.
pub proof fn law_an_override_decides_for_its_tool(
    rows: Seq<RuleView>,
    overrides: Seq<OverrideView>,
    i: int,
    args: Seq<Seq<char>>,
)
    requires
        distinct_tools(overrides),
        0 <= i < overrides.len(),
    ensures
        ({
            let tool = basename_of(overrides[i].key);
            let found = row_for(overridden(rows, overrides, overrides.len()), tool, args);
            &&& found matches Some(r)
            &&& r.tool == tool
            &&& r.class == overrides[i].class
            &&& r.env_set == overrides[i].env
            &&& r.parallel_flags == known_flags(rows, tool)
            &&& r.inject == if overrides[i].class == Class::Jobserver {
                Inject::Jobserver
            } else {
                Inject::Nothing
            }
        }),
{
    let n = overrides.len();
    let tool = basename_of(overrides[i].key);
    law_an_override_replaces_every_row_for_its_tool(rows, overrides);
    let kept = untouched(rows, overrides, n);
    let new = override_rows(rows, overrides, n);
    let out = kept + new;
    lemma_untouched_tools(rows, overrides, n);
    let p = |r: RuleView| row_matches(r, tool, args);
    let k = kept.len() + i;
    assert(overrides_tool(overrides, n, tool));
    assert forall|j: int| 0 <= j < k implies !p(#[trigger] out[j]) by {
        if j < kept.len() {
            assert(out[j] == kept[j]);
        } else {
            assert(out[j] == override_row(rows, overrides[j - kept.len()]));
            assert(basename_of(overrides[j - kept.len()].key) != basename_of(overrides[i].key));
        }
    }
    assert(out[k] == override_row(rows, overrides[i]));
    lemma_first_such_is(out, p, k);
}

/// What a file that is accepted means: each of its numbers is the setting under
/// whose name it stands, and a setting that it does not name is the default.
pub proof fn law_an_accepted_file_means_what_it_says(
    entries: Seq<TomlEntry>,
    path: Seq<char>,
    bytes: Seq<u8>,
    cores: Result<u32, Seq<char>>,
)
    requires
        distinct_keys(entries),
        config_of(Ok(entries), path, bytes, cores) is Ok,
    ensures
        ({
            let c = config_of(Ok(entries), path, bytes, cores)->Ok_0;
            let n = entries.len();
            &&& forall|i: int, v: nat|
                0 <= i < n && (#[trigger] entries[i]).value == Toml::Integer(
                    #[trigger] decimal_of(v),
                    10,
                ) ==> {
                    &&& entries[i].key == "pool_size"@ ==> c.pool_size == v
                    &&& entries[i].key == "max_concurrent"@ ==> c.max_concurrent == v
                    &&& entries[i].key == "drain_deadline_ms"@ ==> c.drain_deadline_ms == v
                }
            &&& !has_key(entries, n, "pool_size"@) ==> cores == Ok::<u32, Seq<char>>(c.pool_size)
            &&& !has_key(entries, n, "max_concurrent"@) ==> c.max_concurrent == 4
            &&& !has_key(entries, n, "drain_deadline_ms"@) ==> c.drain_deadline_ms == 2000
            &&& !has_key(entries, n, "defaults"@) ==> c.static_default == StaticDefault::Fair
            &&& !has_key(entries, n, "overrides"@) ==> c.overrides.len() == 0
        }),
{
    let n = entries.len();
    lemma_fields();
    law_a_file_sets_what_it_names(entries, n);
    let w = read_file(entries, n)->Ok_0;
    law_what_is_not_set_is_the_default(w, path, bytes, cores);
    let c = configured(w, path, bytes, cores)->Ok_0;
    assert forall|i: int, v: nat|
        0 <= i < n && (#[trigger] entries[i]).value == Toml::Integer(
            #[trigger] decimal_of(v),
            10,
        ) implies {
        &&& entries[i].key == "pool_size"@ ==> c.pool_size == v
        &&& entries[i].key == "max_concurrent"@ ==> c.max_concurrent == v
        &&& entries[i].key == "drain_deadline_ms"@ ==> c.drain_deadline_ms == v
    } by {
        law_a_number_is_read_as_written(v, u32::MAX as nat);
        law_a_number_is_read_as_written(v, u64::MAX as nat);
    }
}

/// A file that is no document, or that cannot be read as a configuration, is
/// refused, and so is a machine whose cores cannot be counted where the file does
/// not say how many tokens there are.
pub proof fn law_what_cannot_be_read_is_refused(
    document: Result<Seq<TomlEntry>, Seq<char>>,
    path: Seq<char>,
    bytes: Seq<u8>,
    cores: Result<u32, Seq<char>>,
)
    ensures
        document is Err ==> config_of(document, path, bytes, cores) is Err,
        document matches Ok(entries) && read_file(entries, entries.len()) is Err ==> config_of(
            document,
            path,
            bytes,
            cores,
        ) is Err,
        document matches Ok(entries) && (read_file(entries, entries.len()) matches Ok(w)
            && w.pool_size is None) && cores is Err ==> config_of(document, path, bytes, cores)
            is Err,
{
}

proof fn lemma_row_for_push(
    rows: Seq<RuleView>,
    last: RuleView,
    tool: Seq<char>,
    args: Seq<Seq<char>>,
)
    ensures
        row_for(rows.push(last), tool, args) == (if row_for(rows, tool, args) is Some {
            row_for(rows, tool, args)
        } else if row_matches(last, tool, args) {
            Some(last)
        } else {
            None
        }),
{
    let p = |r: RuleView| row_matches(r, tool, args);
    let all = rows.push(last);
    lemma_first_such(rows, p);
    let i = first_such(rows, p) as int;
    assert forall|j: int| 0 <= j < i implies !p(#[trigger] all[j]) by {
        assert(all[j] == rows[j]);
    }
    if i < rows.len() {
        assert(all[i] == rows[i]);
        lemma_first_such_is(all, p, i);
    } else if p(last) {
        assert(all[i] == last);
        lemma_first_such_is(all, p, i);
    } else {
        assert forall|j: int| 0 <= j < all.len() implies !p(#[trigger] all[j]) by {
            if j < rows.len() {
                assert(all[j] == rows[j]);
            }
        }
        lemma_first_such_is(all, p, all.len() as int);
    }
}

proof fn lemma_row_for_other(
    rows: Seq<RuleView>,
    gone: Seq<char>,
    tool: Seq<char>,
    args: Seq<Seq<char>>,
)
    requires
        gone != tool,
    ensures
        row_for(other_rows(rows, gone), tool, args) == row_for(rows, tool, args),
    decreases rows.len(),
{
    if rows.len() > 0 {
        let before = rows.drop_last();
        let last = rows.last();
        lemma_row_for_other(before, gone, tool, args);
        lemma_row_for_push(before, last, tool, args);
        lemma_row_for_push(other_rows(before, gone), last, tool, args);
        assert(before.push(last) =~= rows);
    }
}

/// A tool that no override is for is found as it was without them.
pub proof fn law_other_tools_are_found_as_before(
    rows: Seq<RuleView>,
    overrides: Seq<OverrideView>,
    n: nat,
    tool: Seq<char>,
    args: Seq<Seq<char>>,
)
    requires
        n <= overrides.len(),
        forall|i: int| 0 <= i < n ==> basename_of((#[trigger] overrides[i]).key) != tool,
    ensures
        row_for(overridden(rows, overrides, n), tool, args) == row_for(rows, tool, args),
    decreases n,
{
    if n > 0 {
        let m = (n - 1) as nat;
        law_other_tools_are_found_as_before(rows, overrides, m, tool, args);
        let before = overridden(rows, overrides, m);
        let over = overrides[n - 1];
        let gone = basename_of(over.key);
        lemma_row_for_other(before, gone, tool, args);
        lemma_row_for_push(other_rows(before, gone), override_row(before, over), tool, args);
    }
}

/// What stands under `defaults` is the share of commands with a fixed one, under the
/// name `static` in a table or first in a list; anything else there is refused.
pub proof fn law_a_default_stands_under_its_name(e: TomlEntry, inner: TomlEntry)
    ensures
        e.value == Toml::Table(seq![inner]) && inner.key == "static"@ ==> match static_in(inner) {
            Ok(d) => defaults_in(e) == Ok::<_, Refused>(Some(d)),
            Err(_) => defaults_in(e) is Err,
        },
        e.value == Toml::Table(seq![inner]) && inner.key != "static"@ ==> defaults_in(e) is Err,
        e.value == Toml::Table(Seq::<TomlEntry>::empty()) ==> defaults_in(e) == Ok::<
            Option<(StaticDefault, usize)>,
            Refused,
        >(None),
        e.value is Text || e.value is Integer || e.value is Other ==> defaults_in(e) is Err,
{
    reveal_with_fuel(read_defaults, 2);
    assert(seq![inner][0] == inner);
}

/// An override that is a list has its class first and its variables second; one that
/// is neither a list nor a table is refused.
pub proof fn law_an_override_may_be_a_list(e: TomlEntry, items: Seq<TomlItem>)
    ensures
        e.value == Toml::Array(items) && items.len() >= 1 && (items[0].value matches Toml::Text(name)
            && class_named(name) is Some) ==> {
            let class = class_named(items[0].value->Text_0);
            &&& items.len() == 1 ==> (row_in(e) matches Ok(row) && row.class == class
                && row.env.len() == 0)
            &&& items.len() >= 2 ==> match items[1].value {
                Toml::Table(inner) => match read_env(inner, inner.len()) {
                    Ok(env) => row_in(e) matches Ok(row) && row.class == class && row.env == env,
                    Err(_) => row_in(e) is Err,
                },
                _ => row_in(e) is Err,
            }
        },
        e.value == Toml::Array(items) && items.len() >= 1 && (items[0].value matches Toml::Text(name)
            ==> class_named(name) is None) ==> row_in(e) is Err,
        e.value is Text || e.value is Integer || e.value is Other ==> row_in(e) is Err,
{
}

/// A row's variables stand in a table; anything else there is refused.
pub proof fn law_variables_stand_in_a_table(e: TomlEntry)
    ensures
        e.value matches Toml::Table(inner) ==> env_in(e) == read_env(inner, inner.len()),
        !(e.value is Table) ==> env_in(e) is Err,
{
}

/// Whether an entry of a file is one of its settings, with a value of its kind.
pub open spec fn well_formed(e: TomlEntry) -> bool {
    ||| (e.key == "pool_size"@ || e.key == "max_concurrent"@) && number_of(
        e.value,
        u32::MAX as nat,
    ) is Some
    ||| e.key == "drain_deadline_ms"@ && number_of(e.value, u64::MAX as nat) is Some
    ||| e.key == "defaults"@ && defaults_in(e) is Ok
    ||| e.key == "overrides"@ && (e.value matches Toml::Table(inner) && read_overrides(
        inner,
        inner.len(),
    ) is Ok)
}

/// A file is read where each of its entries is one of the settings with a value of
/// its kind, and only there.
pub proof fn law_a_well_formed_file_is_read(entries: Seq<TomlEntry>, n: nat)
    requires
        n <= entries.len(),
    ensures
        read_file(entries, n) is Ok <==> forall|i: int|
            0 <= i < n ==> well_formed(#[trigger] entries[i]),
    decreases n,
{
    lemma_fields();
    if n > 0 {
        law_a_well_formed_file_is_read(entries, (n - 1) as nat);
        assert(well_formed(entries[n - 1]) || !well_formed(entries[n - 1]));
    }
}

/// Whether an entry of an override is its class, by a name that is one, or its
/// variables, in a table of texts.
pub open spec fn well_formed_row(e: TomlEntry) -> bool {
    ||| e.key == "class"@ && (e.value matches Toml::Text(name) && (name == "jobserver"@ || name
        == "static"@ || name == "none"@))
    ||| e.key == "env"@ && (e.value matches Toml::Table(inner) && forall|i: int|
        0 <= i < inner.len() ==> (#[trigger] inner[i]).value is Text)
}

/// An override is read where each of its entries is its class or its variables, and
/// only there.
pub proof fn law_a_well_formed_override_is_read(entries: Seq<TomlEntry>, n: nat)
    requires
        n <= entries.len(),
    ensures
        read_row(entries, n) is Ok <==> forall|i: int|
            0 <= i < n ==> well_formed_row(#[trigger] entries[i]),
    decreases n,
{
    lemma_fields();
    law_the_names_of_the_classes();
    if n > 0 {
        law_a_well_formed_override_is_read(entries, (n - 1) as nat);
        let e = entries[n - 1];
        if let Toml::Table(inner) = e.value {
            law_every_variable_is_read(inner, inner.len());
        }
        if let Toml::Text(name) = e.value {
            assert(class_named(name) is Some <==> (name == "jobserver"@ || name == "static"@ || name
                == "none"@));
        }
        assert(well_formed_row(e) || !well_formed_row(e));
    }
}

/// Overrides are read where each of them is, with a class, and only there.
pub proof fn law_overrides_with_a_class_are_read(entries: Seq<TomlEntry>, n: nat)
    requires
        n <= entries.len(),
    ensures
        read_overrides(entries, n) is Ok <==> forall|i: int|
            0 <= i < n ==> (row_in(#[trigger] entries[i]) matches Ok(row) && row.class is Some),
    decreases n,
{
    if n > 0 {
        law_overrides_with_a_class_are_read(entries, (n - 1) as nat);
        let e = entries[n - 1];
        assert(row_in(e) is Ok || row_in(e) is Err);
    }
}

/// An override in a table is read as its entries are.
pub proof fn law_an_override_stands_in_a_table(e: TomlEntry)
    ensures
        e.value matches Toml::Table(inner) ==> row_in(e) == read_row(inner, inner.len()),
{
}

/// A file that can be read is accepted where its settings are within their ranges
/// and the number of tokens is known, from the file or from the machine, and only
/// there.
pub proof fn law_a_readable_file_within_its_ranges_is_accepted(
    entries: Seq<TomlEntry>,
    path: Seq<char>,
    bytes: Seq<u8>,
    cores: Result<u32, Seq<char>>,
)
    ensures
        config_of(Ok(entries), path, bytes, cores) is Ok <==> (read_file(entries, entries.len())
            matches Ok(w) && match w.pool_size {
            Some(p) => fault(w, p.0) is None,
            None => cores is Ok && fault(w, cores->Ok_0) is None,
        }),
{
}

/// A list under `defaults` has the share first; an empty one says nothing.
pub proof fn law_a_default_may_be_a_list(e: TomlEntry, items: Seq<TomlItem>)
    ensures
        e.value == Toml::Array(items) && items.len() == 0 ==> defaults_in(e) == Ok::<
            Option<(StaticDefault, usize)>,
            Refused,
        >(None),
        e.value == Toml::Array(items) && items.len() > 0 && items[0].value == Toml::Text("fair"@)
            ==> (defaults_in(e) matches Ok(Some(d)) && d.0 == StaticDefault::Fair),
        e.value == Toml::Array(items) && items.len() > 0 && (number_of(
            items[0].value,
            u32::MAX as nat,
        ) matches Some(n)) ==> (defaults_in(e) matches Ok(Some(d)) && d.0 == StaticDefault::Cores(
            number_of(items[0].value, u32::MAX as nat)->0 as u32,
        )),
{
}

} // verus!
