//! `busybee status`: the pool, and one row for each lease.

use vstd::prelude::*;
use vstd::string::*;

use crate::protocol::{LeaseView, StatusReply};
use crate::text::{chars_of, copy, decimal, in_two_digits, pad, same};

#[allow(unused_imports)]
use crate::text::{decimal_of, digit, padded, two_digits};

verus! {

/// Tokens neither free nor held, never below 0.
pub open spec fn in_use(pool_size: nat, free: nat, held: nat) -> nat {
    if pool_size <= free + held {
        0
    } else {
        (pool_size - free - held) as nat
    }
}

/// Tokens neither free nor held by a static lease: approximately what the
/// jobserver tasks are using. The pool and the pipe are sampled separately, so a
/// sum over the boundary is drift and counts as none.
pub fn approx_in_use(reply: &StatusReply) -> (r: u32)
    ensures
        r == in_use(reply.pool_size as nat, reply.free as nat, reply.held as nat),
{
    reply.pool_size.saturating_sub(reply.free).saturating_sub(reply.held)
}

/// Whether a character controls the terminal rather than being shown.
pub open spec fn is_control(c: char) -> bool {
    (c as u32) < 0x20 || 0x7f <= (c as u32) <= 0x9f
}

/// A hexadecimal digit.
pub open spec fn hex_digit(n: nat) -> char {
    if n < 10 {
        digit(n)
    } else {
        ('a' as u32 + (n - 10)) as char
    }
}

/// A number below 256 in hexadecimal, without leading zeros.
pub open spec fn hex_of(n: nat) -> Seq<char> {
    if n < 16 {
        seq![hex_digit(n)]
    } else {
        seq![hex_digit(n / 16), hex_digit(n % 16)]
    }
}

/// How a control character is shown.
pub open spec fn escaped(c: char) -> Seq<char> {
    if c == '\0' {
        "\\0"@
    } else if c == '\t' {
        "\\t"@
    } else if c == '\n' {
        "\\n"@
    } else if c == '\r' {
        "\\r"@
    } else {
        "\\u{"@ + hex_of(c as nat) + "}"@
    }
}

/// A text with its control characters shown as their escapes.
pub open spec fn printed(s: Seq<char>) -> Seq<char>
    decreases s.len(),
{
    if s.len() == 0 {
        s
    } else {
        printed(s.drop_last()) + if is_control(s.last()) {
            escaped(s.last())
        } else {
            seq![s.last()]
        }
    }
}

fn hex_char(n: u32) -> (r: char)
    requires
        n < 16,
    ensures
        r == hex_digit(n as nat),
{
    if n < 10 {
        (48 + n as u8) as char
    } else {
        (87 + n as u8) as char
    }
}

fn escape(c: char) -> (r: String)
    requires
        is_control(c),
    ensures
        r@ == escaped(c),
{
    if c == '\0' {
        copy("\\0")
    } else if c == '\t' {
        copy("\\t")
    } else if c == '\n' {
        copy("\\n")
    } else if c == '\r' {
        copy("\\r")
    } else {
        let n = c as u32;
        let mut out = copy("\\u{");
        let ghost head = out@;
        if n >= 16 {
            out.push(hex_char(n / 16));
            out.push(hex_char(n % 16));
            assert(out@ =~= head + hex_of(n as nat));
        } else {
            out.push(hex_char(n));
            assert(out@ =~= head + hex_of(n as nat));
        }
        out.append("}");
        out
    }
}

/// A label is arbitrary text. One lease is one row, so a newline in it must not
/// split the row, nor an escape sequence rewrite what the terminal has drawn.
pub fn printable(label: &str) -> (r: String)
    ensures
        r@ == printed(label@),
{
    let chars = chars_of(label);
    let mut out = String::new();
    let mut i: usize = 0;
    assert(label@.take(0) =~= Seq::empty());
    assert(out@ =~= Seq::empty());
    while i < chars.len()
        invariant
            chars@ == label@,
            i <= chars@.len(),
            out@ == printed(label@.take(i as int)),
        decreases chars@.len() - i,
    {
        let c = chars[i];
        assert(label@.take(i + 1).drop_last() =~= label@.take(i as int));
        let n = c as u32;
        let ghost before = out@;
        if n < 0x20 || (0x7f <= n && n <= 0x9f) {
            out.append(escape(c).as_str());
        } else {
            out.push(c);
            assert(out@ =~= before + seq![c]);
        }
        i = i + 1;
    }
    assert(label@.take(i as int) =~= label@);
    out
}

/// What a lease does with the pool.
pub open spec fn cores_text(lease: LeaseView) -> Seq<char> {
    match lease.ahead {
        Some(ahead) => decimal_of(ahead as nat) + " ahead"@,
        None => if lease.class@ == "jobserver"@ {
            "using ~"@ + decimal_of(lease.cores as nat)
        } else {
            "holding "@ + decimal_of(lease.cores as nat)
        },
    }
}

/// What a lease does with the pool: wait for it, share it, or hold a slice of it.
/// What a jobserver task uses is an estimate and marked as one.
pub fn cores(lease: &LeaseView) -> (r: String)
    ensures
        r@ == cores_text(*lease),
{
    match lease.ahead {
        Some(ahead) => {
            let mut out = decimal(ahead as u64);
            out.append(" ahead");
            out
        },
        None => {
            let mut out = if same(lease.class.as_str(), "jobserver") {
                copy("using ~")
            } else {
                copy("holding ")
            };
            out.append(decimal(lease.cores as u64).as_str());
            out
        },
    }
}

/// A time in minutes and seconds.
pub open spec fn minutes_text(ms: nat) -> Seq<char> {
    decimal_of(ms / 1000 / 60) + "m"@ + two_digits(ms / 1000 % 60) + "s"@
}

/// A time in milliseconds, in minutes and seconds.
pub fn elapsed(ms: u64) -> (r: String)
    ensures
        r@ == minutes_text(ms as nat),
{
    let seconds = ms / 1000;
    let mut out = decimal(seconds / 60);
    out.append("m");
    out.append(in_two_digits(seconds % 60).as_str());
    out.append("s");
    out
}

/// The row for a lease.
pub open spec fn row_text(lease: LeaseView) -> Seq<char> {
    padded("#"@ + decimal_of(lease.id as nat), 5) + padded(lease.state@, 9) + padded(
        minutes_text(lease.elapsed_ms as nat),
        7,
    ) + padded(lease.tool@, 13) + padded(lease.class@, 11) + padded(cores_text(lease), 14)
        + "label: "@ + printed(lease.label@)
}

/// The row for a lease.
pub fn row(lease: &LeaseView) -> (r: String)
    ensures
        r@ == row_text(*lease),
{
    let mut id = copy("#");
    id.append(decimal(lease.id).as_str());
    let mut out = pad(id.as_str(), 5);
    out.append(pad(lease.state.as_str(), 9).as_str());
    out.append(pad(elapsed(lease.elapsed_ms).as_str(), 7).as_str());
    out.append(pad(lease.tool.as_str(), 13).as_str());
    out.append(pad(lease.class.as_str(), 11).as_str());
    out.append(pad(cores(lease).as_str(), 14).as_str());
    out.append("label: ");
    out.append(printable(lease.label.as_str()).as_str());
    out
}

/// The line for the pool.
pub open spec fn pool_text(pool_size: nat, free: nat, held: nat) -> Seq<char> {
    "pool: "@ + decimal_of(pool_size) + " tokens, "@ + decimal_of(free) + " free, "@ + decimal_of(
        held,
    ) + " held by static leases   (approx. "@ + decimal_of(in_use(pool_size, free, held))
        + " in use by jobserver tasks)"@
}

/// The rows of the first `n` leases, each on a line of its own.
pub open spec fn rows_text(leases: Seq<LeaseView>, n: nat) -> Seq<char>
    decreases n,
{
    if n == 0 {
        Seq::empty()
    } else {
        rows_text(leases, (n - 1) as nat) + "\n"@ + row_text(leases[n - 1])
    }
}

/// The whole report.
pub fn render(reply: &StatusReply) -> (r: String)
    ensures
        r@ == pool_text(reply.pool_size as nat, reply.free as nat, reply.held as nat)
            + rows_text(reply.leases@, reply.leases@.len()),
{
    let mut out = copy("pool: ");
    out.append(decimal(reply.pool_size as u64).as_str());
    out.append(" tokens, ");
    out.append(decimal(reply.free as u64).as_str());
    out.append(" free, ");
    out.append(decimal(reply.held as u64).as_str());
    out.append(" held by static leases   (approx. ");
    out.append(decimal(approx_in_use(reply) as u64).as_str());
    out.append(" in use by jobserver tasks)");
    let ghost pool = out@;
    let mut i: usize = 0;
    assert(pool + Seq::<char>::empty() =~= pool);
    while i < reply.leases.len()
        invariant
            i <= reply.leases@.len(),
            out@ == pool + rows_text(reply.leases@, i as nat),
        decreases reply.leases@.len() - i,
    {
        out.append("\n");
        out.append(row(&reply.leases[i]).as_str());
        i = i + 1;
        assert(out@ =~= pool + rows_text(reply.leases@, i as nat));
    }
    out
}

proof fn lemma_hex_digit(n: nat)
    ensures
        n < 16 ==> !is_control(hex_digit(n)),
{
}

proof fn lemma_escaped(c: char)
    requires
        is_control(c),
    ensures
        forall|i: int| 0 <= i < escaped(c).len() ==> !is_control(#[trigger] escaped(c)[i]),
{
    reveal_strlit("\\0");
    reveal_strlit("\\t");
    reveal_strlit("\\n");
    reveal_strlit("\\r");
    reveal_strlit("\\u{");
    reveal_strlit("}");
    let n = c as nat;
    let h = hex_of(n);
    let e = escaped(c);
    if c != '\0' && c != '\t' && c != '\n' && c != '\r' {
        lemma_hex_digit(n / 16);
        lemma_hex_digit(n % 16);
        lemma_hex_digit(n);
        assert(n < 160);
        assert(forall|i: int| 0 <= i < h.len() ==> !is_control(#[trigger] h[i]));
        assert forall|i: int| 0 <= i < e.len() implies !is_control(#[trigger] e[i]) by {
            if i < 3 {
                assert(e[i] == "\\u{"@[i]);
            } else if i < 3 + h.len() {
                assert(e[i] == h[i - 3]);
            } else {
                assert(e[i] == "}"@[i - 3 - h.len()]);
            }
        }
    }
}

/// A printed label holds no control character: it can neither split its row nor
/// move the cursor.
pub proof fn law_a_printed_label_controls_nothing(s: Seq<char>)
    ensures
        forall|i: int| 0 <= i < printed(s).len() ==> !is_control(#[trigger] printed(s)[i]),
    decreases s.len(),
{
    if s.len() > 0 {
        law_a_printed_label_controls_nothing(s.drop_last());
        let c = s.last();
        let before = printed(s.drop_last());
        let tail = if is_control(c) {
            escaped(c)
        } else {
            seq![c]
        };
        if is_control(c) {
            lemma_escaped(c);
        }
        assert forall|i: int| 0 <= i < printed(s).len() implies !is_control(
            #[trigger] printed(s)[i],
        ) by {
            if i < before.len() {
                assert(printed(s)[i] == before[i]);
            } else {
                assert(printed(s)[i] == tail[i - before.len()]);
            }
        }
    }
}

/// A label without control characters is printed as it is.
pub proof fn law_a_plain_label_is_printed_as_it_is(s: Seq<char>)
    requires
        forall|i: int| 0 <= i < s.len() ==> !is_control(#[trigger] s[i]),
    ensures
        printed(s) == s,
    decreases s.len(),
{
    if s.len() > 0 {
        let t = s.drop_last();
        assert forall|i: int| 0 <= i < t.len() implies !is_control(#[trigger] t[i]) by {
            assert(t[i] == s[i]);
        }
        law_a_plain_label_is_printed_as_it_is(t);
        assert(!is_control(s[s.len() - 1]));
        assert(printed(s) =~= s);
    }
}

/// What is neither free nor held is in use; where that leaves nothing, nothing is.
pub proof fn law_the_rest_of_the_pool_is_in_use(pool_size: nat, free: nat, held: nat)
    ensures
        free + held <= pool_size ==> in_use(pool_size, free, held) + free + held == pool_size,
        free + held >= pool_size ==> in_use(pool_size, free, held) == 0,
{
}

/// A time is told in whole minutes and the seconds beyond them, whatever is left of
/// a second.
pub proof fn law_a_time_is_told_in_minutes_and_seconds(m: nat, s: nat, ms: nat)
    requires
        s < 60,
        ms < 1000,
    ensures
        minutes_text(60_000 * m + 1000 * s + ms) == decimal_of(m) + "m"@ + two_digits(s) + "s"@,
{
    let t = 60_000 * m + 1000 * s + ms;
    assert(t / 1000 == 60 * m + s);
    assert((60 * m + s) / 60 == m);
    assert((60 * m + s) % 60 == s);
}

/// How many are ahead is said of a lease that waits; of one that does not, the cores
/// it uses where it shares the pool, and those it holds where it does not.
pub proof fn law_a_lease_waits_uses_or_holds(lease: LeaseView)
    ensures
        lease.ahead is Some ==> cores_text(lease) == decimal_of(lease.ahead->0 as nat)
            + " ahead"@,
        lease.ahead is None && lease.class@ == "jobserver"@ ==> cores_text(lease) == "using ~"@
            + decimal_of(lease.cores as nat),
        lease.ahead is None && lease.class@ != "jobserver"@ ==> cores_text(lease) == "holding "@
            + decimal_of(lease.cores as nat),
{
}

/// The character that a number below 16 is written with in base 16.
pub proof fn law_the_digits_of_base_sixteen()
    ensures
        forall|n: nat| n < 10 ==> (#[trigger] hex_digit(n)) as nat == 48 + n,
        forall|n: nat| 10 <= n < 16 ==> (#[trigger] hex_digit(n)) as nat == 87 + n,
{
}

/// A control character is named by its number in base 16, in braces, but for the
/// four that have a name of one letter; the number is written without a leading
/// zero.
pub proof fn law_a_control_character_is_named(c: char)
    requires
        (c as u32) < 0x20 || 0x7f <= (c as u32) <= 0x9f,
    ensures
        is_control(c),
        c == '\0' ==> escaped(c) == "\\0"@,
        c == '\t' ==> escaped(c) == "\\t"@,
        c == '\n' ==> escaped(c) == "\\n"@,
        c == '\r' ==> escaped(c) == "\\r"@,
        c != '\0' && c != '\t' && c != '\n' && c != '\r' ==> {
            let n = c as nat;
            escaped(c) == "\\u{"@ + (if n >= 16 {
                seq![hex_digit(n / 16), hex_digit(n % 16)]
            } else {
                seq![hex_digit(n)]
            }) + "}"@
        },
{
}

/// Labels are printed a character at a time: a text is printed as its parts are,
/// one behind the other.
pub proof fn law_a_label_is_printed_character_by_character(a: Seq<char>, c: char)
    ensures
        is_control(c) ==> printed(a.push(c)) == printed(a) + escaped(c),
        !((c as u32) < 0x20 || 0x7f <= (c as u32) <= 0x9f) ==> printed(a.push(c)) == printed(a).push(
            c,
        ),
{
    assert(a.push(c).drop_last() =~= a);
    assert(printed(a) + seq![c] =~= printed(a).push(c));
}

/// A report has one line for the pool and one behind it for each lease, in order.
pub proof fn law_a_lease_has_its_line(leases: Seq<LeaseView>, n: nat)
    requires
        n < leases.len(),
    ensures
        rows_text(leases, n + 1) == rows_text(leases, n) + seq!['\n'] + row_text(
            leases[n as int],
        ),
        rows_text(leases, 0).len() == 0,
{
    reveal_strlit("\n");
    assert("\n"@ =~= seq!['\n']);
}

} // verus!
