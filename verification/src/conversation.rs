//! The wire: one message per line, every line UTF-8 and of bounded length, and
//! what each side says to what it reads.

use vstd::prelude::*;
use vstd::string::*;

use crate::config::Config;
use crate::errors::BusybeeError;
use crate::protocol::{
    Hello, LeaseEvent, LeaseRequest, Request, Response, MAX_LINE_BYTES, PROTOCOL_VERSION,
};
use crate::text::{chars_of, copy, decimal, quoted, same, text_of};

#[allow(unused_imports)]
use crate::errors::error_text;
#[allow(unused_imports)]
use crate::text::{decimal_of, quoted_text};
#[allow(unused_imports)]
use vstd::utf8::{decode_utf8, valid_utf8};

verus! {

/// `String::from_utf8`: the text that bytes encode, or nothing where they are not
/// UTF-8.
#[verifier::external_body]
pub(crate) fn text_from_utf8(bytes: Vec<u8>) -> (r: Option<String>)
    ensures
        r is Some <==> valid_utf8(bytes@),
        r matches Some(text) ==> text@ == decode_utf8(bytes@),
{
    String::from_utf8(bytes).ok()
}

/// What is in front of a reader.
#[derive(Debug, PartialEq, Eq)]
pub enum Frame {
    /// Not a whole line yet.
    Wait,
    /// A line, without its newline and a carriage return before that.
    Line(Vec<u8>),
    /// A line that is longer than allowed.
    TooLong,
}

/// The same, mathematically.
pub enum Framed {
    Wait,
    Line(Seq<u8>),
    TooLong,
}

impl View for Frame {
    type V = Framed;

    open spec fn view(&self) -> Framed {
        match *self {
            Frame::Wait => Framed::Wait,
            Frame::Line(bytes) => Framed::Line(bytes@),
            Frame::TooLong => Framed::TooLong,
        }
    }
}

/// Where the first newline is; the length where there is none.
pub open spec fn newline_in(bytes: Seq<u8>) -> nat
    decreases bytes.len(),
{
    if bytes.len() == 0 || bytes[0] == 10 {
        0
    } else {
        1 + newline_in(bytes.skip(1))
    }
}

/// A line without the carriage return that may stand before its newline.
pub open spec fn bare(line: Seq<u8>) -> Seq<u8> {
    if line.len() > 0 && line.last() == 13 {
        line.drop_last()
    } else {
        line
    }
}

/// What is in front of a reader of `bytes`. A line may be as long as
/// [`MAX_LINE_BYTES`], its newline included, and a carriage return before the newline
/// is no part of it.
pub open spec fn frame_in(bytes: Seq<u8>) -> Framed {
    let p = newline_in(bytes);
    if p < bytes.len() && p < MAX_LINE_BYTES {
        Framed::Line(bare(bytes.take(p as int)))
    } else if bytes.len() > MAX_LINE_BYTES {
        Framed::TooLong
    } else {
        Framed::Wait
    }
}

/// What is left once a line is read.
pub open spec fn rest_of(bytes: Seq<u8>) -> Seq<u8> {
    match frame_in(bytes) {
        Framed::Line(_) => bytes.skip(newline_in(bytes) as int + 1),
        _ => bytes,
    }
}

proof fn lemma_newline(bytes: Seq<u8>, p: int)
    requires
        0 <= p <= bytes.len(),
        forall|j: int| 0 <= j < p ==> (#[trigger] bytes[j]) != 10,
        p < bytes.len() ==> bytes[p] == 10,
    ensures
        newline_in(bytes) == p,
    decreases bytes.len(),
{
    if bytes.len() > 0 && bytes[0] != 10 {
        let t = bytes.skip(1);
        assert forall|j: int| 0 <= j < p - 1 implies (#[trigger] t[j]) != 10 by {
            assert(t[j] == bytes[j + 1]);
        }
        if p < bytes.len() {
            assert(t[p - 1] == bytes[p]);
        }
        lemma_newline(t, p - 1);
    }
}

proof fn lemma_newline_is(bytes: Seq<u8>)
    ensures
        newline_in(bytes) <= bytes.len(),
        forall|j: int| 0 <= j < newline_in(bytes) ==> (#[trigger] bytes[j]) != 10,
        newline_in(bytes) < bytes.len() ==> bytes[newline_in(bytes) as int] == 10,
    decreases bytes.len(),
{
    if bytes.len() > 0 && bytes[0] != 10 {
        let t = bytes.skip(1);
        lemma_newline_is(t);
        assert forall|j: int| 0 <= j < newline_in(bytes) implies (#[trigger] bytes[j]) != 10 by {
            if j > 0 {
                assert(t[j - 1] == bytes[j]);
            }
        }
        if newline_in(bytes) < bytes.len() {
            assert(t[newline_in(t) as int] == bytes[newline_in(bytes) as int]);
        }
    }
}

/// Bytes that were read but not used yet.
#[derive(Debug)]
pub struct Lines {
    bytes: Vec<u8>,
}

impl View for Lines {
    type V = Seq<u8>;

    closed spec fn view(&self) -> Seq<u8> {
        self.bytes@
    }
}

impl Lines {
    /// Nothing read yet.
    pub fn new() -> (r: Self)
        ensures
            r@ == Seq::<u8>::empty(),
    {
        Lines { bytes: Vec::new() }
    }

    /// More bytes were read.
    pub fn feed(&mut self, bytes: &[u8])
        ensures
            final(self)@ == old(self)@ + bytes@,
    {
        let mut i: usize = 0;
        assert(bytes@.take(0) =~= Seq::empty());
        assert(self@ + Seq::<u8>::empty() =~= self@);
        while i < bytes.len()
            invariant
                i <= bytes@.len(),
                self@ == old(self)@ + bytes@.take(i as int),
            decreases bytes@.len() - i,
        {
            self.bytes.push(bytes[i]);
            i = i + 1;
            assert(self@ =~= old(self)@ + bytes@.take(i as int));
        }
        assert(bytes@.take(i as int) =~= bytes@);
    }

    /// The next line, taken out; or that there is none yet, or none that can be
    /// read.
    pub fn next(&mut self) -> (r: Frame)
        ensures
            r@ == frame_in(old(self)@),
            final(self)@ == rest_of(old(self)@),
    {
        let ghost all = self@;
        let mut p: usize = 0;
        while p < self.bytes.len() && self.bytes[p] != 10
            invariant
                self@ == all,
                p <= all.len(),
                forall|j: int| 0 <= j < p ==> (#[trigger] all[j]) != 10,
            decreases all.len() - p,
        {
            p = p + 1;
        }
        proof {
            lemma_newline(all, p as int);
        }
        if p < self.bytes.len() && p < MAX_LINE_BYTES {
            let tail = self.bytes.split_off(p + 1);
            let mut line = tail;
            std::mem::swap(&mut line, &mut self.bytes);
            let _ = line.pop();
            assert(line@ =~= all.take(p as int));
            if line.len() > 0 && line[line.len() - 1] == 13 {
                let _ = line.pop();
            }
            assert(line@ =~= bare(all.take(p as int)));
            assert(self@ =~= all.skip(p + 1));
            Frame::Line(line)
        } else if self.bytes.len() > MAX_LINE_BYTES {
            Frame::TooLong
        } else {
            Frame::Wait
        }
    }

    /// Whether the peer stopped in the middle of a line.
    pub fn unterminated(&self) -> (r: bool)
        ensures
            r == (self@.len() > 0),
    {
        self.bytes.len() > 0
    }
}

/// Why a line was not read.
#[derive(Debug, Clone, Copy, PartialEq, Eq, Structural)]
pub enum Fault {
    TooLong,
    Unterminated,
    NotUtf8,
}

/// What a fault is answered.
pub open spec fn fault_text(fault: Fault) -> Seq<char> {
    match fault {
        Fault::TooLong => "a line is at most "@ + decimal_of(MAX_LINE_BYTES as nat) + " bytes"@,
        Fault::Unterminated => "the last line does not end in a newline"@,
        Fault::NotUtf8 => "the line is not utf-8"@,
    }
}

/// What a fault is answered: the client is owed the reason.
pub fn fault_reply(fault: Fault) -> (r: Response)
    ensures
        r is Error,
        r->message@ == fault_text(fault),
{
    let message = match fault {
        Fault::TooLong => {
            let mut out = copy("a line is at most ");
            out.append(decimal(MAX_LINE_BYTES as u64).as_str());
            out.append(" bytes");
            out
        },
        Fault::Unterminated => copy("the last line does not end in a newline"),
        Fault::NotUtf8 => copy("the line is not utf-8"),
    };
    Response::Error { message }
}

/// The text of a line.
pub fn line_text(line: Vec<u8>) -> (r: Result<String, Fault>)
    ensures
        match r {
            Ok(text) => valid_utf8(line@) && text@ == decode_utf8(line@),
            Err(fault) => !valid_utf8(line@) && fault == Fault::NotUtf8,
        },
{
    match text_from_utf8(line) {
        Some(text) => Ok(text),
        None => Err(Fault::NotUtf8),
    }
}

/// How much of an offending text is quoted back, in characters.
pub const QUOTED_CHARS: usize = 4000;

/// A text cut off behind a number of characters.
pub open spec fn clipped(s: Seq<char>, n: nat) -> Seq<char> {
    if s.len() <= n {
        s
    } else {
        s.take(n as int) + "…"@
    }
}

fn clip(s: &str, n: usize) -> (r: String)
    ensures
        r@ == clipped(s@, n as nat),
{
    let all = chars_of(s);
    if all.len() <= n {
        copy(s)
    } else {
        let mut out = text_of(vstd::slice::slice_subrange(all.as_slice(), 0, n));
        assert(out@ =~= s@.take(n as int));
        out.append("…");
        out
    }
}

/// What a line that cannot be decoded is answered.
pub open spec fn undecodable_text(line: Seq<char>, err: Seq<char>) -> Seq<char> {
    "cannot decode "@ + clipped(quoted_text(line), QUOTED_CHARS as nat) + ": "@ + clipped(
        err,
        QUOTED_CHARS as nat,
    )
}

/// What a line that cannot be decoded is answered. Both the line and the reason
/// are cut off, so that the answer fits in a line.
pub fn undecodable(line: &str, err: &str) -> (r: Response)
    ensures
        r is Error,
        r->message@ == undecodable_text(line@, err@),
{
    let mut message = copy("cannot decode ");
    message.append(clip(quoted(line).as_str(), QUOTED_CHARS).as_str());
    message.append(": ");
    message.append(clip(err, QUOTED_CHARS).as_str());
    Response::Error { message }
}

/// How many bytes a character takes in a JSON string.
pub open spec fn json_cost(c: char) -> nat {
    let n = c as u32;
    if n == 0x22 || n == 0x5c || n == 8 || n == 9 || n == 10 || n == 12 || n == 13 {
        2
    } else if n < 0x20 {
        6
    } else if n < 0x80 {
        1
    } else if n < 0x800 {
        2
    } else if n < 0x10000 {
        3
    } else {
        4
    }
}

/// How many bytes a text takes in a JSON string.
pub open spec fn json_bytes(s: Seq<char>) -> nat
    decreases s.len(),
{
    if s.len() == 0 {
        0
    } else {
        json_bytes(s.drop_last()) + json_cost(s.last())
    }
}

/// How many bytes an error takes on the wire, `{"Error":{"message":"…"}}` and its
/// newline.
pub open spec fn error_line_bytes(message: Seq<char>) -> nat {
    "{\"Error\":{\"message\":\""@.len() + json_bytes(message) + "\"}}\n"@.len()
}

/// What a greeting in another version of the protocol is answered.
pub open spec fn version_text(version: u32) -> Seq<char> {
    "protocol version "@ + decimal_of(version as nat) + " is not supported; bzbd speaks "@
        + decimal_of(PROTOCOL_VERSION as nat)
}

/// What a first line that is no greeting is answered, for a reason.
pub open spec fn no_hello_text(err: Seq<char>) -> Seq<char> {
    "expected {\"hello\": <version>} first: "@ + clipped(err, QUOTED_CHARS as nat)
}

/// What is answered to a client's first line.
#[derive(Debug)]
pub enum Greeting {
    /// The conversation goes on.
    Welcome,
    /// This is answered, and the connection closed.
    Refuse(Response),
}

/// What is answered to a client's first line, or to one that is no greeting, for
/// a reason.
pub fn greet(hello: Result<Hello, String>) -> (r: Greeting)
    ensures
        match hello {
            Ok(h) => if h.hello == PROTOCOL_VERSION {
                r is Welcome
            } else {
                r is Refuse && r->Refuse_0 is Error && r->Refuse_0->message@ == version_text(
                    h.hello,
                )
            },
            Err(err) => r is Refuse && r->Refuse_0 is Error && r->Refuse_0->message@
                == no_hello_text(err@),
        },
{
    match hello {
        Ok(h) => {
            if h.hello == PROTOCOL_VERSION {
                return Greeting::Welcome;
            }
            let mut message = copy("protocol version ");
            message.append(decimal(h.hello as u64).as_str());
            message.append(" is not supported; bzbd speaks ");
            message.append(decimal(PROTOCOL_VERSION as u64).as_str());
            Greeting::Refuse(Response::Error { message })
        },
        Err(err) => {
            let mut message = copy("expected {\"hello\": <version>} first: ");
            message.append(clip(err.as_str(), QUOTED_CHARS).as_str());
            Greeting::Refuse(Response::Error { message })
        },
    }
}

/// The answer to a ping, and to a greeting that is welcome.
pub fn pong(version: &str, pid: u32) -> (r: Response)
    ensures
        r is Pong,
        r->version@ == version@,
        r->pid == pid,
{
    Response::Pong { version: copy(version), pid }
}

/// What a line of a greeted client comes to.
#[derive(Debug)]
pub enum Turn {
    /// It is answered at once.
    Reply(Response),
    /// The state of the pool is asked for.
    Status,
    /// A lease is asked for; what happens to it is streamed from then on.
    Submit(LeaseRequest),
    /// The lease of that id is to end.
    Cancel(u64),
    /// The configuration is to be read again.
    Reload,
}

/// What a line of a greeted client comes to, given what it decodes to. One that
/// decodes to nothing is answered with an error, and the conversation goes on.
pub fn turn(line: &str, request: Result<Request, String>, version: &str, pid: u32) -> (r: Turn)
    ensures
        match request {
            Ok(Request::Ping) => r is Reply && r->Reply_0 is Pong && r->Reply_0->version@
                == version@ && r->Reply_0->pid == pid,
            Ok(Request::Status) => r is Status,
            Ok(Request::Submit(lease)) => r == Turn::Submit(lease),
            Ok(Request::Cancel { lease }) => r == Turn::Cancel(lease),
            Ok(Request::ConfigReload) => r is Reload,
            Err(err) => r is Reply && r->Reply_0 is Error && r->Reply_0->message@
                == undecodable_text(line@, err@),
        },
{
    match request {
        Ok(Request::Ping) => Turn::Reply(pong(version, pid)),
        Ok(Request::Status) => Turn::Status,
        Ok(Request::Submit(lease)) => Turn::Submit(lease),
        Ok(Request::Cancel { lease }) => Turn::Cancel(lease),
        Ok(Request::ConfigReload) => Turn::Reload,
        Err(err) => Turn::Reply(undecodable(line, err.as_str())),
    }
}

/// What a cancellation is answered.
pub fn cancel_reply(lease: u64, known: bool) -> (r: Response)
    ensures
        if known {
            r is Ack
        } else {
            r is Error && r->message@ == "there is no lease "@ + decimal_of(lease as nat)
        },
{
    if known {
        Response::Ack
    } else {
        let mut message = copy("there is no lease ");
        message.append(decimal(lease).as_str());
        Response::Error { message }
    }
}

/// What a reload is answered, and what the daemon runs on from then on: the file
/// that was read, or what it had, where the file was refused.
pub fn reload(current: Config, loaded: Result<Config, BusybeeError>) -> (r: (Config, Response))
    ensures
        match loaded {
            Ok(config) => r.0 == config && r.1 == (Response::ConfigReloaded {
                pool_size: config.pool_size,
                max_concurrent: config.max_concurrent,
                drain_deadline_ms: config.drain_deadline_ms,
            }),
            Err(err) => r.0 == current && r.1 is Error && r.1->message@ == error_text(err)
                + "; still running on pool_size "@ + decimal_of(current.pool_size as nat),
        },
{
    match loaded {
        Ok(config) => {
            let reply = Response::ConfigReloaded {
                pool_size: config.pool_size,
                max_concurrent: config.max_concurrent,
                drain_deadline_ms: config.drain_deadline_ms,
            };
            (config, reply)
        },
        Err(err) => {
            let mut message = err.message();
            message.append("; still running on pool_size ");
            message.append(decimal(current.pool_size as u64).as_str());
            (current, Response::Error { message })
        },
    }
}

/// What a client makes of the answer to its greeting; `shown` is the answer as it
/// is shown.
pub fn greeted(answer: Option<Response>, shown: &str) -> (r: Result<(), BusybeeError>)
    ensures
        match answer {
            Some(Response::Pong { .. }) => r is Ok,
            Some(Response::Error { message }) => r is Err && r->Err_0 is DaemonUnreachable
                && r->Err_0->context@ == "bzbd rejected the handshake: "@ + message@,
            Some(_) => r is Err && r->Err_0 is Protocol && r->Err_0->Protocol_0@
                == "expected a pong after the handshake, got "@ + shown@,
            None => r is Err && r->Err_0 is DaemonUnreachable && r->Err_0->context@
                == "bzbd closed the connection"@,
        },
{
    match answer {
        Some(Response::Pong { .. }) => Ok(()),
        Some(Response::Error { message }) => {
            let mut context = copy("bzbd rejected the handshake: ");
            context.append(message.as_str());
            Err(BusybeeError::DaemonUnreachable { context })
        },
        Some(_) => {
            let mut text = copy("expected a pong after the handshake, got ");
            text.append(shown);
            Err(BusybeeError::Protocol(text))
        },
        None => Err(
            BusybeeError::DaemonUnreachable { context: copy("bzbd closed the connection") },
        ),
    }
}

/// What a client makes of what it reads of a lease: the next event, or nothing once
/// the daemon closed the connection.
pub fn next_event(answer: Option<Response>, shown: &str) -> (r: Result<
    Option<LeaseEvent>,
    BusybeeError,
>)
    ensures
        match answer {
            None => r == Ok::<Option<LeaseEvent>, BusybeeError>(None),
            Some(Response::Event(event)) => r == Ok::<_, BusybeeError>(Some(event)),
            Some(Response::Error { message }) => r == Err::<Option<LeaseEvent>, _>(
                BusybeeError::Rejected(message),
            ),
            Some(_) => r is Err && r->Err_0 is Protocol && r->Err_0->Protocol_0@
                == "expected an event, got "@ + shown@,
        },
{
    match answer {
        None => Ok(None),
        Some(Response::Event(event)) => Ok(Some(event)),
        Some(Response::Error { message }) => Err(BusybeeError::Rejected(message)),
        Some(_) => {
            let mut text = copy("expected an event, got ");
            text.append(shown);
            Err(BusybeeError::Protocol(text))
        },
    }
}

/// The first argument that the daemon does not know.
pub open spec fn first_unknown(args: Seq<String>) -> Option<Seq<char>>
    decreases args.len(),
{
    if args.len() == 0 {
        None
    } else if args[0]@ == "--foreground"@ {
        first_unknown(args.skip(1))
    } else {
        Some(args[0]@)
    }
}

/// Whether the daemon is to stay in the foreground; an unknown argument is an
/// error.
pub fn parse_args(args: &[String]) -> (r: Result<bool, String>)
    ensures
        match first_unknown(args@) {
            None => r == Ok::<_, String>(args@.len() > 0),
            Some(other) => r is Err && r->Err_0@ == "unknown argument "@ + quoted_text(other)
                + " (usage: bzbd [--foreground])"@,
        },
{
    let mut i: usize = 0;
    assert(args@.skip(0) =~= args@);
    while i < args.len()
        invariant
            i <= args@.len(),
            first_unknown(args@) == first_unknown(args@.skip(i as int)),
        decreases args@.len() - i,
    {
        if !same(args[i].as_str(), "--foreground") {
            let mut out = copy("unknown argument ");
            out.append(quoted(args[i].as_str()).as_str());
            out.append(" (usage: bzbd [--foreground])");
            return Err(out);
        }
        assert(args@.skip(i as int).skip(1) =~= args@.skip(i + 1));
        i = i + 1;
    }
    Ok(args.len() > 0)
}

/// A line that is in front of a reader stays there when more arrives.
pub proof fn law_more_bytes_keep_the_line(bytes: Seq<u8>, more: Seq<u8>)
    requires
        frame_in(bytes) is Line,
    ensures
        frame_in(bytes + more) == frame_in(bytes),
        rest_of(bytes + more) == rest_of(bytes) + more,
{
    lemma_newline_is(bytes);
    let p = newline_in(bytes) as int;
    let all = bytes + more;
    assert forall|j: int| 0 <= j < p implies (#[trigger] all[j]) != 10 by {
        assert(all[j] == bytes[j]);
    }
    assert(all[p] == bytes[p]);
    lemma_newline(all, p);
    assert(all.take(p) =~= bytes.take(p));
    assert(rest_of(all) =~= rest_of(bytes) + more);
}

/// A line that is written with its newline is read back, but for a carriage return at
/// its end, and what follows it is left.
pub proof fn law_a_written_line_is_read_back(line: Seq<u8>, rest: Seq<u8>)
    requires
        line.len() < MAX_LINE_BYTES,
        forall|i: int| 0 <= i < line.len() ==> (#[trigger] line[i]) != 10,
    ensures
        frame_in(line.push(10) + rest) == Framed::Line(bare(line)),
        line.len() == 0 || line.last() != 13 ==> bare(line) == line,
        rest_of(line.push(10) + rest) == rest,
{
    let all = line.push(10) + rest;
    assert forall|j: int| 0 <= j < line.len() implies (#[trigger] all[j]) != 10 by {
        assert(all[j] == line[j]);
    }
    lemma_newline(all, line.len() as int);
    assert(all.take(line.len() as int) =~= line);
    assert(all.skip(line.len() as int + 1) =~= rest);
}

/// A reader never waits with more than a line's worth of bytes.
pub proof fn law_a_reader_holds_no_more_than_a_line(bytes: Seq<u8>)
    ensures
        frame_in(bytes) is Wait ==> bytes.len() <= MAX_LINE_BYTES,
        frame_in(bytes) matches Framed::Line(line) ==> line.len() < MAX_LINE_BYTES,
{
    lemma_newline_is(bytes);
}

proof fn lemma_json_bytes(s: Seq<char>)
    ensures
        json_bytes(s) <= 6 * s.len(),
    decreases s.len(),
{
    if s.len() > 0 {
        lemma_json_bytes(s.drop_last());
    }
}

proof fn lemma_decimal_len(n: nat, k: nat)
    requires
        k >= 1,
        n < vstd::arithmetic::power::pow(10, k),
    ensures
        decimal_of(n).len() <= k,
    decreases k,
{
    vstd::arithmetic::power::lemma_pow1(10);
    if n >= 10 {
        if k == 1 {
            assert(false);
        } else {
            let m = (k - 1) as nat;
            vstd::arithmetic::power::lemma_pow_adds(10, 1, m);
            assert(vstd::arithmetic::power::pow(10, k) == 10 * vstd::arithmetic::power::pow(
                10,
                m,
            ));
            assert(n / 10 < vstd::arithmetic::power::pow(10, m));
            lemma_decimal_len(n / 10, m);
        }
    }
}

/// What a refused line is answered fits in a line, however long what it quotes: the
/// answer to a line that cannot be decoded, to a first line that is no greeting or one
/// in another version, and to a line that cannot be read.
pub proof fn law_the_answer_to_a_refused_line_fits(
    line: Seq<char>,
    err: Seq<char>,
    version: u32,
    fault: Fault,
)
    ensures
        error_line_bytes(undecodable_text(line, err)) <= MAX_LINE_BYTES,
        error_line_bytes(no_hello_text(err)) <= MAX_LINE_BYTES,
        error_line_bytes(version_text(version)) <= MAX_LINE_BYTES,
        error_line_bytes(fault_text(fault)) <= MAX_LINE_BYTES,
{
    reveal_strlit("{\"Error\":{\"message\":\"");
    reveal_strlit("\"}}\n");
    reveal_strlit("cannot decode ");
    reveal_strlit(": ");
    reveal_strlit("…");
    reveal_strlit("expected {\"hello\": <version>} first: ");
    reveal_strlit("protocol version ");
    reveal_strlit(" is not supported; bzbd speaks ");
    reveal_strlit("a line is at most ");
    reveal_strlit(" bytes");
    reveal_strlit("the last line does not end in a newline");
    reveal_strlit("the line is not utf-8");
    assert(u32::MAX < vstd::arithmetic::power::pow(10, 10)) by {
        reveal_with_fuel(vstd::arithmetic::power::pow, 11);
    }
    lemma_decimal_len(version as nat, 10);
    lemma_decimal_len(PROTOCOL_VERSION as nat, 10);
    lemma_decimal_len(MAX_LINE_BYTES as nat, 10);
    assert(undecodable_text(line, err).len() <= 8018);
    lemma_json_bytes(undecodable_text(line, err));
    lemma_json_bytes(no_hello_text(err));
    lemma_json_bytes(version_text(version));
    lemma_json_bytes(fault_text(fault));
}

/// A clipped text is the text where that is short enough, and else its beginning
/// with an ellipsis behind it.
pub proof fn law_a_clipped_text_begins_as_it_did(s: Seq<char>, n: nat)
    ensures
        s.len() <= n ==> clipped(s, n) == s,
        s.len() > n ==> clipped(s, n).len() == n + 1 && clipped(s, n).take(n as int) == s.take(
            n as int,
        ) && clipped(s, n).last() == '…',
{
    reveal_strlit("…");
    if s.len() > n {
        assert(clipped(s, n).take(n as int) =~= s.take(n as int));
    }
}

/// The daemon knows one argument, which may be given any number of times; the first
/// other one is the one complained of.
pub proof fn law_the_first_unknown_argument_is_named(args: Seq<String>)
    ensures
        match first_unknown(args) {
            None => forall|i: int| 0 <= i < args.len() ==> (#[trigger] args[i])@ == "--foreground"@,
            Some(other) => exists|i: int|
                0 <= i < args.len() && (#[trigger] args[i])@ == other && other != "--foreground"@
                    && forall|j: int| 0 <= j < i ==> (#[trigger] args[j])@ == "--foreground"@,
        },
    decreases args.len(),
{
    if args.len() > 0 {
        let rest = args.skip(1);
        law_the_first_unknown_argument_is_named(rest);
        if args[0]@ == "--foreground"@ {
            match first_unknown(args) {
                None => {
                    assert forall|i: int| 0 <= i < args.len() implies (#[trigger] args[i])@
                        == "--foreground"@ by {
                        if i > 0 {
                            assert(rest[i - 1] == args[i]);
                        }
                    }
                },
                Some(other) => {
                    let i = choose|i: int|
                        0 <= i < rest.len() && (#[trigger] rest[i])@ == other && other
                            != "--foreground"@ && forall|j: int|
                            0 <= j < i ==> (#[trigger] rest[j])@ == "--foreground"@;
                    assert(args[i + 1] == rest[i]);
                    assert forall|j: int| 0 <= j < i + 1 implies (#[trigger] args[j])@
                        == "--foreground"@ by {
                        if j > 0 {
                            assert(rest[j - 1] == args[j]);
                        }
                    }
                },
            }
        } else {
            assert(args[0]@ == first_unknown(args)->0);
        }
    }
}

/// What does not fit the line is too long, whatever follows; what may still become a
/// line is waited for.
pub proof fn law_a_line_is_too_long_or_waited_for(bytes: Seq<u8>)
    requires
        forall|i: int| 0 <= i < bytes.len() ==> (#[trigger] bytes[i]) != 10,
    ensures
        bytes.len() > 65536 ==> frame_in(bytes) is TooLong,
        bytes.len() <= 65536 ==> frame_in(bytes) is Wait,
        rest_of(bytes) == bytes,
{
    lemma_no_newline(bytes);
}

proof fn lemma_no_newline(bytes: Seq<u8>)
    requires
        forall|i: int| 0 <= i < bytes.len() ==> (#[trigger] bytes[i]) != 10,
    ensures
        newline_in(bytes) == bytes.len(),
    decreases bytes.len(),
{
    if bytes.len() > 0 {
        assert(bytes[0] != 10);
        assert forall|i: int| 0 <= i < bytes.skip(1).len() implies (#[trigger] bytes.skip(1)[i])
            != 10 by {
            assert(bytes[i + 1] != 10);
        }
        lemma_no_newline(bytes.skip(1));
    }
}

} // verus!
