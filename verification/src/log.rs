//! A task's output, read from pueued a piece at a time.

use vstd::prelude::*;
use vstd::string::*;

use crate::errors::BusybeeError;
use crate::text::copy;

#[allow(unused_imports)]
use crate::errors::{error_text, ErrorView};

verus! {

/// What bytes in snappy's framed format decode to, or why they do not.
pub uninterp spec fn snappy_decoded(bytes: Seq<u8>) -> Result<Seq<u8>, Seq<char>>;

/// `snap::read::FrameDecoder`, read to its end: the bytes that the frames in
/// `bytes` decode to, or the text of the error that ends them. Both depend on
/// the bytes alone.
#[verifier::external_body]
pub(crate) fn decode_snappy(bytes: &[u8]) -> (r: Result<Vec<u8>, String>)
    ensures
        match r {
            Ok(plain) => snappy_decoded(bytes@) == Ok::<_, Seq<char>>(plain@),
            Err(e) => snappy_decoded(bytes@) == Err::<Seq<u8>, _>(e@),
        },
{
    let mut out = Vec::new();
    match std::io::Read::read_to_end(&mut snap::read::FrameDecoder::new(bytes), &mut out) {
        Ok(_) => Ok(out),
        Err(e) => Err(e.to_string()),
    }
}

/// The plain text of a compressed log: nothing for nothing, else what the frames
/// decode to.
pub open spec fn plain_of(
    compressed: Seq<u8>,
    decoded: Result<Seq<u8>, Seq<char>>,
) -> Result<Seq<u8>, Seq<char>> {
    if compressed.len() == 0 {
        Ok(Seq::empty())
    } else {
        match decoded {
            Ok(plain) => Ok(plain),
            Err(e) => Err("snappy decode: "@ + e),
        }
    }
}

/// Decompresses a log.
pub fn decompress_snappy_frames(compressed: &[u8]) -> (r: Result<Vec<u8>, BusybeeError>)
    ensures
        ({
            let want = plain_of(compressed@, snappy_decoded(compressed@));
            match r {
                Ok(plain) => want == Ok::<_, Seq<char>>(plain@),
                Err(e) => e is Other && want == Err::<Seq<u8>, _>(error_text(e)),
            }
        }),
{
    if compressed.len() == 0 {
        return Ok(Vec::new());
    }
    match decode_snappy(compressed) {
        Ok(plain) => Ok(plain),
        Err(e) => {
            let mut text = copy("snappy decode: ");
            text.append(e.as_str());
            Err(BusybeeError::Other(text))
        },
    }
}

/// What is new in a log behind `offset`.
pub open spec fn fresh(plain: Seq<u8>, offset: nat) -> Seq<u8> {
    if offset >= plain.len() {
        Seq::empty()
    } else {
        plain.skip(offset as int)
    }
}

/// What is new in a log behind `offset`, and where the log now ends.
pub fn new_output(plain: &[u8], offset: u64) -> (r: (Vec<u8>, u64))
    ensures
        r.0@ == fresh(plain@, offset as nat),
        r.1 == plain@.len(),
{
    let len = plain.len() as u64;
    let mut out: Vec<u8> = Vec::new();
    if offset < len {
        let start = offset as usize;
        let mut i: usize = start;
        while i < plain.len()
            invariant
                start <= i <= plain@.len(),
                out@ == plain@.subrange(start as int, i as int),
            decreases plain@.len() - i,
        {
            out.push(plain[i]);
            i = i + 1;
            assert(plain@.subrange(start as int, i as int) =~= plain@.subrange(
                start as int,
                i - 1,
            ).push(plain@[i - 1]));
        }
        assert(plain@.subrange(start as int, i as int) =~= plain@.skip(start as int));
    }
    (out, len)
}

/// What pueued answered to a request for a task's log.
#[derive(Debug)]
pub enum LogReply {
    /// The task's log, compressed, where there is one.
    Log(Option<Vec<u8>>),
    /// The request failed: the log does not exist yet.
    Failure,
    /// Something else.
    Other(String),
}

/// What a reply adds behind `offset`, and where the log now ends; by what its
/// bytes decode to.
pub open spec fn chunk_of(
    reply: LogReply,
    offset: u64,
    decoded: Result<Seq<u8>, Seq<char>>,
) -> Result<(Seq<u8>, nat), ErrorView> {
    match reply {
        LogReply::Log(Some(bytes)) => match plain_of(bytes@, decoded) {
            Ok(plain) => Ok((fresh(plain, offset as nat), plain.len())),
            Err(e) => Err(ErrorView::Other(e)),
        },
        LogReply::Log(None) | LogReply::Failure => Ok((Seq::empty(), offset as nat)),
        LogReply::Other(what) => Err(ErrorView::UnexpectedResponse(what@)),
    }
}

/// The compressed bytes of a reply.
pub open spec fn reply_bytes(reply: LogReply) -> Seq<u8> {
    match reply {
        LogReply::Log(Some(bytes)) => bytes@,
        _ => Seq::empty(),
    }
}

/// What a reply adds behind `offset`, and where the log now ends. A log that is
/// not there yet adds nothing.
pub fn log_chunk(reply: LogReply, offset: u64) -> (r: Result<(Vec<u8>, u64), BusybeeError>)
    ensures
        ({
            let want = chunk_of(reply, offset, snappy_decoded(reply_bytes(reply)));
            match r {
                Ok(c) => want == Ok::<(Seq<u8>, nat), ErrorView>((c.0@, c.1 as nat)),
                Err(e) => want == Err::<(Seq<u8>, nat), _>(e@),
            }
        }),
{
    match reply {
        LogReply::Log(Some(bytes)) => match decompress_snappy_frames(bytes.as_slice()) {
            Ok(plain) => Ok(new_output(plain.as_slice(), offset)),
            Err(e) => Err(e),
        },
        LogReply::Log(None) | LogReply::Failure => Ok((Vec::new(), offset)),
        LogReply::Other(what) => Err(BusybeeError::UnexpectedResponse(what)),
    }
}

/// Reading on from where the last reading ended misses nothing and repeats
/// nothing, as long as the log only grows.
pub proof fn law_pieces_of_a_growing_log_join_up(first: Seq<u8>, then: Seq<u8>, offset: nat)
    requires
        first.len() <= then.len(),
        then.take(first.len() as int) == first,
        offset <= first.len(),
    ensures
        fresh(first, offset) + fresh(then, first.len()) == fresh(then, offset),
        fresh(then, then.len()) == Seq::<u8>::empty(),
{
    assert forall|i: int| 0 <= i < first.len() implies first[i] == then[i] by {
        assert(then.take(first.len() as int)[i] == then[i]);
    }
    assert(fresh(first, offset) + fresh(then, first.len()) =~= fresh(then, offset));
}

/// What is new in a log is what stands behind the place that was read up to, and
/// the next place is its end; a log that is not there yet has nothing new.
pub proof fn law_what_is_new_stands_behind_the_offset(
    reply: LogReply,
    offset: u64,
    decoded: Result<Seq<u8>, Seq<char>>,
)
    ensures
        reply matches LogReply::Log(Some(bytes)) && bytes@.len() > 0 && decoded is Ok ==> {
            let plain = decoded->Ok_0;
            &&& chunk_of(reply, offset, decoded) matches Ok(c)
            &&& c.1 == plain.len()
            &&& offset <= plain.len() ==> plain.take(offset as int) + c.0 == plain
            &&& offset > plain.len() ==> c.0.len() == 0
        },
        reply matches LogReply::Log(Some(bytes)) && bytes@.len() > 0 && decoded is Err ==> chunk_of(
            reply,
            offset,
            decoded,
        ) is Err,
        reply matches LogReply::Log(Some(bytes)) && bytes@.len() == 0 ==> chunk_of(
            reply,
            offset,
            decoded,
        ) == Ok::<(Seq<u8>, nat), ErrorView>((Seq::empty(), 0)),
        reply is Failure || reply == LogReply::Log(None) ==> chunk_of(reply, offset, decoded)
            == Ok::<(Seq<u8>, nat), ErrorView>((Seq::empty(), offset as nat)),
{
    if let LogReply::Log(Some(bytes)) = reply {
        if bytes@.len() > 0 {
            if let Ok(plain) = decoded {
                if offset <= plain.len() {
                    assert(plain.take(offset as int) + fresh(plain, offset as nat) =~= plain);
                }
            }
        } else {
            assert(fresh(Seq::<u8>::empty(), offset as nat) =~= Seq::<u8>::empty());
        }
    }
}

} // verus!
