//! The machine-wide pool of tokens: a named pipe that holds one byte for each.
//!
//! A build joins it through `MAKEFLAGS`. Every participant may run one job without
//! a token; before any further job it reads a byte, and when that job exits it
//! writes the byte back. Only the count matters. Here stand the decisions; the pipe
//! itself is opened, read and written outside.

use vstd::prelude::*;
use vstd::string::*;

use crate::cpu::spaces;
use crate::text::{chars_of, copy, decimal, join_path, quoted};

#[allow(unused_imports)]
use crate::cpu::is_space;
#[allow(unused_imports)]
use crate::recovery::{law_a_fifo_names_its_process, pid_of};
#[allow(unused_imports)]
use crate::text::{decimal_of, quoted_text, under};

verus! {

/// The smallest capacity of a pipe, in bytes: every token has to fit at once.
pub const MAX_POOL: u32 = 4096;

/// Whether a text holds a character that `MAKEFLAGS` is split at.
pub open spec fn has_space(s: Seq<char>) -> bool {
    exists|i: int| 0 <= i < s.len() && is_space(#[trigger] s[i])
}

/// The pipe of a process.
pub open spec fn fifo_in(dir: Seq<char>, pid: u32) -> Seq<char> {
    under(dir, "jobserver-"@ + decimal_of(pid as nat))
}

/// Where the pipe for a pool is created, or why it cannot be: the pipe would not
/// hold the pool, or `MAKEFLAGS` could not carry its path.
pub fn fifo_path(dir: &str, pid: u32, pool_size: u32) -> (r: Result<String, String>)
    ensures
        ({
            let path = fifo_in(dir@, pid);
            if pool_size > MAX_POOL {
                r is Err && r->Err_0@ == "pool_size "@ + decimal_of(pool_size as nat)
                    + " exceeds the "@ + decimal_of(MAX_POOL as nat) + "-byte pipe capacity"@
            } else if has_space(path) {
                r is Err && r->Err_0@ == quoted_text(path)
                    + " holds whitespace, which MAKEFLAGS cannot carry"@
            } else {
                r is Ok && r->Ok_0@ == path
            }
        }),
{
    if pool_size > MAX_POOL {
        let mut out = copy("pool_size ");
        out.append(decimal(pool_size as u64).as_str());
        out.append(" exceeds the ");
        out.append(decimal(MAX_POOL as u64).as_str());
        out.append("-byte pipe capacity");
        return Err(out);
    }
    let mut name = copy("jobserver-");
    name.append(decimal(pid as u64).as_str());
    let path = join_path(dir, name.as_str());
    let chars = chars_of(path.as_str());
    let mut i: usize = 0;
    while i < chars.len()
        invariant
            chars@ == path@,
            path@ == fifo_in(dir@, pid),
            pool_size <= MAX_POOL,
            i <= chars@.len(),
            forall|j: int| 0 <= j < i ==> !is_space(#[trigger] chars@[j]),
        decreases chars@.len() - i,
    {
        if spaces(chars[i]) {
            assert(is_space(path@[i as int]));
            let mut out = quoted(path.as_str());
            out.append(" holds whitespace, which MAKEFLAGS cannot carry");
            return Err(out);
        }
        i = i + 1;
    }
    Ok(path)
}

/// The `MAKEFLAGS` value with which a build joins the pool.
pub fn makeflags_value(path: &str) -> (r: String)
    ensures
        r@ == "--jobserver-auth=fifo:"@ + path@,
{
    let mut out = copy("--jobserver-auth=fifo:");
    out.append(path);
    out
}

/// What a read of the pipe came to.
#[derive(Debug, Clone, Copy, PartialEq, Eq, Structural)]
pub enum Read {
    /// The end of the file, although a writer is held open.
    Eof,
    /// So many tokens.
    Got(u32),
    /// A signal came first.
    Interrupted,
    /// The pipe is empty.
    WouldBlock,
}

/// What a drain does next.
#[derive(Debug, Clone, Copy, PartialEq, Eq, Structural)]
pub enum Next {
    /// Read up to so many tokens.
    Read(u32),
    /// Wait up to so many milliseconds for the pipe, then read up to so many tokens.
    Poll { timeout_ms: i32, tokens: u32 },
    /// It took so many tokens.
    Done(u32),
    /// The pipe is broken.
    Broken,
}

/// Tokens being taken out of the pool.
#[derive(Debug, Clone, Copy, PartialEq, Eq, Structural)]
pub struct Drain {
    pub wanted: u32,
    pub got: u32,
}

/// How long to wait, rounded up to whole milliseconds.
pub open spec fn wait_for(micros: nat) -> nat {
    let ms = (micros + 999) / 1000;
    if ms > i32::MAX {
        i32::MAX as nat
    } else {
        ms
    }
}

impl Drain {
    /// What holds of every drain.
    pub open spec fn wf(self) -> bool {
        self.got <= self.wanted
    }

    /// What comes next, when nothing is known of the pipe.
    pub open spec fn going_on(self) -> Next {
        if self.got == self.wanted {
            Next::Done(self.got)
        } else {
            Next::Read((self.wanted - self.got) as u32)
        }
    }

    /// Takes up to `wanted` tokens.
    pub fn start(wanted: u32) -> (r: (Self, Next))
        ensures
            r.0 == (Drain { wanted, got: 0 }),
            r.0.wf(),
            r.1 == r.0.going_on(),
    {
        let d = Drain { wanted, got: 0 };
        if wanted == 0 {
            (d, Next::Done(0))
        } else {
            (d, Next::Read(wanted))
        }
    }

    /// A read came to something; `left_us` microseconds are left.
    pub fn read(&mut self, read: Read, left_us: u64) -> (r: Next)
        requires
            old(self).wf(),
            read matches Read::Got(n) ==> n <= old(self).wanted - old(self).got,
        ensures
            final(self).wf(),
            final(self).wanted == old(self).wanted,
            final(self).got == match read {
                Read::Got(n) => old(self).got + n,
                _ => old(self).got as int,
            },
            r == match read {
                Read::Eof => Next::Broken,
                Read::Got(_) | Read::Interrupted => final(self).going_on(),
                Read::WouldBlock => if left_us == 0 {
                    Next::Done(final(self).got)
                } else {
                    Next::Poll {
                        timeout_ms: wait_for(left_us as nat) as i32,
                        tokens: (final(self).wanted - final(self).got) as u32,
                    }
                },
            },
    {
        match read {
            Read::Eof => {
                return Next::Broken;
            },
            Read::Got(n) => {
                self.got = self.got + n;
            },
            Read::Interrupted => {},
            Read::WouldBlock => {
                if left_us == 0 {
                    return Next::Done(self.got);
                }
                let ms: u64 = left_us / 1000 + if left_us % 1000 == 0 {
                    0
                } else {
                    1
                };
                let capped: u64 = if ms > 0x7fff_ffff {
                    0x7fff_ffff
                } else {
                    ms
                };
                assert(ms == (left_us + 999) / 1000);
                return Next::Poll { timeout_ms: capped as i32, tokens: self.wanted - self.got };
            },
        }
        if self.got == self.wanted {
            Next::Done(self.got)
        } else {
            Next::Read(self.wanted - self.got)
        }
    }
}

/// Tokens in the pipe above what is expected there.
pub fn excess(free: u32, expected_free: u32) -> (r: u32)
    ensures
        r == if free > expected_free {
            free - expected_free
        } else {
            0
        },
{
    free.saturating_sub(expected_free)
}

/// A wait is the least whole number of milliseconds that is no shorter than what is
/// left, up to the longest that can be waited.
pub proof fn law_a_wait_is_no_shorter_than_what_is_left(micros: nat)
    ensures
        wait_for(micros) <= i32::MAX,
        wait_for(micros) < i32::MAX ==> wait_for(micros) * 1000 >= micros,
        wait_for(micros) > 0 && wait_for(micros) < i32::MAX ==> (wait_for(micros) - 1) * 1000
            < micros,
        micros > 0 ==> wait_for(micros) > 0,
{
}

/// A drain goes on until it has what it wants: it is done exactly there, and asks
/// for the rest before.
pub proof fn law_a_drain_goes_on_until_it_has_enough(d: Drain)
    requires
        d.wf(),
    ensures
        d.got == d.wanted ==> d.going_on() == Next::Done(d.wanted),
        d.got < d.wanted ==> (d.going_on() matches Next::Read(more) && d.got + more == d.wanted),
{
}

/// The fifo of a daemon is told by its name again: it names the process it belongs
/// to, in whatever directory it stands.
pub proof fn law_a_fifo_is_recognised_by_its_name(dir: Seq<char>, pid: u32)
    ensures
        pid_of(fifo_in(dir, pid)) == Some(pid as nat),
{
    let name = "jobserver-"@ + decimal_of(pid as nat);
    let front = if dir.len() > 0 && dir.last() != '/' {
        dir.push('/')
    } else {
        dir
    };
    law_a_fifo_names_its_process(front, pid);
    assert(front + "jobserver-"@ + decimal_of(pid as nat) =~= front + name);
}

} // verus!
