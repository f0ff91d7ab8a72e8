//! What pueued's answers mean.

use vstd::prelude::*;
use vstd::string::*;

use crate::errors::BusybeeError;
use crate::text::{contains, copy, to_lowercase};

#[allow(unused_imports)]
use crate::text::{includes, lowercased};

verus! {

/// How many tasks pueued itself may start in the group: none, since admission is
/// the daemon's decision.
pub const GROUP_PARALLEL: usize = 0;

/// An answer of pueued's.
#[derive(Debug, PartialEq, Eq)]
pub enum Reply {
    /// The request was carried out; how pueued puts it.
    Success(String),
    /// It was not, for this reason.
    Failure(String),
    /// A task was added under this id; how pueued puts it.
    Added(usize, String),
    /// Anything else, as pueued puts it.
    Other(String),
}

/// What to do about the group.
#[derive(Debug, Clone, Copy, PartialEq, Eq, Structural)]
pub enum GroupStep {
    /// It is as it should be.
    Keep,
    /// Its limit was changed by hand, and is put back.
    Enforce,
    /// It does not exist yet.
    Create,
}

/// What to do about the group, by the limit it has, if it exists.
pub fn group_step(existing_parallel: Option<usize>) -> (r: GroupStep)
    ensures
        r == match existing_parallel {
            Some(n) => if n == GROUP_PARALLEL {
                GroupStep::Keep
            } else {
                GroupStep::Enforce
            },
            None => GroupStep::Create,
        },
{
    match existing_parallel {
        Some(n) => if n == GROUP_PARALLEL {
            GroupStep::Keep
        } else {
            GroupStep::Enforce
        },
        None => GroupStep::Create,
    }
}

/// Whether the answer to creating the group means that it exists: it was created,
/// or somebody else was first.
pub fn group_created(reply: Reply) -> (r: Result<(), BusybeeError>)
    ensures
        match reply {
            Reply::Success(_) => r is Ok,
            Reply::Failure(m) => if includes(lowercased(m@), "already"@) {
                r is Ok
            } else {
                r == Err::<(), _>(BusybeeError::EnqueueRejected(m))
            },
            Reply::Added(_, what) | Reply::Other(what) => r == Err::<(), _>(
                BusybeeError::UnexpectedResponse(what),
            ),
        },
{
    match reply {
        Reply::Success(_) => Ok(()),
        Reply::Failure(m) => {
            if contains(to_lowercase(m.as_str()).as_str(), "already") {
                Ok(())
            } else {
                Err(BusybeeError::EnqueueRejected(m))
            }
        },
        Reply::Added(_, what) | Reply::Other(what) => Err(BusybeeError::UnexpectedResponse(what)),
    }
}

/// The id that an added task was given.
pub fn added_task(reply: Reply) -> (r: Result<usize, BusybeeError>)
    ensures
        match reply {
            Reply::Added(id, _) => r == Ok::<_, BusybeeError>(id),
            Reply::Failure(m) => r == Err::<usize, _>(BusybeeError::EnqueueRejected(m)),
            Reply::Success(what) | Reply::Other(what) => r == Err::<usize, _>(
                BusybeeError::UnexpectedResponse(what),
            ),
        },
{
    match reply {
        Reply::Added(id, _) => Ok(id),
        Reply::Failure(m) => Err(BusybeeError::EnqueueRejected(m)),
        Reply::Success(what) | Reply::Other(what) => Err(BusybeeError::UnexpectedResponse(what)),
    }
}

/// Whether a signal was delivered. A refusal is not: the task may still be there.
pub fn signal_delivered(reply: Reply) -> (r: Result<(), BusybeeError>)
    ensures
        match reply {
            Reply::Success(_) => r is Ok,
            Reply::Failure(m) => r == Err::<(), _>(BusybeeError::EnqueueRejected(m)),
            Reply::Added(_, what) | Reply::Other(what) => r == Err::<(), _>(
                BusybeeError::UnexpectedResponse(what),
            ),
        },
{
    match reply {
        Reply::Success(_) => Ok(()),
        Reply::Failure(m) => Err(BusybeeError::EnqueueRejected(m)),
        Reply::Added(_, what) | Reply::Other(what) => Err(BusybeeError::UnexpectedResponse(what)),
    }
}

/// What comes of a failure to talk to pueued.
pub fn io(e: &str) -> (r: BusybeeError)
    ensures
        r is Other,
        r->Other_0@ == "pueue-lib io: "@ + e@,
{
    let mut text = copy("pueue-lib io: ");
    text.append(e);
    BusybeeError::Other(text)
}

/// What a client does after an attempt to reach a daemon that was started.
#[derive(Debug, Clone, Copy, PartialEq, Eq, Structural)]
pub enum ConnectStep {
    /// It is connected.
    Connected,
    /// It waits a moment and tries again.
    Retry,
    /// It gives up.
    GiveUp,
}

/// How long a daemon has to come up, in milliseconds.
pub const SPAWN_DEADLINE_MS: u64 = 3000;

/// What to do after an attempt to reach a daemon that was started, `elapsed_ms`
/// after it was.
pub fn connect_step(connected: bool, elapsed_ms: u64) -> (r: ConnectStep)
    ensures
        r == if connected {
            ConnectStep::Connected
        } else if elapsed_ms >= SPAWN_DEADLINE_MS {
            ConnectStep::GiveUp
        } else {
            ConnectStep::Retry
        },
{
    if connected {
        ConnectStep::Connected
    } else if elapsed_ms >= SPAWN_DEADLINE_MS {
        ConnectStep::GiveUp
    } else {
        ConnectStep::Retry
    }
}

} // verus!
