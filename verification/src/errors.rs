//! What can go wrong, how it reads and what the process exits with.

use vstd::prelude::*;
use vstd::string::*;

use crate::text::{copy, decimal};

#[allow(unused_imports)]
use crate::text::decimal_of;

verus! {

#[derive(Debug, PartialEq, Eq)]
pub enum BusybeeError {
    /// Raised for both daemons, so `context` names the one that failed.
    DaemonUnreachable { context: String },
    /// pueued refused a request.
    EnqueueRejected(String),
    /// bzbd refused a request.
    Rejected(String),
    /// Reading from or writing to a daemon failed.
    Network(String),
    /// A task ended with an error of its own.
    TaskErrored { task_id: usize, message: String },
    /// pueued answered with something else.
    UnexpectedResponse(String),
    /// bzbd said something that is not the protocol.
    Protocol(String),
    Other(String),
}

/// An error, mathematically.
pub enum ErrorView {
    DaemonUnreachable { context: Seq<char> },
    EnqueueRejected(Seq<char>),
    Rejected(Seq<char>),
    Network(Seq<char>),
    TaskErrored { task_id: usize, message: Seq<char> },
    UnexpectedResponse(Seq<char>),
    Protocol(Seq<char>),
    Other(Seq<char>),
}

impl View for BusybeeError {
    type V = ErrorView;

    open spec fn view(&self) -> ErrorView {
        match *self {
            BusybeeError::DaemonUnreachable { context } => ErrorView::DaemonUnreachable {
                context: context@,
            },
            BusybeeError::EnqueueRejected(m) => ErrorView::EnqueueRejected(m@),
            BusybeeError::Rejected(m) => ErrorView::Rejected(m@),
            BusybeeError::Network(m) => ErrorView::Network(m@),
            BusybeeError::TaskErrored { task_id, message } => ErrorView::TaskErrored {
                task_id,
                message: message@,
            },
            BusybeeError::UnexpectedResponse(m) => ErrorView::UnexpectedResponse(m@),
            BusybeeError::Protocol(m) => ErrorView::Protocol(m@),
            BusybeeError::Other(m) => ErrorView::Other(m@),
        }
    }
}

/// How an error reads.
pub open spec fn error_text(err: BusybeeError) -> Seq<char> {
    match err {
        BusybeeError::DaemonUnreachable { context } => context@,
        BusybeeError::EnqueueRejected(m) => "pueued rejected our request: "@ + m@,
        BusybeeError::Rejected(m) => "bzbd rejected our request: "@ + m@,
        BusybeeError::Network(m) => "pueue-lib I/O error: "@ + m@,
        BusybeeError::TaskErrored { task_id, message } => "task "@ + decimal_of(task_id as nat)
            + " finished with error: "@ + message@,
        BusybeeError::UnexpectedResponse(m) => "unexpected response from pueued: "@ + m@,
        BusybeeError::Protocol(m) => "bzbd protocol error: "@ + m@,
        BusybeeError::Other(m) => m@,
    }
}

fn prefixed(head: &str, tail: &str) -> (r: String)
    ensures
        r@ == head@ + tail@,
{
    let mut out = copy(head);
    out.append(tail);
    out
}

impl BusybeeError {
    /// How the error reads.
    pub fn message(&self) -> (r: String)
        ensures
            r@ == error_text(*self),
    {
        match self {
            BusybeeError::DaemonUnreachable { context } => context.clone(),
            BusybeeError::EnqueueRejected(m) => prefixed(
                "pueued rejected our request: ",
                m.as_str(),
            ),
            BusybeeError::Rejected(m) => prefixed("bzbd rejected our request: ", m.as_str()),
            BusybeeError::Network(m) => prefixed("pueue-lib I/O error: ", m.as_str()),
            BusybeeError::TaskErrored { task_id, message } => {
                let mut out = prefixed("task ", decimal(*task_id as u64).as_str());
                out.append(" finished with error: ");
                out.append(message.as_str());
                out
            },
            BusybeeError::UnexpectedResponse(m) => prefixed(
                "unexpected response from pueued: ",
                m.as_str(),
            ),
            BusybeeError::Protocol(m) => prefixed("bzbd protocol error: ", m.as_str()),
            BusybeeError::Other(m) => m.clone(),
        }
    }
}

/// The process exit code for an error: 2 where a daemon could not be reached or
/// refused the request, 1 otherwise.
pub fn exit_code_for(err: &BusybeeError) -> (r: i32)
    ensures
        r == match *err {
            BusybeeError::DaemonUnreachable { .. } | BusybeeError::EnqueueRejected(_)
            | BusybeeError::Rejected(_) => 2i32,
            _ => 1i32,
        },
{
    match err {
        BusybeeError::DaemonUnreachable { .. } | BusybeeError::EnqueueRejected(_)
        | BusybeeError::Rejected(_) => 2,
        _ => 1,
    }
}

} // verus!
