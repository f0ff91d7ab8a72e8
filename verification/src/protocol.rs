//! What clients and the daemon say to each other.

use vstd::prelude::*;

use crate::classify::Class;
use crate::env::EnvMap;

verus! {

/// Bumped whenever the types below change incompatibly.
pub const PROTOCOL_VERSION: u32 = 1;

/// The longest line that is read.
pub const MAX_LINE_BYTES: usize = 65536;

/// The client's first line.
#[derive(Debug, Clone, Copy, PartialEq, Eq, Structural)]
pub struct Hello {
    pub hello: u32,
}

#[derive(Debug)]
pub enum Request {
    Ping,
    Status,
    Submit(LeaseRequest),
    Cancel { lease: u64 },
    ConfigReload,
}

#[derive(Debug)]
pub struct LeaseRequest {
    pub argv: Vec<String>,
    pub cwd: String,
    pub env: EnvMap,
    pub label: Option<String>,
    pub class_override: Option<Class>,
    pub cores_wanted: Option<u32>,
    /// Whether the lease outlives the connection that asked for it.
    pub detached: bool,
}

#[derive(Debug)]
pub enum Response {
    Pong { version: String, pid: u32 },
    Status(StatusReply),
    /// Streamed on a submitting connection for the lifetime of the lease.
    Event(LeaseEvent),
    Error { message: String },
    /// A cancellation was carried out.
    Ack,
    /// What the daemon runs on after re-reading its file.
    ConfigReloaded { pool_size: u32, max_concurrent: u32, drain_deadline_ms: u64 },
}

#[derive(Debug)]
pub struct StatusReply {
    pub pool_size: u32,
    pub free: u32,
    pub held: u32,
    pub leases: Vec<LeaseView>,
}

#[derive(Debug)]
pub struct LeaseView {
    pub id: u64,
    pub label: String,
    pub tool: String,
    pub class: String,
    pub cores: u32,
    pub state: String,
    pub elapsed_ms: u64,
    pub ahead: Option<usize>,
    pub pueue_task_id: Option<usize>,
}

#[derive(Debug, PartialEq, Eq)]
pub enum LeaseEvent {
    Queued { id: u64, ahead: usize },
    Notice { text: String },
    Admitted {
        id: u64,
        pueue_task_id: usize,
        class: String,
        cores: u32,
        pool_size: u32,
        peers: usize,
    },
    Finished { id: u64, exit_code: i32 },
}

/// A lease on the wire, mathematically.
#[verifier::ext_equal]
pub struct LeaseRow {
    pub id: u64,
    pub label: Seq<char>,
    pub tool: Seq<char>,
    pub class: Seq<char>,
    pub cores: u32,
    pub state: Seq<char>,
    pub elapsed_ms: u64,
    pub ahead: Option<usize>,
    pub pueue_task_id: Option<usize>,
}

impl View for LeaseView {
    type V = LeaseRow;

    open spec fn view(&self) -> LeaseRow {
        LeaseRow {
            id: self.id,
            label: self.label@,
            tool: self.tool@,
            class: self.class@,
            cores: self.cores,
            state: self.state@,
            elapsed_ms: self.elapsed_ms,
            ahead: self.ahead,
            pueue_task_id: self.pueue_task_id,
        }
    }
}

/// An event, mathematically.
pub enum Told {
    Queued { id: u64, ahead: usize },
    Notice { text: Seq<char> },
    Admitted {
        id: u64,
        pueue_task_id: usize,
        class: Seq<char>,
        cores: u32,
        pool_size: u32,
        peers: usize,
    },
    Finished { id: u64, exit_code: i32 },
}

impl View for LeaseEvent {
    type V = Told;

    open spec fn view(&self) -> Told {
        match *self {
            LeaseEvent::Queued { id, ahead } => Told::Queued { id, ahead },
            LeaseEvent::Notice { text } => Told::Notice { text: text@ },
            LeaseEvent::Admitted { id, pueue_task_id, class, cores, pool_size, peers } => {
                Told::Admitted { id, pueue_task_id, class: class@, cores, pool_size, peers }
            },
            LeaseEvent::Finished { id, exit_code } => Told::Finished { id, exit_code },
        }
    }
}

} // verus!
