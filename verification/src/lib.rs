//! A queued runner for resource-heavy commands: the decisions of the broker
//! daemon, of its client and of its monitor, each stated as a contract and
//! proved.

pub mod accounting;
pub mod admission;
pub mod classify;
pub mod cli;
pub mod client;
pub mod config;
pub mod conversation;
pub mod cpu;
pub mod daemon;
pub mod document;
pub mod enqueue;
pub mod env;
pub mod errors;
pub mod exit_code;
pub mod gauge;
pub mod harness;
pub mod inject;
pub mod jobserver;
pub mod leases;
pub mod ledger;
pub mod lifecycle;
pub mod log;
pub mod nest;
pub mod panel;
pub mod pool;
pub mod protocol;
pub mod pueue;
pub mod reading;
pub mod recognition;
pub mod recovery;
pub mod report;
pub mod scheduler;
pub mod status;
pub mod table;
pub mod text;
pub mod version_parse;
pub mod wait;
