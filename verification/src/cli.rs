//! What an invocation asks for.

use vstd::prelude::*;
use vstd::string::*;

use crate::classify::Class;
use crate::recovery::file_name;
use crate::text::copy;

#[allow(unused_imports)]
use crate::recovery::file_name_of;

verus! {

/// What to do with the configuration.
#[derive(Debug, Clone, Copy, PartialEq, Eq, Structural)]
pub enum ConfigAction {
    /// Print it, with every default filled in.
    Show,
    /// Have the running daemon read its file again.
    Reload,
}

/// A subcommand.
#[derive(Debug, Clone, Copy, PartialEq, Eq, Structural)]
pub enum Command {
    /// The live monitor.
    Monitor,
    /// End a lease that nothing else holds.
    Cancel { lease: u64 },
    /// Print the pool and the leases.
    Status { json: bool },
    /// Look at the configuration, or have it read again.
    Config { action: ConfigAction },
}

/// What an invocation amounts to.
#[derive(Debug, Clone, Copy, PartialEq, Eq, Structural)]
pub enum Mode {
    Blocking,
    Detach,
    Monitor,
    Status { json: bool },
    Cancel(u64),
    Config(ConfigAction),
    MissingCommand,
}

/// An invocation.
#[derive(Debug)]
pub struct Cli {
    /// Human-readable label for the task.
    pub name: Option<String>,
    /// Whether to leave as soon as the lease is known.
    pub detach: bool,
    /// Admission class to use instead of the inferred one.
    pub class: Option<Class>,
    /// Cores to hold for a static task.
    pub cores: Option<u32>,
    pub command: Option<Command>,
    /// The command to run.
    pub cmd: Vec<String>,
}

impl Cli {
    /// What the invocation amounts to: its subcommand if it has one, else the
    /// command that it names.
    pub fn mode(&self) -> (r: Mode)
        ensures
            r == match self.command {
                Some(Command::Monitor) => Mode::Monitor,
                Some(Command::Status { json }) => Mode::Status { json },
                Some(Command::Cancel { lease }) => Mode::Cancel(lease),
                Some(Command::Config { action }) => Mode::Config(action),
                None => if self.cmd@.len() == 0 {
                    Mode::MissingCommand
                } else if self.detach {
                    Mode::Detach
                } else {
                    Mode::Blocking
                },
            },
    {
        match self.command {
            Some(Command::Monitor) => Mode::Monitor,
            Some(Command::Status { json }) => Mode::Status { json },
            Some(Command::Cancel { lease }) => Mode::Cancel(lease),
            Some(Command::Config { action }) => Mode::Config(action),
            None => if self.cmd.len() == 0 {
                Mode::MissingCommand
            } else if self.detach {
                Mode::Detach
            } else {
                Mode::Blocking
            },
        }
    }
}

/// The line for an invocation without a command, by the name it was started under.
pub fn missing_command_line(argv0: &str) -> (r: String)
    ensures
        ({
            let prog = match file_name_of(argv0@) {
                Some(name) => name,
                None => "busybee"@,
            };
            r@ == "busybee: no command given. Use `"@ + prog + " -- <cmd> [args...]` or `"@ + prog
                + " monitor`."@
        }),
{
    let prog = match file_name(argv0) {
        Some(name) => name,
        None => copy("busybee"),
    };
    let mut out = copy("busybee: no command given. Use `");
    out.append(prog.as_str());
    out.append(" -- <cmd> [args...]` or `");
    out.append(prog.as_str());
    out.append(" monitor`.");
    out
}

} // verus!
