//! What a client exits with once its task is done.

use vstd::prelude::*;

verus! {

/// How a task ended.
#[derive(Debug, Clone, PartialEq, Eq)]
pub enum TaskResult {
    Success,
    /// It exited with this code.
    Failed(i32),
    /// It could not be started, for this reason.
    FailedToSpawn(String),
    /// It was killed by a signal.
    Killed,
    /// pueued lost track of it.
    Errored,
    /// A task it depends on failed.
    DependencyFailed,
}

/// The exit code for a result: the task's own; 130 where it was killed, as after
/// an interrupt; 127 where it could not be started, as for a command that is not
/// found; 1 otherwise.
pub open spec fn exit_code_of(result: TaskResult) -> i32 {
    match result {
        TaskResult::Success => 0,
        TaskResult::Failed(code) => code,
        TaskResult::Killed => 130,
        TaskResult::FailedToSpawn(_) => 127,
        TaskResult::Errored | TaskResult::DependencyFailed => 1,
    }
}

/// The exit code with which a client relays a task's end.
pub fn task_result_to_exit_code(result: &TaskResult) -> (r: i32)
    ensures
        r == exit_code_of(*result),
{
    match result {
        TaskResult::Success => 0,
        TaskResult::Failed(code) => *code,
        TaskResult::Killed => 130,
        TaskResult::FailedToSpawn(_) => 127,
        TaskResult::Errored | TaskResult::DependencyFailed => 1,
    }
}

} // verus!
