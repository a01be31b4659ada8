//! The states of a task.

use vstd::prelude::*;

verus! {

/// What a task is doing.
#[derive(Clone, Copy, Debug, PartialEq, Eq, Structural)]
pub enum TaskStatus {
    /// It is being made.
    UnInit,
    /// It can run.
    Ready,
    /// It runs.
    Running,
    /// It waits.
    Blocked,
    /// It has ended.
    Zombie,
    /// It is in a waiting queue, and its registers are being saved.
    BlockSaving,
}

/// The name of a state.
pub open spec fn status_name(status: TaskStatus) -> Seq<char> {
    match status {
        TaskStatus::UnInit => "UnInit"@,
        TaskStatus::Ready => "Ready"@,
        TaskStatus::Running => "Running"@,
        TaskStatus::Blocked => "Blocked"@,
        TaskStatus::Zombie => "Zombie"@,
        TaskStatus::BlockSaving => "BlockSaving"@,
    }
}

impl TaskStatus {
    /// Returns the name of the state.
    pub fn name(&self) -> (name: &'static str)
        ensures
            name@ == status_name(*self),
    {
        match self {
            TaskStatus::UnInit => "UnInit",
            TaskStatus::Ready => "Ready",
            TaskStatus::Running => "Running",
            TaskStatus::Blocked => "Blocked",
            TaskStatus::Zombie => "Zombie",
            TaskStatus::BlockSaving => "BlockSaving",
        }
    }
}

} // verus!
