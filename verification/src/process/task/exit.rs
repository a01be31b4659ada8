//! The end of a thread and of a process.

use vstd::prelude::*;

use super::status::TaskStatus;
use super::tcb::{TaskStruct, TaskStructInner};
use crate::process::registry::{Entry, Registry};
use crate::process::scheduler::runqueue::SchedTask;
use crate::process::signal::delivery::TaskSignals;
use crate::process::signal::flags::{covers, SignalFlags, SIGCHLD};
use crate::process::signal::state::{number_of, Signal, Sigpending};

verus! {

/// The process that has to stay.
pub const IDLE_PID: u64 = 1;

/// What follows the end of a thread.
#[derive(Clone, Copy, Debug, PartialEq, Eq, Structural)]
pub enum ExitNext {
    /// The process that has to stay has ended.
    Halt,
    /// Other threads of the process go on.
    ThreadGone,
    /// The process has ended.
    ProcessGone,
}

/// The process has a thread besides one.
pub open spec fn has_others(threads: Seq<Entry>, pid: u64, tid: u64) -> bool {
    exists|i: int|
        0 <= i < threads.len() && (#[trigger] threads[i]).tgid == pid && threads[i].tid != tid
}

/// What follows the end of a thread.
pub open spec fn next_of(threads: Seq<Entry>, pid: u64, tid: u64) -> ExitNext {
    if pid == IDLE_PID {
        ExitNext::Halt
    } else if has_others(threads, pid, tid) {
        ExitNext::ThreadGone
    } else {
        ExitNext::ProcessGone
    }
}

/// Decides what follows the end of a thread.
pub fn after_exit(registry: &Registry, pid: u64, tid: u64) -> (next: ExitNext)
    ensures
        next == next_of(registry@, pid, tid),
{
    if pid == IDLE_PID {
        return ExitNext::Halt;
    }
    if registry.has_other_thread(pid, tid) {
        ExitNext::ThreadGone
    } else {
        ExitNext::ProcessGone
    }
}

/// A process with another parent.
pub open spec fn child_of(task: TaskStruct, parent: u64) -> TaskStruct {
    TaskStruct {
        inner: TaskStructInner { parent: Some(parent), real_parent: Some(parent), ..task.inner },
        ..task
    }
}

/// A thread that has ended: it has no memory, no files and no signals.
pub open spec fn recycled(
    before: TaskStruct,
    after: TaskStruct,
    exit_code: i32,
    no_files: u64,
) -> bool {
    &&& after.inner.signals.pending.signals.bits == 0
    &&& after.inner.signals.pending.queue@.len() == 0
    &&& after == (TaskStruct {
        inner: TaskStructInner {
            exit_code,
            errno: 0,
            sched: SchedTask { state: TaskStatus::Zombie, ..before.inner.sched },
            signals: TaskSignals {
                pending: after.inner.signals.pending,
                ..before.inner.signals
            },
            mm: None,
            vfork_completion: None,
            files: no_files,
            ..before.inner
        },
        ..before
    })
}

impl TaskStruct {
    /// Gives back what a thread had when it ends: its memory, its files and its signals.
    /// Returns what its parent waits for.
    pub fn recycle_on_exit(&mut self, exit_code: i32, no_files: u64) -> (completion: Option<u64>)
        ensures
            completion == old(self).inner.vfork_completion,
            recycled(*old(self), *final(self), exit_code, no_files),
    {
        let completion = self.inner.vfork_completion;
        self.inner.exit_code = exit_code;
        self.inner.errno = 0;
        self.inner.sched.state = TaskStatus::Zombie;
        self.inner.signals.pending = Sigpending::new();
        self.inner.mm = None;
        self.inner.vfork_completion = None;
        self.inner.files = no_files;
        completion
    }

    /// Hands the children over.
    pub fn take_children(&mut self) -> (orphans: Vec<u64>)
        ensures
            orphans@ == old(self).inner.children@,
            final(self).inner.children@.len() == 0,
            final(self).only_children_differ(old(self)),
    {
        let mut orphans: Vec<u64> = Vec::new();
        std::mem::swap(&mut orphans, &mut self.inner.children);
        orphans
    }

    /// Takes children of a process that has ended in.
    pub fn adopt_orphans(&mut self, orphans: &mut Vec<u64>)
        ensures
            final(self).inner.children@ == old(self).inner.children@ + old(orphans)@,
            final(orphans)@.len() == 0,
            final(self).only_children_differ(old(self)),
    {
        self.inner.children.append(orphans);
    }

    /// Makes another process the parent.
    pub fn set_parent(&mut self, parent: u64)
        ensures
            *final(self) == child_of(*old(self), parent),
    {
        self.inner.parent = Some(parent);
        self.inner.real_parent = Some(parent);
    }
}

/// The group knows that a child of it has ended.
pub open spec fn child_ended(before: Signal, after: Signal) -> bool {
    &&& after.shared_pending.signals.bits == before.shared_pending.signals.bits | SIGCHLD
    &&& after.shared_pending.queue@ == match number_of(SIGCHLD) {
        None => before.shared_pending.queue@,
        Some(n) => before.shared_pending.queue@.push(n),
    }
    &&& after.same_group(&before)
}

/// Tells a process that a child has ended.
pub fn notify_parent(group: &mut Signal)
    ensures
        child_ended(*old(group), *final(group)),
{
    group.insert_pending(SignalFlags { bits: SIGCHLD });
}

/// Tells a thread of the parent; returns whether it is to be woken.
pub fn notify_parent_thread(signals: &mut TaskSignals, state: TaskStatus) -> (wake: bool)
    ensures
        wake == !covers(old(signals).blocked.bits, SIGCHLD),
        *final(signals) == if wake && state == TaskStatus::Blocked {
            TaskSignals { signal_interrupted: true, ..*old(signals) }
        } else {
            *old(signals)
        },
{
    let deliverable: bool = !signals.blocked.contains(SignalFlags { bits: SIGCHLD });
    if deliverable && state == TaskStatus::Blocked {
        signals.signal_interrupted = true;
    }
    deliverable
}

} // verus!
