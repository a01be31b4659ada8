//! A thread and what belongs to it.
//!
//! What threads share is kept in tables and named here by number.

use vstd::prelude::*;

use super::context::TaskContext;
use crate::errno::Errno;
use crate::process::scheduler::runqueue::SchedTask;
use crate::process::signal::delivery::TaskSignals;
use crate::process::signal::state::Signal;

verus! {

/// The other stack of a thread, as it was asked for.
#[derive(Clone, Copy, Debug, PartialEq, Eq, Structural)]
pub struct SignalAltStackState {
    pub sp: u64,
    pub size: u64,
    pub flags: u32,
}

/// A thread: its number, the number of its process, and the first thread of that.
pub struct TaskStruct {
    pub pid: u64,
    pub tgid: u64,
    pub group_leader: u64,
    pub inner: TaskStructInner,
}

/// What changes of a thread.
pub struct TaskStructInner {
    pub nsproxy: u64,
    /// Where the registers of the program are kept.
    pub trap_ctx: u64,
    /// The registers of the kernel.
    pub task_ctx: TaskContext,
    pub kernel_stack: u64,
    /// Who made the process.
    pub real_parent: Option<u64>,
    /// Who is told when the process ends.
    pub parent: Option<u64>,
    pub children: Vec<u64>,
    pub pgid: u64,
    pub sid: u64,
    pub exit_state: i64,
    pub exit_code: i32,
    /// The signal that the parent is sent when the process ends.
    pub exit_signal: i32,
    pub flags: u32,
    pub errno: i32,
    pub oom_score_adj: i32,
    pub sched: SchedTask,
    pub sched_priority: i32,
    pub static_prio: i32,
    pub normal_prio: i32,
    pub mm: Option<u64>,
    pub fs: u64,
    pub files: u64,
    pub exe_path: Vec<u8>,
    pub signal: u64,
    /// Held while another program is loaded.
    pub exec_update_lock: u64,
    pub signal_hand: u64,
    pub signals: TaskSignals,
    pub cred: u64,
    pub real_cred: u64,
    pub start_time: u64,
    pub start_boottime: u64,
    /// A word of the program that is cleared when the thread ends.
    pub clear_child_tid: u64,
    /// What the parent waits for.
    pub vfork_completion: Option<u64>,
    pub personality: u64,
    pub locked_bytes: u64,
    pub comm: [u8; 10],
}

impl TaskStruct {
    /// Nothing but the children differs.
    pub open spec fn only_children_differ(&self, other: &TaskStruct) -> bool {
        *self == (TaskStruct {
            inner: TaskStructInner { children: self.inner.children, ..other.inner },
            ..*other
        })
    }

    /// Returns the number of the process.
    pub fn getpid(&self) -> (pid: u64)
        ensures
            pid == self.tgid,
    {
        self.tgid
    }

    /// Returns the number of the process.
    pub fn gettgid(&self) -> (tgid: u64)
        ensures
            tgid == self.tgid,
    {
        self.tgid
    }

    /// Returns the number of the thread.
    pub fn gettid(&self) -> (tid: u64)
        ensures
            tid == self.pid,
    {
        self.pid
    }

    /// Returns the address space that the thread asks to change; one of the kernel has none.
    pub fn user_mm(&self) -> (mm: Result<u64, Errno>)
        ensures
            mm == match self.inner.mm {
                Some(handle) => Ok::<u64, Errno>(handle),
                None => Err::<u64, Errno>(Errno::EINVAL),
            },
    {
        match self.inner.mm {
            Some(handle) => Ok(handle),
            None => Err(Errno::EINVAL),
        }
    }

    /// Returns how many files the threads of a process may have open.
    pub fn nofile_limit(signal: &Signal) -> (limit: u64)
        ensures
            limit == signal.rlimits.nofile.rlim_cur,
    {
        signal.rlimits.nofile.rlim_cur
    }

    /// Returns the class and the priority of the thread.
    pub fn get_policy_and_priority(&self) -> (result: (i64, i32))
        ensures
            result == (self.inner.sched.policy, self.inner.sched_priority),
    {
        (self.inner.sched.policy, self.inner.sched_priority)
    }
}

} // verus!
