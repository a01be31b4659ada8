//! A thread that makes another: what the two share, and what the new one gets of its own.

use vstd::prelude::*;

use super::context::TaskContext;
use super::sched::{SchedDlEntity, SchedEntity, SchedRtEntity};
use super::status::TaskStatus;
use super::tcb::{TaskStruct, TaskStructInner};
use crate::errno::Errno;
use crate::process::scheduler::runqueue::SchedTask;
use crate::process::signal::delivery::TaskSignals;
use crate::process::signal::frame::{no_alt_stack, SignalAltStack, TrapRegs};

verus! {

/// The bits of the signal that the parent is sent.
pub const CSIGNAL: u64 = 0xff;

/// The memory is shared.
pub const CLONE_VM: u64 = 0x100;

/// The directories are shared.
pub const CLONE_FS: u64 = 0x200;

/// The open files are shared.
pub const CLONE_FILES: u64 = 0x400;

/// The answers to signals are shared.
pub const CLONE_SIGHAND: u64 = 0x800;

/// The parent waits until the child has loaded a program or has ended.
pub const CLONE_VFORK: u64 = 0x4000;

/// The child is a thread of the same process.
pub const CLONE_THREAD: u64 = 0x1_0000;

/// The thread pointer of the child is given.
pub const CLONE_SETTLS: u64 = 0x8_0000;

/// The number of the child is written for the parent.
pub const CLONE_PARENT_SETTID: u64 = 0x10_0000;

/// A word of the child is cleared when it ends.
pub const CLONE_CHILD_CLEARTID: u64 = 0x20_0000;

/// The number of the child is written for the child.
pub const CLONE_CHILD_SETTID: u64 = 0x100_0000;

/// The child has the usual answers to signals.
pub const CLONE_CLEAR_SIGHAND: u64 = 0x1_0000_0000;

/// What is asked for.
#[derive(Clone, Copy, Debug, PartialEq, Eq, Structural)]
pub struct CloneArgs {
    pub flags: u64,
    /// The stack of the child; zero for the address that the parent uses.
    pub stack: u64,
    pub ptid: u64,
    pub ctid: u64,
    pub tls: u64,
}

/// A flag is set.
pub open spec fn flag(flags: u64, mask: u64) -> bool {
    flags & mask != 0
}

/// What the child gets of the answers to signals.
#[derive(Clone, Copy, Debug, PartialEq, Eq, Structural)]
pub enum HandPlan {
    Fresh,
    Shared,
    Copied,
}

/// What parent and child share, and what is to be done besides.
#[derive(Clone, Copy, Debug, PartialEq, Eq, Structural)]
pub struct ClonePlan {
    pub thread: bool,
    pub share_mm: bool,
    pub share_fs: bool,
    pub share_files: bool,
    pub hand: HandPlan,
    pub set_tls: bool,
    pub write_parent_tid: bool,
    pub write_child_tid: bool,
    pub clear_child_tid: bool,
    /// The other stack is not kept.
    pub drop_alt_stack: bool,
    pub vfork: bool,
}

/// The plan that the flags ask for.
pub open spec fn plan_of(flags: u64) -> ClonePlan {
    ClonePlan {
        thread: flag(flags, CLONE_THREAD),
        share_mm: flag(flags, CLONE_VM),
        share_fs: flag(flags, CLONE_FS),
        share_files: flag(flags, CLONE_FILES),
        hand: if flag(flags, CLONE_CLEAR_SIGHAND) {
            HandPlan::Fresh
        } else if flag(flags, CLONE_SIGHAND) {
            HandPlan::Shared
        } else {
            HandPlan::Copied
        },
        set_tls: flag(flags, CLONE_SETTLS),
        write_parent_tid: flag(flags, CLONE_PARENT_SETTID),
        write_child_tid: flag(flags, CLONE_CHILD_SETTID),
        clear_child_tid: flag(flags, CLONE_CHILD_CLEARTID),
        drop_alt_stack: flag(flags, CLONE_VM) && !flag(flags, CLONE_VFORK),
        vfork: flag(flags, CLONE_VFORK),
    }
}

/// Reads the flags.
pub fn clone_plan(flags: u64) -> (plan: ClonePlan)
    ensures
        plan == plan_of(flags),
{
    ClonePlan {
        thread: flags & CLONE_THREAD != 0,
        share_mm: flags & CLONE_VM != 0,
        share_fs: flags & CLONE_FS != 0,
        share_files: flags & CLONE_FILES != 0,
        hand: if flags & CLONE_CLEAR_SIGHAND != 0 {
            HandPlan::Fresh
        } else if flags & CLONE_SIGHAND != 0 {
            HandPlan::Shared
        } else {
            HandPlan::Copied
        },
        set_tls: flags & CLONE_SETTLS != 0,
        write_parent_tid: flags & CLONE_PARENT_SETTID != 0,
        write_child_tid: flags & CLONE_CHILD_SETTID != 0,
        clear_child_tid: flags & CLONE_CHILD_CLEARTID != 0,
        drop_alt_stack: flags & CLONE_VM != 0 && flags & CLONE_VFORK == 0,
        vfork: flags & CLONE_VFORK != 0,
    }
}

/// Numbers for what the child gets of its own.
#[derive(Clone, Copy, Debug, PartialEq, Eq, Structural)]
pub struct NewIds {
    pub pid: u64,
    pub kernel_stack: u64,
    pub trap_ctx: u64,
    pub mm: u64,
    pub fs: u64,
    pub files: u64,
    pub signal_hand: u64,
    pub signal: u64,
    pub cred: u64,
    pub real_cred: u64,
    pub exec_update_lock: u64,
    pub vfork_completion: u64,
}

/// Why a child cannot be made.
pub open spec fn clone_refused(
    has_mm: bool,
    args: CloneArgs,
    ptid_writable: bool,
    ctid_writable: bool,
    exec_lock_free: bool,
) -> Option<Errno> {
    let plan = plan_of(args.flags);
    if !has_mm {
        Some(Errno::EINVAL)
    } else if plan.write_parent_tid && (args.ptid == 0 || !ptid_writable) {
        Some(Errno::EFAULT)
    } else if (plan.write_child_tid || plan.clear_child_tid) && (args.ctid == 0 || !ctid_writable) {
        Some(Errno::EFAULT)
    } else if plan.thread && !exec_lock_free {
        Some(Errno::EAGAIN)
    } else {
        None
    }
}

/// The fair share of the child: it has not run.
pub open spec fn child_se(se: SchedEntity) -> SchedEntity {
    SchedEntity { exec_start: 0, sum_exec_runtime: 0, prev_sum_exec_runtime: 0, ..se }
}

/// The deadline of the child: its period has not started.
pub open spec fn child_dl(dl: SchedDlEntity) -> SchedDlEntity {
    SchedDlEntity {
        remaining_runtime: dl.runtime,
        absolute_deadline: u64::MAX,
        throttled: false,
        ..dl
    }
}

/// What scheduling knows of the child.
pub open spec fn child_sched(parent: SchedTask, pid: u64) -> SchedTask {
    SchedTask {
        tid: pid,
        state: TaskStatus::Ready,
        policy: parent.policy,
        prio: parent.prio,
        se: child_se(parent.se),
        rt: SchedRtEntity { time_slice: 0, ..parent.rt },
        dl: child_dl(parent.dl),
        on_rq: false,
        on_cpu: false,
        cpu: parent.cpu,
        cpus_allowed: parent.cpus_allowed,
        on_main_hart: false,
        wake_pending: false,
        wake_source_cpu: None,
        need_resched: false,
    }
}

/// The signals of the child: it has its parent's mask and no signals.
pub open spec fn child_signals(parent: TaskSignals, child: TaskSignals, plan: ClonePlan) -> bool {
    &&& child.is_idle()
    &&& child.blocked == parent.blocked
    &&& child.pending.signals.bits == 0
    &&& child.pending.queue@.len() == 0
    &&& !child.pending.wait_chldexit
    &&& child.signal_alt_stack == if plan.drop_alt_stack {
        no_alt_stack()
    } else {
        parent.signal_alt_stack
    }
}

/// A child as its parent and the request make it.
pub open spec fn cloned(
    parent: TaskStruct,
    child: TaskStruct,
    args: CloneArgs,
    ids: NewIds,
    trap_return: u64,
    now: u64,
) -> bool {
    let plan = plan_of(args.flags);
    let p = parent.inner;
    let c = child.inner;
    &&& child.pid == ids.pid
    &&& child.tgid == if plan.thread {
        parent.tgid
    } else {
        ids.pid
    }
    &&& child.group_leader == if plan.thread {
        parent.group_leader
    } else {
        ids.pid
    }
    &&& c.nsproxy == p.nsproxy
    &&& c.trap_ctx == ids.trap_ctx
    &&& c.task_ctx.ra == trap_return
    &&& c.task_ctx.sp == ids.trap_ctx
    &&& c.kernel_stack == ids.kernel_stack
    &&& c.real_parent == if plan.thread {
        p.real_parent
    } else {
        Some(parent.pid)
    }
    &&& c.parent == if plan.thread {
        p.parent
    } else {
        Some(parent.pid)
    }
    &&& c.children@.len() == 0
    &&& c.pgid == p.pgid
    &&& c.sid == p.sid
    &&& c.exit_state == 0
    &&& c.exit_code == 0
    &&& c.exit_signal == (args.flags & CSIGNAL) as i32
    &&& c.flags == 0
    &&& c.errno == 0
    &&& c.oom_score_adj == p.oom_score_adj
    &&& c.sched == child_sched(p.sched, ids.pid)
    &&& c.sched_priority == p.sched_priority
    &&& c.static_prio == p.static_prio
    &&& c.normal_prio == p.normal_prio
    &&& c.mm == if plan.share_mm {
        p.mm
    } else {
        Some(ids.mm)
    }
    &&& c.fs == if plan.share_fs {
        p.fs
    } else {
        ids.fs
    }
    &&& c.files == if plan.share_files {
        p.files
    } else {
        ids.files
    }
    &&& c.exe_path@ == p.exe_path@
    &&& c.signal == if plan.thread {
        p.signal
    } else {
        ids.signal
    }
    &&& c.exec_update_lock == if plan.thread {
        p.exec_update_lock
    } else {
        ids.exec_update_lock
    }
    &&& c.signal_hand == if plan.hand == HandPlan::Shared {
        p.signal_hand
    } else {
        ids.signal_hand
    }
    &&& child_signals(p.signals, c.signals, plan)
    &&& c.cred == if plan.thread {
        p.cred
    } else {
        ids.cred
    }
    &&& c.real_cred == if plan.thread {
        p.real_cred
    } else {
        ids.real_cred
    }
    &&& c.start_time == now
    &&& c.start_boottime == now
    &&& c.clear_child_tid == if plan.clear_child_tid {
        args.ctid
    } else {
        0
    }
    &&& c.vfork_completion == if plan.vfork {
        Some(ids.vfork_completion)
    } else {
        None
    }
    &&& c.personality == p.personality
    &&& c.locked_bytes == p.locked_bytes
    &&& c.comm == p.comm
}

/// The registers of the child: those of the parent, but that the call returns zero,
/// with the stack and the thread pointer that were asked for.
pub open spec fn child_regs(parent: TrapRegs, args: CloneArgs) -> Seq<u64> {
    let with_stack = if args.stack != 0 {
        parent.x@.update(2, args.stack)
    } else {
        parent.x@
    };
    let with_tls = if flag(args.flags, CLONE_SETTLS) {
        with_stack.update(4, args.tls)
    } else {
        with_stack
    };
    with_tls.update(10, 0)
}

/// Returns the registers of the child.
fn make_regs(parent: &TrapRegs, args: CloneArgs) -> (regs: TrapRegs)
    ensures
        regs.pc == parent.pc,
        regs.x@ == child_regs(*parent, args),
{
    let mut x: [u64; 32] = parent.x;
    if args.stack != 0 {
        x[2] = args.stack;
    }
    if args.flags & CLONE_SETTLS != 0 {
        x[4] = args.tls;
    }
    x[10] = 0;
    TrapRegs { x, pc: parent.pc }
}

/// Returns what scheduling knows of the child.
fn make_sched(parent: &SchedTask, pid: u64) -> (sched: SchedTask)
    ensures
        sched == child_sched(*parent, pid),
{
    let mut sched = *parent;
    sched.tid = pid;
    sched.state = TaskStatus::Ready;
    sched.se.exec_start = 0;
    sched.se.sum_exec_runtime = 0;
    sched.se.prev_sum_exec_runtime = 0;
    sched.rt.time_slice = 0;
    sched.dl.remaining_runtime = sched.dl.runtime;
    sched.dl.absolute_deadline = u64::MAX;
    sched.dl.throttled = false;
    sched.on_rq = false;
    sched.on_cpu = false;
    sched.on_main_hart = false;
    sched.wake_pending = false;
    sched.wake_source_cpu = None;
    sched.need_resched = false;
    sched
}

/// Returns the signals of the child.
fn make_signals(parent: &TaskSignals, plan: ClonePlan) -> (signals: TaskSignals)
    ensures
        child_signals(*parent, signals, plan),
{
    let mut signals = TaskSignals::new();
    signals.blocked = parent.blocked;
    signals.signal_alt_stack = if plan.drop_alt_stack {
        SignalAltStack::default()
    } else {
        parent.signal_alt_stack
    };
    signals
}

impl TaskStruct {
    /// Makes a child, or tells why not. Whether the words for the numbers can be written,
    /// and whether no program is being loaded, is given.
    pub fn do_clone(
        &self,
        args: CloneArgs,
        regs: &TrapRegs,
        ptid_writable: bool,
        ctid_writable: bool,
        exec_lock_free: bool,
        ids: NewIds,
        trap_return: u64,
        now: u64,
    ) -> (result: Result<(TaskStruct, TrapRegs, ClonePlan), Errno>)
        ensures
            match clone_refused(
                self.inner.mm is Some,
                args,
                ptid_writable,
                ctid_writable,
                exec_lock_free,
            ) {
                Some(errno) => result == Err::<(TaskStruct, TrapRegs, ClonePlan), Errno>(errno),
                None => result matches Ok((child, child_registers, plan)) && cloned(
                    *self,
                    child,
                    args,
                    ids,
                    trap_return,
                    now,
                ) && child_registers.pc == regs.pc && child_registers.x@ == child_regs(*regs, args)
                    && plan == plan_of(args.flags),
            },
    {
        let plan = clone_plan(args.flags);
        if self.inner.mm.is_none() {
            return Err(Errno::EINVAL);
        }
        if plan.write_parent_tid && (args.ptid == 0 || !ptid_writable) {
            return Err(Errno::EFAULT);
        }
        if (plan.write_child_tid || plan.clear_child_tid) && (args.ctid == 0 || !ctid_writable) {
            return Err(Errno::EFAULT);
        }
        if plan.thread && !exec_lock_free {
            return Err(Errno::EAGAIN);
        }
        let p = &self.inner;
        let exit_signal: u64 = args.flags & CSIGNAL;
        proof {
            let flags = args.flags;
            assert(flags & 0xff <= 0xff) by (bit_vector);
        }
        let child = TaskStruct {
            pid: ids.pid,
            tgid: if plan.thread {
                self.tgid
            } else {
                ids.pid
            },
            group_leader: if plan.thread {
                self.group_leader
            } else {
                ids.pid
            },
            inner: TaskStructInner {
                nsproxy: p.nsproxy,
                trap_ctx: ids.trap_ctx,
                task_ctx: TaskContext::goto_trap_return(trap_return, ids.trap_ctx),
                kernel_stack: ids.kernel_stack,
                real_parent: if plan.thread {
                    p.real_parent
                } else {
                    Some(self.pid)
                },
                parent: if plan.thread {
                    p.parent
                } else {
                    Some(self.pid)
                },
                children: Vec::new(),
                pgid: p.pgid,
                sid: p.sid,
                exit_state: 0,
                exit_code: 0,
                exit_signal: exit_signal as i32,
                flags: 0,
                errno: 0,
                oom_score_adj: p.oom_score_adj,
                sched: make_sched(&p.sched, ids.pid),
                sched_priority: p.sched_priority,
                static_prio: p.static_prio,
                normal_prio: p.normal_prio,
                mm: if plan.share_mm {
                    p.mm
                } else {
                    Some(ids.mm)
                },
                fs: if plan.share_fs {
                    p.fs
                } else {
                    ids.fs
                },
                files: if plan.share_files {
                    p.files
                } else {
                    ids.files
                },
                exe_path: p.exe_path.clone(),
                signal: if plan.thread {
                    p.signal
                } else {
                    ids.signal
                },
                exec_update_lock: if plan.thread {
                    p.exec_update_lock
                } else {
                    ids.exec_update_lock
                },
                signal_hand: if plan.hand == HandPlan::Shared {
                    p.signal_hand
                } else {
                    ids.signal_hand
                },
                signals: make_signals(&p.signals, plan),
                cred: if plan.thread {
                    p.cred
                } else {
                    ids.cred
                },
                real_cred: if plan.thread {
                    p.real_cred
                } else {
                    ids.real_cred
                },
                start_time: now,
                start_boottime: now,
                clear_child_tid: if plan.clear_child_tid {
                    args.ctid
                } else {
                    0
                },
                vfork_completion: if plan.vfork {
                    Some(ids.vfork_completion)
                } else {
                    None
                },
                personality: p.personality,
                locked_bytes: p.locked_bytes,
                comm: p.comm,
            },
        };
        Ok((child, make_regs(regs, args), plan))
    }

    /// Takes the child in, once its number was to be written: a process is a child of the
    /// parent, a thread is not. Returns what the parent gets.
    pub fn adopt_child(
        &mut self,
        child: u64,
        plan: ClonePlan,
        parent_tid_written: bool,
        child_tid_written: bool,
    ) -> (result: Result<u64, Errno>)
        ensures
            final(self).only_children_differ(old(self)),
            match result {
                Err(errno) => {
                    &&& errno == Errno::EFAULT
                    &&& (plan.write_parent_tid && !parent_tid_written) || (plan.write_child_tid
                        && !child_tid_written)
                    &&& *final(self) == *old(self)
                },
                Ok(pid) => {
                    &&& pid == child
                    &&& !(plan.write_parent_tid && !parent_tid_written)
                    &&& !(plan.write_child_tid && !child_tid_written)
                    &&& final(self).inner.children@ == if plan.thread {
                        old(self).inner.children@
                    } else {
                        old(self).inner.children@.push(child)
                    }
                },
            },
    {
        if plan.write_parent_tid && !parent_tid_written {
            return Err(Errno::EFAULT);
        }
        if plan.write_child_tid && !child_tid_written {
            return Err(Errno::EFAULT);
        }
        if !plan.thread {
            self.inner.children.push(child);
        }
        Ok(child)
    }
}

/// A thread has the number of its process, and shares the signals, the credentials and
/// the parent with the one that made it.
pub proof fn law_thread_shares(
    parent: TaskStruct,
    child: TaskStruct,
    args: CloneArgs,
    ids: NewIds,
    trap_return: u64,
    now: u64,
)
    requires
        cloned(parent, child, args, ids, trap_return, now),
        flag(args.flags, CLONE_THREAD),
    ensures
        child.tgid == parent.tgid,
        child.group_leader == parent.group_leader,
        child.inner.signal == parent.inner.signal,
        child.inner.cred == parent.inner.cred,
        child.inner.parent == parent.inner.parent,
{
}

/// A process that is made without sharing has everything of its own, so that what it
/// changes does not reach the parent.
pub proof fn law_process_is_separate(
    parent: TaskStruct,
    child: TaskStruct,
    args: CloneArgs,
    ids: NewIds,
    trap_return: u64,
    now: u64,
)
    requires
        cloned(parent, child, args, ids, trap_return, now),
        !flag(args.flags, CLONE_THREAD),
        !flag(args.flags, CLONE_VM),
        !flag(args.flags, CLONE_FS),
        !flag(args.flags, CLONE_FILES),
        !flag(args.flags, CLONE_SIGHAND),
        parent.inner.mm != Some(ids.mm),
        parent.inner.fs != ids.fs,
        parent.inner.files != ids.files,
        parent.inner.signal_hand != ids.signal_hand,
        parent.inner.signal != ids.signal,
        parent.inner.cred != ids.cred,
        parent.inner.real_cred != ids.real_cred,
    ensures
        child.tgid == child.pid,
        child.inner.parent == Some(parent.pid),
        child.inner.mm != parent.inner.mm,
        child.inner.fs != parent.inner.fs,
        child.inner.files != parent.inner.files,
        child.inner.signal_hand != parent.inner.signal_hand,
        child.inner.signal != parent.inner.signal,
        child.inner.cred != parent.inner.cred,
        child.inner.real_cred != parent.inner.real_cred,
{
}

/// The call returns zero in the child, and the stack is the one that was asked for.
pub proof fn law_child_returns_zero(regs: TrapRegs, args: CloneArgs)
    ensures
        child_regs(regs, args)[10] == 0,
        args.stack != 0 ==> child_regs(regs, args)[2] == args.stack,
        args.stack == 0 ==> child_regs(regs, args)[2] == regs.x@[2],
        flag(args.flags, CLONE_SETTLS) ==> child_regs(regs, args)[4] == args.tls,
        forall|i: int|
            0 <= i < 32 && i != 2 && i != 4 && i != 10 ==> #[trigger] child_regs(regs, args)[i]
                == regs.x@[i],
{
}

} // verus!
