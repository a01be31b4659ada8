//! A child from the request to its place among the threads that wait for a processor.

use vstd::prelude::*;

use super::clone::{
    child_regs, clone_refused, cloned, flag, plan_of, CloneArgs, ClonePlan, HandPlan,
    NewIds, CLONE_THREAD,
};
use super::cred::Cred;
use super::files::{FileDescriptor, FileDescriptorTable};
use super::task_fs::FsStruct;
use super::tcb::{TaskStruct, TaskStructInner};
use super::vfork::VforkCompletion;
use crate::errno::Errno;
use crate::mm::address::{PhysPageNum, VirtPageNum, VPN_LIMIT};
use crate::mm::memory_set::fork::fork_owed;
use crate::mm::memory_set::kernel_half::{below_kernel, forked_whole, half_forked};
use crate::mm::memory_set::MemorySet;
use crate::mm::phys::PhysMemory;
use crate::process::registry::{Entry, Registry};
use crate::process::scheduler::runqueue::{
    can_queue, known_policy, put_on, task_put, RqArray,
};
use crate::process::signal::action::{default_action, SigHand};
use crate::process::signal::flags::MAX_SIG;
use crate::process::signal::frame::TrapRegs;
use crate::process::signal::state::Signal;

verus! {

/// What a child has of its own; what is not there it shares with its parent.
pub struct ChildObjects {
    pub mm: Option<MemorySet>,
    pub fs: Option<FsStruct>,
    pub files: Option<FileDescriptorTable>,
    pub signal_hand: Option<SigHand>,
    pub signal: Option<Signal>,
    pub cred: Option<(Cred, Cred)>,
    /// What the parent waits for.
    pub vfork_completion: Option<VforkCompletion>,
}

/// A child that was made.
pub struct MadeChild {
    pub task: TaskStruct,
    pub regs: TrapRegs,
    pub plan: ClonePlan,
    pub objects: ChildObjects,
}

/// Why no child was made.
pub enum CloneError {
    /// The request was refused.
    Refused(Errno),
    /// There were not enough frames for its address space; what was made of it comes along.
    NoMemory(Option<MemorySet>),
}

/// What the child has of its own: a copy of what its parent has, but that its answers to
/// signals may be the usual ones and that a process starts without signals.
pub open spec fn objects_made(
    objects: ChildObjects,
    plan: ClonePlan,
    fs: FsStruct,
    files: FileDescriptorTable,
    hand: SigHand,
    signal: Signal,
    cred: Cred,
    real_cred: Cred,
) -> bool {
    &&& objects.mm is Some <==> !plan.share_mm
    &&& objects.fs == if plan.share_fs {
        None
    } else {
        Some(fs)
    }
    &&& match objects.files {
        None => plan.share_files,
        Some(table) => !plan.share_files && table.fds@ == files.fds@ && table.next_fd
            == files.next_fd,
    }
    &&& match (plan.hand, objects.signal_hand) {
        (HandPlan::Shared, None) => true,
        (HandPlan::Copied, Some(own)) => own@ == hand@,
        (HandPlan::Fresh, Some(own)) => own@.len() == MAX_SIG && forall|i: int|
            0 <= i < own@.len() ==> #[trigger] own@[i] == default_action(),
        _ => false,
    }
    &&& match objects.signal {
        None => plan.thread,
        Some(own) => !plan.thread && own.is_fresh(signal.rlimits),
    }
    &&& objects.cred == if plan.thread {
        None
    } else {
        Some((cred, real_cred))
    }
    &&& match objects.vfork_completion {
        None => !plan.vfork,
        Some(completion) => plan.vfork && !completion.done && completion.waiters.queue@.len() == 0,
    }
}

/// Copies a table of descriptors.
fn copy_files(files: &FileDescriptorTable) -> (copy: FileDescriptorTable)
    ensures
        copy.fds@ == files.fds@,
        copy.next_fd == files.next_fd,
{
    let mut fds: Vec<FileDescriptor> = Vec::new();
    let mut i: usize = 0;
    while i < files.fds.len()
        invariant
            i <= files.fds@.len(),
            fds@ == files.fds@.take(i as int),
        decreases files.fds@.len() - i,
    {
        fds.push(files.fds[i]);
        i = i + 1;
        assert(fds@ =~= files.fds@.take(i as int));
    }
    assert(fds@ =~= files.fds@);
    FileDescriptorTable { fds, next_fd: files.next_fd }
}

impl TaskStruct {
    /// Makes a child with what it has of its own, or tells why not.
    ///
    /// A thread is counted among those of its process. Memory that is not shared is copied
    /// when it is written.
    pub fn make_child(
        &self,
        memory: &mut PhysMemory,
        mm: &mut MemorySet,
        signal: &mut Signal,
        fs: &FsStruct,
        files: &FileDescriptorTable,
        hand: &SigHand,
        cred: &Cred,
        real_cred: &Cred,
        args: CloneArgs,
        regs: &TrapRegs,
        ptid_writable: bool,
        ctid_writable: bool,
        exec_lock_free: bool,
        ids: NewIds,
        asid: u64,
        trampoline: (VirtPageNum, PhysPageNum),
        trap_return: u64,
        now: u64,
    ) -> (result: Result<MadeChild, CloneError>)
        requires
            old(mm).wf(old(memory)),
            below_kernel(old(mm)),
            trampoline.0.0 < VPN_LIMIT,
            flag(args.flags, CLONE_THREAD) ==> old(signal).thread_num < usize::MAX,
        ensures
            child_made(*self, old(memory), old(mm), *old(signal), *fs, *files, *hand, *cred, *real_cred, args, *regs, ptid_writable, ctid_writable, exec_lock_free, ids, asid, trampoline, trap_return, now, final(memory), final(mm), *final(signal), result),
    {
        let (task, child_registers, plan) = match self.do_clone(
            args,
            regs,
            ptid_writable,
            ctid_writable,
            exec_lock_free,
            ids,
            trap_return,
            now,
        ) {
            Err(errno) => {
                return Err(CloneError::Refused(errno));
            },
            Ok(made) => made,
        };
        let own_mm: Option<MemorySet> = if plan.share_mm {
            None
        } else {
            match mm.fork_user(memory, asid, trampoline.0, trampoline.1) {
                Err(unfinished) => {
                    return Err(CloneError::NoMemory(unfinished));
                },
                Ok(child) => Some(child),
            }
        };
        let own_signal: Option<Signal> = if plan.thread {
            signal.add_thread();
            None
        } else {
            Some(Signal::fork_from(signal))
        };
        let objects = ChildObjects {
            mm: own_mm,
            fs: if plan.share_fs {
                None
            } else {
                Some(*fs)
            },
            files: if plan.share_files {
                None
            } else {
                Some(copy_files(files))
            },
            signal_hand: match plan.hand {
                HandPlan::Shared => None,
                HandPlan::Copied => Some(*hand),
                HandPlan::Fresh => Some(SigHand::new()),
            },
            signal: own_signal,
            cred: if plan.thread {
                None
            } else {
                Some((*cred, *real_cred))
            },
            vfork_completion: if plan.vfork {
                Some(VforkCompletion::new())
            } else {
                None
            },
        };
        Ok(MadeChild { task, regs: child_registers, plan, objects })
    }

    /// Takes a child in once its number was to be written: it is known, it waits for a
    /// processor, and where it is a process it is a child of its parent. Returns its number.
    pub fn add_child(
        &mut self,
        child: &mut TaskStruct,
        plan: ClonePlan,
        parent_tid_written: bool,
        child_tid_written: bool,
        threads: &mut Registry,
        array: &mut RqArray,
        local_cpu: u64,
    ) -> (result: Result<u64, Errno>)
        requires
            old(threads).wf(),
            old(array).wf(),
            old(array).room(),
            known_policy(old(child).inner.sched.policy),
            local_cpu < old(array).rqs@.len(),
            can_queue(old(child).inner.sched),
        ensures
            child_added(*old(self), *old(child), plan, parent_tid_written, child_tid_written, *old(threads), *old(array), local_cpu, *final(self), *final(child), *final(threads), *final(array), result),
    {
        let pid: u64 = child.pid;
        match self.adopt_child(pid, plan, parent_tid_written, child_tid_written) {
            Err(errno) => Err(errno),
            Ok(pid) => {
                threads.add_task(pid, child.tgid);
                let done: bool = array.add_task_into_pool(&mut child.inner.sched, local_cpu);
                assert(done);
                Ok(pid)
            },
        }
    }
}

/// How a parent, its child, the list of threads and the queues are after the child was to be added.
pub open spec fn child_added(
    before: TaskStruct,
    child: TaskStruct,
    plan: ClonePlan,
    parent_tid_written: bool,
    child_tid_written: bool,
    threads: Registry,
    array: RqArray,
    local_cpu: u64,
    after: TaskStruct,
    child_after: TaskStruct,
    threads_after: Registry,
    array_after: RqArray,
    result: Result<u64, Errno>,
) -> bool {
    &&& threads_after.wf()
    &&& array_after.wf()
    &&& after.only_children_differ(&before)
    &&& if (plan.write_parent_tid && !parent_tid_written) || (plan.write_child_tid
        && !child_tid_written) {
        &&& result == Err::<u64, Errno>(Errno::EFAULT)
        &&& after == before
        &&& child_after == child
        &&& threads_after == threads
        &&& array_after == array
    } else {
        let sched = child.inner.sched;
        let cpu = if sched.cpu < array.rqs@.len() {
            sched.cpu
        } else {
            local_cpu
        };
        &&& result == Ok::<u64, Errno>(child.pid)
        &&& after.inner.children@ == if plan.thread {
            before.inner.children@
        } else {
            before.inner.children@.push(child.pid)
        }
        &&& forall|e: Entry| #[trigger]
            threads_after@.contains(e) <==> e == (Entry {
                tid: child.pid,
                tgid: child.tgid,
            }) || (threads@.contains(e) && e.tid != child.pid)
        &&& put_on(array, array_after, sched, cpu)
        &&& array_after.views@ == array.views@
        &&& child_after == (TaskStruct {
            inner: TaskStructInner { sched: task_put(sched, cpu), ..child.inner },
            ..child
        })
    }
}

/// How memory and signals are after a child was to be made, and what was made.
pub open spec fn child_made(
    parent: TaskStruct,
    memory: &PhysMemory,
    mm: &MemorySet,
    signal: Signal,
    fs: FsStruct,
    files: FileDescriptorTable,
    hand: SigHand,
    cred: Cred,
    real_cred: Cred,
    args: CloneArgs,
    regs: TrapRegs,
    ptid_writable: bool,
    ctid_writable: bool,
    exec_lock_free: bool,
    ids: NewIds,
    asid: u64,
    trampoline: (VirtPageNum, PhysPageNum),
    trap_return: u64,
    now: u64,
    memory_after: &PhysMemory,
    mm_after: &MemorySet,
    signal_after: Signal,
    result: Result<MadeChild, CloneError>,
) -> bool {
    &&& memory_after.wf()
    &&& {
        let plan = plan_of(args.flags);
        let counted = if plan.thread {
            Signal { thread_num: (signal.thread_num + 1) as usize, ..signal }
        } else {
            signal
        };
        match clone_refused(
            parent.inner.mm is Some,
            args,
            ptid_writable,
            ctid_writable,
            exec_lock_free,
        ) {
            Some(errno) => {
                &&& result matches Err(CloneError::Refused(e)) && e == errno
                &&& *memory_after == *memory
                &&& *mm_after == *mm
                &&& signal_after == signal
            },
            None => match result {
                Ok(made) => {
                    &&& made.plan == plan
                    &&& cloned(parent, made.task, args, ids, trap_return, now)
                    &&& made.regs.pc == regs.pc
                    &&& made.regs.x@ == child_regs(regs, args)
                    &&& objects_made(
                        made.objects,
                        plan,
                        fs,
                        files,
                        hand,
                        signal,
                        cred,
                        real_cred,
                    )
                    &&& signal_after == counted
                    &&& match made.objects.mm {
                        None => *mm_after == *mm && *memory_after == *memory,
                        Some(child) => child.number() == asid && forked_whole(
                            mm,
                            memory,
                            mm_after,
                            &child,
                            memory_after,
                            (trampoline.0.0, trampoline.1),
                        ),
                    }
                },
                Err(CloneError::Refused(_)) => false,
                Err(CloneError::NoMemory(unfinished)) => {
                    &&& !plan.share_mm
                    &&& !fork_owed(mm, memory, trampoline.0.0)
                    &&& signal_after == signal
                    &&& half_forked(
                        mm,
                        memory,
                        mm_after,
                        memory_after,
                        (trampoline.0.0, trampoline.1),
                        unfinished,
                    )
                },
            },
        }
    }
}

/// A child is known to have a thing under a number of its own exactly where it has one of its
/// own, and under its parent's number where it shares it.
pub proof fn law_own_or_shared(
    parent: TaskStruct,
    made: MadeChild,
    args: CloneArgs,
    ids: NewIds,
    trap_return: u64,
    now: u64,
    fs: FsStruct,
    files: FileDescriptorTable,
    hand: SigHand,
    signal: Signal,
    cred: Cred,
    real_cred: Cred,
)
    requires
        cloned(parent, made.task, args, ids, trap_return, now),
        objects_made(
            made.objects,
            plan_of(args.flags),
            fs,
            files,
            hand,
            signal,
            cred,
            real_cred,
        ),
    ensures
        made.task.inner.mm == if made.objects.mm is Some {
            Some(ids.mm)
        } else {
            parent.inner.mm
        },
        made.task.inner.fs == if made.objects.fs is Some {
            ids.fs
        } else {
            parent.inner.fs
        },
        made.task.inner.files == if made.objects.files is Some {
            ids.files
        } else {
            parent.inner.files
        },
        made.task.inner.signal_hand == if made.objects.signal_hand is Some {
            ids.signal_hand
        } else {
            parent.inner.signal_hand
        },
        made.task.inner.signal == if made.objects.signal is Some {
            ids.signal
        } else {
            parent.inner.signal
        },
        made.task.inner.cred == if made.objects.cred is Some {
            ids.cred
        } else {
            parent.inner.cred
        },
        made.task.inner.real_cred == if made.objects.cred is Some {
            ids.real_cred
        } else {
            parent.inner.real_cred
        },
        made.task.inner.vfork_completion == if made.objects.vfork_completion is Some {
            Some(ids.vfork_completion)
        } else {
            None
        },
{
}

/// A child that was made can wait for a processor.
pub proof fn law_child_can_wait(
    parent: TaskStruct,
    child: TaskStruct,
    args: CloneArgs,
    ids: NewIds,
    trap_return: u64,
    now: u64,
)
    requires
        cloned(parent, child, args, ids, trap_return, now),
    ensures
        can_queue(child.inner.sched),
        child.inner.sched.policy == parent.inner.sched.policy,
{
}

} // verus!
