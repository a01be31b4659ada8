//! What a new thread has in common with the one that made it.

use vstd::prelude::*;

use crate::errno::Errno;
use crate::mm::address::{PhysPageNum, VirtPageNum};
use crate::mm::memory_set::kernel_half::forked_whole;
use crate::mm::memory_set::MemorySet;
use crate::mm::phys::PhysMemory;
use crate::process::registry::{Entry, Registry};
use crate::process::scheduler::runqueue::RqArray;
use crate::process::signal::action::SigHand;
use crate::process::signal::frame::TrapRegs;
use crate::process::signal::state::Signal;
use crate::process::task::clone::{
    child_regs, clone_refused, cloned, plan_of, CloneArgs, ClonePlan, NewIds,
};
use crate::process::task::clone_run::{
    child_added, child_made, objects_made, ChildObjects, MadeChild,
};
use crate::process::task::cred::Cred;
use crate::process::task::files::FileDescriptorTable;
use crate::process::task::status::TaskStatus;
use crate::process::task::task_fs::FsStruct;
use crate::process::task::tcb::TaskStruct;

verus! {

/// Bit 0x100 of the request is about the memory, 0x200 about the directories and 0x400 about the
/// open files, each whatever the other bits are: where it is set the child uses what its parent
/// uses, and where it is clear the child has its own.
pub proof fn law_child_shares_what_is_asked(
    parent: TaskStruct,
    child: TaskStruct,
    args: CloneArgs,
    ids: NewIds,
    trap_return: u64,
    now: u64,
)
    requires
        cloned(parent, child, args, ids, trap_return, now),
    ensures
        args.flags & 0x100 != 0 ==> child.inner.mm == parent.inner.mm,
        args.flags & 0x100 == 0 ==> child.inner.mm == Some(ids.mm),
        args.flags & 0x200 != 0 ==> child.inner.fs == parent.inner.fs,
        args.flags & 0x200 == 0 ==> child.inner.fs == ids.fs,
        args.flags & 0x400 != 0 ==> child.inner.files == parent.inner.files,
        args.flags & 0x400 == 0 ==> child.inner.files == ids.files,
{
}

/// Answers to signals are used together where bit 0x800 asks for it, unless bit 0x1_0000_0000
/// asks for the usual ones.
pub proof fn law_child_shares_answers_to_signals(
    parent: TaskStruct,
    child: TaskStruct,
    args: CloneArgs,
    ids: NewIds,
    trap_return: u64,
    now: u64,
)
    requires
        cloned(parent, child, args, ids, trap_return, now),
    ensures
        args.flags & 0x800 != 0 && args.flags & 0x1_0000_0000 == 0 ==> child.inner.signal_hand
            == parent.inner.signal_hand,
        args.flags & 0x800 == 0 || args.flags & 0x1_0000_0000 != 0 ==> child.inner.signal_hand
            == ids.signal_hand,
{
}

/// Bit 0x1_0000 makes a thread of the same process: it has the process's number, leader, parent,
/// signals, rights and lock. Without it the child is a process of its own whose parent is the one
/// that made it, and it leads its group of threads.
pub proof fn law_thread_or_process(
    parent: TaskStruct,
    child: TaskStruct,
    args: CloneArgs,
    ids: NewIds,
    trap_return: u64,
    now: u64,
)
    requires
        cloned(parent, child, args, ids, trap_return, now),
    ensures
        child.pid == ids.pid,
        args.flags & 0x1_0000 != 0 ==> {
            &&& child.tgid == parent.tgid
            &&& child.group_leader == parent.group_leader
            &&& child.inner.parent == parent.inner.parent
            &&& child.inner.real_parent == parent.inner.real_parent
            &&& child.inner.signal == parent.inner.signal
            &&& child.inner.cred == parent.inner.cred
            &&& child.inner.real_cred == parent.inner.real_cred
            &&& child.inner.exec_update_lock == parent.inner.exec_update_lock
        },
        args.flags & 0x1_0000 == 0 ==> {
            &&& child.tgid == child.pid
            &&& child.group_leader == child.pid
            &&& child.inner.parent == Some(parent.pid)
            &&& child.inner.real_parent == Some(parent.pid)
            &&& child.inner.signal == ids.signal
            &&& child.inner.cred == ids.cred
            &&& child.inner.real_cred == ids.real_cred
            &&& child.inner.exec_update_lock == ids.exec_update_lock
        },
{
}

/// Bit 0x20_0000 has a word cleared at the end of the child, bit 0x4000 has the parent wait for
/// it. The low byte is the signal that the parent gets. A child that uses the memory of a parent
/// that goes on running does not keep the other stack for signals; every other child does.
pub proof fn law_child_end_is_told(
    parent: TaskStruct,
    child: TaskStruct,
    args: CloneArgs,
    ids: NewIds,
    trap_return: u64,
    now: u64,
)
    requires
        cloned(parent, child, args, ids, trap_return, now),
    ensures
        args.flags & 0x20_0000 != 0 ==> child.inner.clear_child_tid == args.ctid,
        args.flags & 0x20_0000 == 0 ==> child.inner.clear_child_tid == 0,
        args.flags & 0x4000 != 0 ==> child.inner.vfork_completion == Some(ids.vfork_completion),
        args.flags & 0x4000 == 0 ==> child.inner.vfork_completion is None,
        child.inner.exit_signal == args.flags % 256,
        args.flags & 0x100 != 0 && args.flags & 0x4000 == 0 ==> {
            &&& child.inner.signals.signal_alt_stack.ss_sp == 0
            &&& child.inner.signals.signal_alt_stack.ss_size == 0
            &&& child.inner.signals.signal_alt_stack.ss_flags == 2
        },
        args.flags & 0x100 == 0 || args.flags & 0x4000 != 0
            ==> child.inner.signals.signal_alt_stack == parent.inner.signals.signal_alt_stack,
{
    let flags = args.flags;
    assert(flags & 0xff == flags % 256) by (bit_vector);
}

/// Whatever the request, a child is in the group and the session of its parent, in the same name
/// spaces, runs the same program under the same name, is scheduled by the same rule with the same
/// priority on the same processors, and holds back the same signals.
pub proof fn law_child_inherits(
    parent: TaskStruct,
    child: TaskStruct,
    args: CloneArgs,
    ids: NewIds,
    trap_return: u64,
    now: u64,
)
    requires
        cloned(parent, child, args, ids, trap_return, now),
    ensures
        child.inner.pgid == parent.inner.pgid,
        child.inner.sid == parent.inner.sid,
        child.inner.nsproxy == parent.inner.nsproxy,
        child.inner.exe_path@ == parent.inner.exe_path@,
        child.inner.comm == parent.inner.comm,
        child.inner.personality == parent.inner.personality,
        child.inner.locked_bytes == parent.inner.locked_bytes,
        child.inner.oom_score_adj == parent.inner.oom_score_adj,
        child.inner.sched_priority == parent.inner.sched_priority,
        child.inner.static_prio == parent.inner.static_prio,
        child.inner.normal_prio == parent.inner.normal_prio,
        child.inner.sched.policy == parent.inner.sched.policy,
        child.inner.sched.prio == parent.inner.sched.prio,
        child.inner.sched.cpu == parent.inner.sched.cpu,
        child.inner.sched.cpus_allowed == parent.inner.sched.cpus_allowed,
        child.inner.sched.se.load_weight == parent.inner.sched.se.load_weight,
        child.inner.sched.se.vruntime == parent.inner.sched.se.vruntime,
        child.inner.sched.se.queue_level == parent.inner.sched.se.queue_level,
        child.inner.sched.rt.migratable == parent.inner.sched.rt.migratable,
        child.inner.sched.dl.runtime == parent.inner.sched.dl.runtime,
        child.inner.sched.dl.deadline == parent.inner.sched.dl.deadline,
        child.inner.sched.dl.period == parent.inner.sched.dl.period,
        child.inner.signals.blocked == parent.inner.signals.blocked,
{
}

/// Whatever the request, a child starts anew in the rest: it can run and has not run, stands in
/// no queue, has no children, no signals and no result, and begins now, at the return to the
/// program.
pub proof fn law_child_starts_anew(
    parent: TaskStruct,
    child: TaskStruct,
    args: CloneArgs,
    ids: NewIds,
    trap_return: u64,
    now: u64,
)
    requires
        cloned(parent, child, args, ids, trap_return, now),
    ensures
        child.inner.sched.tid == child.pid,
        child.inner.sched.state == TaskStatus::Ready,
        !child.inner.sched.on_rq,
        !child.inner.sched.on_cpu,
        !child.inner.sched.on_main_hart,
        !child.inner.sched.wake_pending,
        !child.inner.sched.need_resched,
        child.inner.sched.wake_source_cpu is None,
        child.inner.sched.se.exec_start == 0,
        child.inner.sched.se.sum_exec_runtime == 0,
        child.inner.sched.se.prev_sum_exec_runtime == 0,
        child.inner.sched.rt.time_slice == 0,
        child.inner.sched.dl.remaining_runtime == parent.inner.sched.dl.runtime,
        child.inner.sched.dl.absolute_deadline == 0xffff_ffff_ffff_ffff,
        !child.inner.sched.dl.throttled,
        child.inner.children@.len() == 0,
        child.inner.exit_state == 0,
        child.inner.exit_code == 0,
        child.inner.errno == 0,
        child.inner.flags == 0,
        child.inner.start_time == now,
        child.inner.start_boottime == now,
        child.inner.kernel_stack == ids.kernel_stack,
        child.inner.trap_ctx == ids.trap_ctx,
        child.inner.task_ctx.sp == ids.trap_ctx,
        child.inner.task_ctx.ra == trap_return,
        child.inner.signals.pending.signals.bits == 0,
        child.inner.signals.pending.queue@.len() == 0,
        child.inner.signals.signal_mask_backup@.len() == 0,
        child.inner.signals.trap_ctx_backup@.len() == 0,
        child.inner.signals.signal_user_context_backup@.len() == 0,
        child.inner.signals.sigsuspend_saved_mask is None,
        child.inner.signals.term_signal is None,
        !child.inner.signals.signal_interrupted,
        !child.inner.signals.frozen,
{
}

/// Something is made for a child exactly where the request does not have it shared: no memory for
/// bit 0x100, no directories for 0x200, no table of files for 0x400, nothing of a process for
/// 0x1_0000, and something to wait for only for 0x4000.
pub proof fn law_only_what_is_not_shared_is_made(
    flags: u64,
    objects: ChildObjects,
    fs: FsStruct,
    files: FileDescriptorTable,
    hand: SigHand,
    signal: Signal,
    cred: Cred,
    real_cred: Cred,
)
    requires
        objects_made(objects, plan_of(flags), fs, files, hand, signal, cred, real_cred),
    ensures
        objects.mm is None <==> flags & 0x100 != 0,
        objects.fs is None <==> flags & 0x200 != 0,
        objects.files is None <==> flags & 0x400 != 0,
        objects.signal_hand is None <==> flags & 0x800 != 0 && flags & 0x1_0000_0000 == 0,
        objects.signal is None <==> flags & 0x1_0000 != 0,
        objects.cred is None <==> flags & 0x1_0000 != 0,
        objects.vfork_completion is None <==> flags & 0x4000 == 0,
{
}

/// What is made for a child is as the parent has it: the directories, each open file under its
/// number, the rights, the limits, and the answers to signals unless the usual ones are asked
/// for, which all are to do what is usual. Nobody has waited for the child yet.
pub proof fn law_what_is_made_is_a_copy(
    flags: u64,
    objects: ChildObjects,
    fs: FsStruct,
    files: FileDescriptorTable,
    hand: SigHand,
    signal: Signal,
    cred: Cred,
    real_cred: Cred,
)
    requires
        objects_made(objects, plan_of(flags), fs, files, hand, signal, cred, real_cred),
    ensures
        objects.fs matches Some(own) ==> own == fs,
        objects.files matches Some(own) ==> own.fds@ == files.fds@ && own.next_fd == files.next_fd,
        objects.signal_hand matches Some(own) ==> if flags & 0x1_0000_0000 == 0 {
            own@ == hand@
        } else {
            &&& own@.len() == 64
            &&& forall|i: int|
                0 <= i < 64 ==> {
                    &&& (#[trigger] own@[i]).handler == 0
                    &&& own@[i].flags == 0
                    &&& own@[i].mask.bits == 0
                }
        },
        objects.signal matches Some(own) ==> {
            &&& own.rlimits == signal.rlimits
            &&& own.thread_num == 1
            &&& own.group_exit_state == 0
            &&& own.shared_pending.signals.bits == 0
            &&& own.shared_pending.queue@.len() == 0
        },
        objects.cred matches Some(own) ==> own.0 == cred && own.1 == real_cred,
        objects.vfork_completion matches Some(own) ==> !own.done && own.waiters.queue@.len() == 0,
{
}

/// In the child the call returns zero. Register 2 is the stack where one is given, register 4
/// the pointer to the thread's data where bit 0x8_0000 says so, and all others are its parent's.
pub proof fn law_child_registers(regs: TrapRegs, args: CloneArgs)
    ensures
        child_regs(regs, args).len() == 32,
        child_regs(regs, args)[10] == 0,
        args.stack != 0 ==> child_regs(regs, args)[2] == args.stack,
        args.stack == 0 ==> child_regs(regs, args)[2] == regs.x@[2],
        args.flags & 0x8_0000 != 0 ==> child_regs(regs, args)[4] == args.tls,
        args.flags & 0x8_0000 == 0 ==> child_regs(regs, args)[4] == regs.x@[4],
        forall|i: int|
            0 <= i < 32 && i != 2 && i != 4 && i != 10 ==> #[trigger] child_regs(regs, args)[i]
                == regs.x@[i],
{
}

/// A child is refused for four reasons and no others: the parent has no memory; the place for its
/// number is missing where bit 0x10_0000 asks for one, or bits 0x100_0000 and 0x20_0000 do; a
/// program is being loaded while a thread is asked for.
pub proof fn law_when_a_child_is_refused(
    has_mm: bool,
    args: CloneArgs,
    ptid_writable: bool,
    ctid_writable: bool,
    exec_lock_free: bool,
)
    ensures
        ({
            let refused = clone_refused(has_mm, args, ptid_writable, ctid_writable, exec_lock_free);
            let no_ptid = args.flags & 0x10_0000 != 0 && (args.ptid == 0 || !ptid_writable);
            let no_ctid = (args.flags & 0x100_0000 != 0 || args.flags & 0x20_0000 != 0) && (
            args.ctid == 0 || !ctid_writable);
            let loading = args.flags & 0x1_0000 != 0 && !exec_lock_free;
            &&& refused == Some(Errno::EINVAL) <==> !has_mm
            &&& refused == Some(Errno::EFAULT) <==> has_mm && (no_ptid || no_ctid)
            &&& refused == Some(Errno::EAGAIN) <==> has_mm && !no_ptid && !no_ctid && loading
            &&& refused is None <==> has_mm && !no_ptid && !no_ctid && !loading
        }),
{
}

/// What is made of a request: where a flag asks for sharing nothing is made and the child uses
/// what its parent uses, whatever the other flags are; the parent's memory is touched only where it
/// is copied, and its process counts one thread more only for a thread.
pub proof fn law_made_child(
    parent: TaskStruct,
    memory: &PhysMemory,
    mm: &MemorySet,
    signal: Signal,
    fs: FsStruct,
    files: FileDescriptorTable,
    hand: SigHand,
    cred: Cred,
    real_cred: Cred,
    args: CloneArgs,
    regs: TrapRegs,
    ptid_writable: bool,
    ctid_writable: bool,
    exec_lock_free: bool,
    ids: NewIds,
    asid: u64,
    trampoline: (VirtPageNum, PhysPageNum),
    trap_return: u64,
    now: u64,
    memory_after: &PhysMemory,
    mm_after: &MemorySet,
    signal_after: Signal,
    made: MadeChild,
)
    requires
        child_made(
            parent,
            memory,
            mm,
            signal,
            fs,
            files,
            hand,
            cred,
            real_cred,
            args,
            regs,
            ptid_writable,
            ctid_writable,
            exec_lock_free,
            ids,
            asid,
            trampoline,
            trap_return,
            now,
            memory_after,
            mm_after,
            signal_after,
            Ok(made),
        ),
        signal.thread_num < usize::MAX,
    ensures
        args.flags & 0x400 != 0 ==> made.task.inner.files == parent.inner.files
            && made.objects.files is None,
        args.flags & 0x400 == 0 ==> made.task.inner.files == ids.files && (made.objects.files matches Some(
            own,
        ) && own.fds@ == files.fds@),
        args.flags & 0x200 != 0 ==> made.task.inner.fs == parent.inner.fs && made.objects.fs is None,
        args.flags & 0x200 == 0 ==> made.task.inner.fs == ids.fs && made.objects.fs == Some(fs),
        args.flags & 0x100 != 0 ==> made.task.inner.mm == parent.inner.mm && made.objects.mm is None
            && *mm_after == *mm && *memory_after == *memory,
        args.flags & 0x100 == 0 ==> made.task.inner.mm == Some(ids.mm) && (made.objects.mm matches Some(
            own,
        ) && own.number() == asid && forked_whole(
            mm,
            memory,
            mm_after,
            &own,
            memory_after,
            (trampoline.0.0, trampoline.1),
        )),
        args.flags & 0x1_0000 != 0 ==> signal_after.thread_num == signal.thread_num + 1
            && made.objects.signal is None && made.task.tgid == parent.tgid,
        args.flags & 0x1_0000 == 0 ==> signal_after == signal && made.objects.signal is Some
            && made.task.tgid == ids.pid,
        signal_after.rlimits == signal.rlimits,
        signal_after.shared_pending == signal.shared_pending,
        made.task.pid == ids.pid,
        made.regs.pc == regs.pc,
        made.regs.x@[10] == 0,
        args.stack != 0 ==> made.regs.x@[2] == args.stack,
        args.stack == 0 ==> made.regs.x@[2] == regs.x@[2],
        args.flags & 0x8_0000 != 0 ==> made.regs.x@[4] == args.tls,
        parent.inner.mm is Some,
        made.plan.thread == (args.flags & 0x1_0000 != 0),
        made.plan.write_parent_tid == (args.flags & 0x10_0000 != 0),
        made.plan.write_child_tid == (args.flags & 0x100_0000 != 0),
        made.plan.vfork == (args.flags & 0x4000 != 0),
{
}

/// A child that is added is known by its number, can run, and waits for a processor; a process
/// becomes a child of its maker, a thread does not. Where a number could not be written that was
/// to be written, nothing is added.
pub proof fn law_added_child(
    before: TaskStruct,
    child: TaskStruct,
    plan: ClonePlan,
    parent_tid_written: bool,
    child_tid_written: bool,
    threads: Registry,
    array: RqArray,
    local_cpu: u64,
    after: TaskStruct,
    child_after: TaskStruct,
    threads_after: Registry,
    array_after: RqArray,
    result: Result<u64, Errno>,
    e: Entry,
)
    requires
        child_added(
            before,
            child,
            plan,
            parent_tid_written,
            child_tid_written,
            threads,
            array,
            local_cpu,
            after,
            child_after,
            threads_after,
            array_after,
            result,
        ),
        child.inner.sched.state != TaskStatus::Zombie,
        !child.inner.sched.on_rq,
    ensures
        result is Err <==> (plan.write_parent_tid && !parent_tid_written) || (plan.write_child_tid
            && !child_tid_written),
        result matches Err(e) ==> e == Errno::EFAULT && after == before && child_after == child
            && threads_after == threads && array_after == array,
        result matches Ok(pid) ==> {
            &&& pid == child.pid
            &&& plan.thread ==> after.inner.children@ == before.inner.children@
            &&& !plan.thread ==> after.inner.children@ == before.inner.children@.push(child.pid)
            &&& after.pid == before.pid && after.inner.parent == before.inner.parent
            &&& child_after.inner.sched.state == TaskStatus::Ready
            &&& child_after.inner.sched.on_rq
            &&& child_after.pid == child.pid && child_after.inner.files == child.inner.files
            &&& child.inner.sched.cpu < array.rqs@.len() ==> child_after.inner.sched.cpu
                == child.inner.sched.cpu
            &&& child.inner.sched.cpu >= array.rqs@.len() ==> child_after.inner.sched.cpu
                == local_cpu
            &&& e.tid == child.pid ==> (threads_after@.contains(e) <==> e.tgid == child.tgid)
            &&& e.tid != child.pid ==> (threads_after@.contains(e) <==> threads@.contains(e))
        },
{
}

} // verus!
