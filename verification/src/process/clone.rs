//! Making a process or a thread that goes on where the caller is.

use vstd::prelude::*;

use super::pcb::{
    forked_process, fresh_thread, ProcessControlBlock, ProcessControlBlockInner, ThreadInner,
};
use super::registry::Entry;
use super::schedule::{task_handed_over, TaskTables};
use super::signal::frame::TrapRegs;
use crate::mm::address::{PhysPageNum, VirtPageNum, VPN_LIMIT};
use crate::mm::memory_set::fork::fork_owed;
use crate::mm::memory_set::kernel_half::{below_kernel, forked_whole, half_forked};
use crate::mm::memory_set::MemorySet;
use crate::mm::phys::PhysMemory;

verus! {

/// A stack that was asked for; zero asks for none.
pub open spec fn asked_stack(stack: u64) -> Option<u64> {
    if stack != 0 {
        Some(stack)
    } else {
        None
    }
}

/// The registers of what was made: those of the caller, with the stack that was asked for,
/// and zero as the result of the call.
pub open spec fn made_regs(regs: TrapRegs, stack: u64) -> Seq<u64> {
    (match asked_stack(stack) {
        Some(sp) => regs.x@.update(2, sp),
        None => regs.x@,
    }).update(10, 0)
}

/// Where what is made keeps its registers, and where it starts.
#[derive(Clone, Copy, Debug, PartialEq, Eq, Structural)]
pub struct NewThread {
    pub tid: u64,
    pub trap_cx_addr: u64,
    pub trap_return: u64,
    pub stack_top: u64,
    /// How it is scheduled.
    pub policy: i64,
    pub priority: i32,
}

/// A process is known under its number; the others are as they were.
pub open spec fn process_added(before: TaskTables, after: TaskTables, pid: u64, process: u64) -> bool {
    forall|e: Entry| #[trigger]
        after.processes.pool().contains(e) <==> e == (Entry { tid: pid, tgid: process }) || (
        before.processes.pool().contains(e) && e.tid != pid)
}

/// A child that was made, with its thread, its registers, its number and its memory.
pub struct ForkedChild {
    pub process: ProcessControlBlock,
    pub thread: ThreadInner,
    pub regs: TrapRegs,
    pub pid: u64,
    pub set: MemorySet,
}

/// The child goes on where its parent is: it is known and waits for a processor, it is a child
/// of its parent, and its memory is a copy of its parent's.
pub open spec fn child_made(
    before: TaskTables,
    after: TaskTables,
    parent: ProcessControlBlock,
    parent_after: ProcessControlBlock,
    caller: ThreadInner,
    regs: TrapRegs,
    stack: u64,
    pid: u64,
    process: u64,
    memory_set: u64,
    thread: NewThread,
    child: ForkedChild,
) -> bool {
    &&& process_added(before, after, pid, process)
    &&& task_handed_over(before, after, thread.tid, pid, thread.policy, thread.priority)
    &&& forked_process(parent, child.process, pid, thread.tid, memory_set)
    &&& fresh_thread(
        child.thread,
        thread.trap_cx_addr,
        thread.trap_return,
        thread.stack_top,
        caller.signal_mask,
        caller.handling_sig,
    )
    &&& child.regs.pc == regs.pc
    &&& child.regs.x@ == made_regs(regs, stack)
    &&& child.pid == pid
    &&& parent_after.inner.children@ == parent.inner.children@.push(pid)
    &&& parent_after == (ProcessControlBlock {
        inner: ProcessControlBlockInner { children: parent_after.inner.children, ..parent.inner },
        ..parent
    })
}

/// Makes a child, in which the call returns zero; the parent gets the number of the child.
///
/// The child is known under its number, kept as `process`, and its thread waits for a
/// processor. Its memory, kept as `memory_set`, is a copy of its parent's; what was made of it
/// comes back where there are not enough frames. What function and flags were asked for does
/// not matter.
pub fn do_fork(
    tables: &mut TaskTables,
    parent: &mut ProcessControlBlock,
    memory: &mut PhysMemory,
    mm: &mut MemorySet,
    asid: u64,
    trampoline: (VirtPageNum, PhysPageNum),
    caller: &ThreadInner,
    regs: &TrapRegs,
    func: u64,
    stack: u64,
    flags: u64,
    pid: u64,
    process: u64,
    memory_set: u64,
    thread: NewThread,
) -> (made: Result<ForkedChild, Option<MemorySet>>)
    requires
        old(tables).wf(),
        old(mm).wf(old(memory)),
        below_kernel(old(mm)),
        trampoline.0.0 < VPN_LIMIT,
    ensures
        final(tables).wf(),
        final(memory).wf(),
        match made {
            Ok(child) => {
                &&& child_made(
                    *old(tables),
                    *final(tables),
                    *old(parent),
                    *final(parent),
                    *caller,
                    *regs,
                    stack,
                    pid,
                    process,
                    memory_set,
                    thread,
                    child,
                )
                &&& child.set.number() == asid
                &&& forked_whole(
                    old(mm),
                    old(memory),
                    final(mm),
                    &child.set,
                    final(memory),
                    (trampoline.0.0, trampoline.1),
                )
            },
            Err(unfinished) => {
                &&& !fork_owed(old(mm), old(memory), trampoline.0.0)
                &&& *final(tables) == *old(tables)
                &&& *final(parent) == *old(parent)
                &&& half_forked(
                    old(mm),
                    old(memory),
                    final(mm),
                    final(memory),
                    (trampoline.0.0, trampoline.1),
                    unfinished,
                )
            },
        },
{
    let set = match mm.fork_user(memory, asid, trampoline.0, trampoline.1) {
        Err(unfinished) => {
            return Err(unfinished);
        },
        Ok(set) => set,
    };
    let sp: Option<u64> = if stack != 0 {
        Some(stack)
    } else {
        None
    };
    let (child, task, child_regs) = parent.fork(
        pid,
        thread.tid,
        memory_set,
        caller,
        regs,
        sp,
        thread.trap_cx_addr,
        thread.trap_return,
        thread.stack_top,
    );
    let mut x: [u64; 32] = child_regs.x;
    x[10] = 0;
    tables.processes.add_process(pid, process);
    tables.add_task(thread.tid, pid, thread.policy, thread.priority);
    Ok(
        ForkedChild {
            process: child,
            thread: task,
            regs: TrapRegs { x, pc: child_regs.pc },
            pid,
            set,
        },
    )
}

/// Makes another thread, in which the call returns zero; the caller gets the number of the thread.
///
/// The thread is known under its number and waits for a processor. What function, flags and
/// place for the number were asked for does not matter.
pub fn do_clone_thread(
    tables: &mut TaskTables,
    process: &mut ProcessControlBlock,
    caller: &ThreadInner,
    regs: &TrapRegs,
    func: u64,
    stack: u64,
    flags: u64,
    ptid: u64,
    thread: NewThread,
) -> (made: (ThreadInner, TrapRegs, u64))
    requires
        old(tables).wf(),
        old(process).inner.alive_task_count < i64::MAX,
    ensures
        final(tables).wf(),
        final(tables).processes == old(tables).processes,
        task_handed_over(
            *old(tables),
            *final(tables),
            thread.tid,
            old(process).pid,
            thread.policy,
            thread.priority,
        ),
        fresh_thread(
            made.0,
            thread.trap_cx_addr,
            thread.trap_return,
            thread.stack_top,
            caller.signal_mask,
            caller.handling_sig,
        ),
        made.1.pc == regs.pc,
        made.1.x@ == made_regs(*regs, stack),
        made.2 == thread.tid,
        final(process).inner.tasks@ == old(process).inner.tasks@.push(thread.tid),
        final(process).inner.alive_task_count == old(process).inner.alive_task_count + 1,
        *final(process) == (ProcessControlBlock {
            inner: ProcessControlBlockInner {
                tasks: final(process).inner.tasks,
                alive_task_count: final(process).inner.alive_task_count,
                ..old(process).inner
            },
            ..*old(process)
        }),
{
    let sp: Option<u64> = if stack != 0 {
        Some(stack)
    } else {
        None
    };
    let (task, task_regs) = process.clone_thread(
        thread.tid,
        caller,
        regs,
        sp,
        thread.trap_cx_addr,
        thread.trap_return,
        thread.stack_top,
    );
    tables.add_task(thread.tid, process.pid, thread.policy, thread.priority);
    (task, task_regs, thread.tid)
}

} // verus!
