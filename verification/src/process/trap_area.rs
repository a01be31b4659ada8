//! The pages of an address space that hold the registers of a thread while the kernel runs.

use vstd::prelude::*;

use crate::mm::address::{PageSize, PhysAddr, VirtAddr, VA_LIMIT};
use crate::mm::area::{MapArea, MapType};
use crate::mm::frame_allocator::FrameTracker;
use crate::mm::memory_set::edit::{ends_early, fits, framed_area, with_area};
use crate::mm::memory_set::{
    frames_between, groups_ok, handed_back, pages_filled, range_free, MemorySet, SharedPages,
};
use crate::mm::phys::PhysMemory;
use crate::mm::pte::MapPermission;
use crate::process::pcb::{
    first_process, forked_process, fresh_thread, process_taken_over, ProcessControlBlock,
    ProcessControlBlockInner, ThreadInner,
};
use crate::process::signal::flags::SignalFlags;
use crate::process::signal::frame::TrapRegs;

verus! {

/// Only the kernel reads and writes the registers.
pub open spec fn trap_permission() -> MapPermission {
    MapPermission { r: true, w: true, x: false, u: false }
}

/// The pages for the registers of a thread.
pub open spec fn trap_area(at: VirtAddr, size: u64) -> MapArea {
    framed_area(at.0 as int, at.0 + size, trap_permission())
}

/// There is a place for the pages in the address space.
pub open spec fn has_place(set: &MemorySet, at: VirtAddr, size: u64) -> bool {
    &&& size > 0
    &&& at.0 + size < VA_LIMIT
    &&& fits(set.areas(), trap_area(at, size))
}

/// What comes of mapping the pages for the registers of a thread.
pub open spec fn trap_mapped(
    before: &MemorySet,
    memory_before: &PhysMemory,
    after: &MemorySet,
    memory: &PhysMemory,
    at: VirtAddr,
    size: u64,
    done: Result<u64, Option<FrameTracker>>,
) -> bool {
    let area = trap_area(at, size);
    &&& after.wf(memory)
    &&& groups_ok(after.areas())
    &&& after.brk() == before.brk()
    &&& after.heap_start() == before.heap_start()
    &&& after.number() == before.number()
    &&& after.keeps_apart(memory, before, memory_before)
    &&& ends_early(before, memory_before, after, memory, area, done is Ok)
    &&& match done {
        Ok(addr) => {
            &&& with_area(before.areas(), after.areas(), area)
            &&& pages_filled(
                after,
                memory,
                before,
                memory_before,
                area.start as int,
                area.end as int,
                area,
            )
            &&& addr == after.resident()[area.start].ppn.0 << 12
        },
        Err(frame) => {
            &&& handed_back(memory_before, memory, frame)
            &&& !(range_free(before, memory_before, area.start as int, area.end as int)
                && memory_before.frames().free.count() >= frames_between(
                area.start as int,
                area.end as int,
            ))
        },
    }
}

/// Maps the pages for the registers of a thread at an address, and returns where the first of
/// them is in memory.
///
/// Without frames the area ends where they did, and a frame that could not be mapped is handed
/// back.
pub fn map_trap_context(
    set: &mut MemorySet,
    memory: &mut PhysMemory,
    shared: &mut SharedPages,
    at: VirtAddr,
    size: u64,
) -> (done: Result<u64, Option<FrameTracker>>)
    requires
        old(set).wf(old(memory)),
        old(shared).wf(),
        groups_ok(old(set).areas()),
        has_place(old(set), at, size),
    ensures
        final(shared).wf(),
        final(shared)@ == old(shared)@,
        trap_mapped(old(set), old(memory), final(set), final(memory), at, size, done),
{
    let permission = MapPermission { r: true, w: true, x: false, u: false };
    let area = MapArea::new(
        at,
        VirtAddr(at.0 + size),
        MapType::Framed,
        permission,
        PageSize::Page4K,
    );
    assert(area == trap_area(at, size));
    match set.push(memory, shared, area) {
        Err(frame) => Err(frame),
        Ok(()) => {
            let page = at.std_floor();
            assert(area.holds(page.0 as int));
            assert(set.mapping(memory, page.0 as int) is Some);
            match set.translate(memory, page) {
                None => Err(None),
                Some(entry) => {
                    let addr: PhysAddr = entry.ppn().into();
                    Ok(addr.0)
                },
            }
        },
    }
}

/// Makes the first process and its thread, whose registers lie in the memory of its program.
pub fn start_first(
    set: &mut MemorySet,
    memory: &mut PhysMemory,
    shared: &mut SharedPages,
    at: VirtAddr,
    size: u64,
    pid: u64,
    tid: u64,
    memory_set: u64,
    heap_bottom: u64,
    user_sp: u64,
    root: u64,
    terminal: (u64, u64, u64),
    trap_return: u64,
    stack_top: u64,
) -> (made: Result<(ProcessControlBlock, ThreadInner), Option<FrameTracker>>)
    requires
        old(set).wf(old(memory)),
        old(shared).wf(),
        groups_ok(old(set).areas()),
        has_place(old(set), at, size),
    ensures
        final(shared).wf(),
        final(shared)@ == old(shared)@,
        trap_mapped(
            old(set),
            old(memory),
            final(set),
            final(memory),
            at,
            size,
            match made {
                Ok((process, thread)) => Ok(thread.trap_cx_addr),
                Err(frame) => Err(frame),
            },
        ),
        made matches Ok((process, thread)) ==> first_process(
            process,
            pid,
            tid,
            memory_set,
            heap_bottom,
            user_sp,
            root,
            terminal,
        ) && fresh_thread(
            thread,
            thread.trap_cx_addr,
            trap_return,
            stack_top,
            SignalFlags { bits: 0 },
            -1i64,
        ),
{
    match map_trap_context(set, memory, shared, at, size) {
        Err(frame) => Err(frame),
        Ok(addr) => {
            let (process, thread) = ProcessControlBlock::first(
                pid,
                tid,
                memory_set,
                heap_bottom,
                user_sp,
                root,
                terminal,
                addr,
                trap_return,
                stack_top,
            );
            Ok((process, thread))
        },
    }
}

/// Makes a child, whose registers lie in its copy of the memory of its parent.
///
/// Without frames the parent stays as it is.
pub fn start_child(
    parent: &mut ProcessControlBlock,
    set: &mut MemorySet,
    memory: &mut PhysMemory,
    shared: &mut SharedPages,
    at: VirtAddr,
    size: u64,
    pid: u64,
    tid: u64,
    memory_set: u64,
    caller: &ThreadInner,
    regs: &TrapRegs,
    sp: Option<u64>,
    trap_return: u64,
    stack_top: u64,
) -> (made: Result<(ProcessControlBlock, ThreadInner, TrapRegs), Option<FrameTracker>>)
    requires
        old(set).wf(old(memory)),
        old(shared).wf(),
        groups_ok(old(set).areas()),
        has_place(old(set), at, size),
    ensures
        final(shared).wf(),
        final(shared)@ == old(shared)@,
        trap_mapped(
            old(set),
            old(memory),
            final(set),
            final(memory),
            at,
            size,
            match made {
                Ok((child, thread, r)) => Ok(thread.trap_cx_addr),
                Err(frame) => Err(frame),
            },
        ),
        match made {
            Err(_) => *final(parent) == *old(parent),
            Ok((child, thread, r)) => {
                &&& forked_process(*old(parent), child, pid, tid, memory_set)
                &&& fresh_thread(
                    thread,
                    thread.trap_cx_addr,
                    trap_return,
                    stack_top,
                    caller.signal_mask,
                    caller.handling_sig,
                )
                &&& r.pc == regs.pc
                &&& r.x@ == match sp {
                    Some(stack) => regs.x@.update(2, stack),
                    None => regs.x@,
                }
                &&& final(parent).inner.children@ == old(parent).inner.children@.push(pid)
                &&& *final(parent) == (ProcessControlBlock {
                    inner: ProcessControlBlockInner {
                        children: final(parent).inner.children,
                        ..old(parent).inner
                    },
                    ..*old(parent)
                })
            },
        },
{
    match map_trap_context(set, memory, shared, at, size) {
        Err(frame) => Err(frame),
        Ok(addr) => Ok(
            parent.fork(pid, tid, memory_set, caller, regs, sp, addr, trap_return, stack_top),
        ),
    }
}

/// Makes another thread of a process, whose registers lie in the memory of the process.
///
/// Without frames the process stays as it is.
pub fn start_thread(
    process: &mut ProcessControlBlock,
    set: &mut MemorySet,
    memory: &mut PhysMemory,
    shared: &mut SharedPages,
    at: VirtAddr,
    size: u64,
    tid: u64,
    caller: &ThreadInner,
    regs: &TrapRegs,
    stack: Option<u64>,
    trap_return: u64,
    stack_top: u64,
) -> (made: Result<(ThreadInner, TrapRegs), Option<FrameTracker>>)
    requires
        old(set).wf(old(memory)),
        old(shared).wf(),
        groups_ok(old(set).areas()),
        has_place(old(set), at, size),
        old(process).inner.alive_task_count < i64::MAX,
    ensures
        final(shared).wf(),
        final(shared)@ == old(shared)@,
        trap_mapped(
            old(set),
            old(memory),
            final(set),
            final(memory),
            at,
            size,
            match made {
                Ok((thread, r)) => Ok(thread.trap_cx_addr),
                Err(frame) => Err(frame),
            },
        ),
        match made {
            Err(_) => *final(process) == *old(process),
            Ok((thread, r)) => {
                &&& fresh_thread(
                    thread,
                    thread.trap_cx_addr,
                    trap_return,
                    stack_top,
                    caller.signal_mask,
                    caller.handling_sig,
                )
                &&& r.pc == regs.pc
                &&& r.x@ == (match stack {
                    Some(sp) => regs.x@.update(2, sp),
                    None => regs.x@,
                }).update(10, 0)
                &&& final(process).inner.tasks@ == old(process).inner.tasks@.push(tid)
                &&& final(process).inner.alive_task_count == old(process).inner.alive_task_count + 1
                &&& *final(process) == (ProcessControlBlock {
                    inner: ProcessControlBlockInner {
                        tasks: final(process).inner.tasks,
                        alive_task_count: final(process).inner.alive_task_count,
                        ..old(process).inner
                    },
                    ..*old(process)
                })
            },
        },
{
    match map_trap_context(set, memory, shared, at, size) {
        Err(frame) => Err(frame),
        Ok(addr) => Ok(
            process.clone_thread(tid, caller, regs, stack, addr, trap_return, stack_top),
        ),
    }
}

/// Makes a process one of another program, with the registers of the thread that asked for it in
/// the memory of that program.
///
/// Without frames process and thread stay as they are.
pub fn start_program(
    process: &mut ProcessControlBlock,
    thread: &mut ThreadInner,
    set: &mut MemorySet,
    memory: &mut PhysMemory,
    shared: &mut SharedPages,
    at: VirtAddr,
    size: u64,
    caller_tid: u64,
    memory_set: u64,
    heap_bottom: u64,
    name: Option<Vec<u8>>,
    on_main_hart: bool,
) -> (done: Result<(), Option<FrameTracker>>)
    requires
        old(set).wf(old(memory)),
        old(shared).wf(),
        groups_ok(old(set).areas()),
        has_place(old(set), at, size),
    ensures
        final(shared).wf(),
        final(shared)@ == old(shared)@,
        trap_mapped(
            old(set),
            old(memory),
            final(set),
            final(memory),
            at,
            size,
            match done {
                Ok(()) => Ok(final(thread).trap_cx_addr),
                Err(frame) => Err(frame),
            },
        ),
        *final(thread) == (ThreadInner {
            trap_cx_addr: final(thread).trap_cx_addr,
            ..*old(thread)
        }),
        match done {
            Err(_) => *final(process) == *old(process) && *final(thread) == *old(thread),
            Ok(()) => process_taken_over(
                *old(process),
                *final(process),
                caller_tid,
                memory_set,
                heap_bottom,
                match name {
                    Some(text) => Some(text@),
                    None => None,
                },
                on_main_hart,
            ),
        },
{
    match map_trap_context(set, memory, shared, at, size) {
        Err(frame) => Err(frame),
        Ok(addr) => {
            process.exec(caller_tid, memory_set, heap_bottom, name, on_main_hart);
            thread.trap_cx_addr = addr;
            Ok(())
        },
    }
}

} // verus!
