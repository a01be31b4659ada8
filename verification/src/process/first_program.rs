//! The first process, with the program that it runs.

use vstd::prelude::*;

use super::pcb::{first_process, fresh_thread, ProcessControlBlock, ThreadInner};
use super::signal::flags::SignalFlags;
use super::signal::frame::TrapRegs;
use super::task::clone::NewIds;
use super::task::exec_image::start_registers;
use super::task::tcb::TaskStruct;
use super::task::worker::first_process_task;
use crate::mm::address::{PhysPageNum, VirtPageNum, VPN_LIMIT};
use crate::mm::elf::{ImageLayout, LoadError};
use crate::mm::memory_set::kernel_half::loaded_whole;
use crate::mm::memory_set::load::{image_plans, Copies, LoadedImage};
use crate::mm::memory_set::{MemorySet, SharedPages};
use crate::mm::page_table::PageTable;
use crate::mm::phys::PhysMemory;

verus! {

/// A program in memory, with the registers that it starts with.
pub struct FirstProgram {
    pub set: MemorySet,
    pub image: LoadedImage,
    /// The bytes that go from its file into its pages.
    pub copies: Copies,
    pub regs: TrapRegs,
}

/// The program starts where its file says, with its stack and nothing else in its registers.
pub open spec fn starts(regs: TrapRegs, image: LoadedImage) -> bool {
    &&& regs.pc == image.final_entry
    &&& regs.x@ == Seq::new(32, |i: int| 0u64).update(2, image.stack_top)
}

/// What comes of loading the first program.
pub open spec fn first_loaded(
    result: Result<FirstProgram, (LoadError, Option<MemorySet>)>,
    before: &PhysMemory,
    after: &PhysMemory,
    kernel: &PageTable,
    asid: u64,
    trampoline: (VirtPageNum, PhysPageNum),
    data: Seq<u8>,
    layout: ImageLayout,
) -> bool {
    &&& loaded_whole(
        match result {
            Ok(program) => Ok((program.set, program.image, program.copies)),
            Err(error) => Err(error),
        },
        before,
        after,
        image_plans(data, None, layout),
        layout,
        trampoline,
        asid,
        kernel,
    )
    &&& result matches Ok(program) ==> starts(program.regs, program.image)
}

/// Loads the first program, which has no interpreter and no arguments.
pub fn load_first(
    memory: &mut PhysMemory,
    shared: &mut SharedPages,
    kernel: &PageTable,
    asid: u64,
    trampoline: (VirtPageNum, PhysPageNum),
    elf_data: &Vec<u8>,
    layout: ImageLayout,
) -> (result: Result<FirstProgram, (LoadError, Option<MemorySet>)>)
    requires
        old(memory).wf(),
        old(shared).wf(),
        kernel.wf(old(memory)),
        trampoline.0.0 < VPN_LIMIT,
        layout.stack_size % 4096 == 0,
    ensures
        final(memory).wf(),
        final(shared).wf(),
        kernel.wf(final(memory)),
        kernel.same_pages(final(memory), kernel, old(memory)),
        first_loaded(
            result,
            old(memory),
            final(memory),
            kernel,
            asid,
            trampoline,
            elf_data@,
            layout,
        ),
{
    match MemorySet::load_user(memory, shared, kernel, asid, trampoline, elf_data, None, layout) {
        Err(error) => Err(error),
        Ok((set, image, copies)) => {
            let regs = start_registers(image.final_entry, image.stack_top, 0, 0);
            assert(regs.x@ =~= Seq::new(32, |i: int| 0u64).update(2, image.stack_top));
            Ok(FirstProgram { set, image, copies, regs })
        },
    }
}

impl TaskStruct {
    /// Makes the first process with the program that it runs; tells why not where the program
    /// cannot be loaded.
    pub fn init_proc(
        memory: &mut PhysMemory,
        shared: &mut SharedPages,
        kernel: &PageTable,
        asid: u64,
        trampoline: (VirtPageNum, PhysPageNum),
        elf_data: &Vec<u8>,
        layout: ImageLayout,
        ids: NewIds,
        nsproxy: u64,
        trap_return: u64,
        cpu_count: u64,
        now: u64,
    ) -> (result: Result<(TaskStruct, FirstProgram), (LoadError, Option<MemorySet>)>)
        requires
            old(memory).wf(),
            old(shared).wf(),
            kernel.wf(old(memory)),
            trampoline.0.0 < VPN_LIMIT,
            layout.stack_size % 4096 == 0,
        ensures
            final(memory).wf(),
            final(shared).wf(),
            kernel.wf(final(memory)),
            kernel.same_pages(final(memory), kernel, old(memory)),
            first_loaded(
                match result {
                    Ok((task, program)) => Ok(program),
                    Err(error) => Err(error),
                },
                old(memory),
                final(memory),
                kernel,
                asid,
                trampoline,
                elf_data@,
                layout,
            ),
            result matches Ok((task, program)) ==> first_process_task(
                task,
                ids,
                nsproxy,
                trap_return,
                cpu_count,
                now,
            ),
    {
        match load_first(memory, shared, kernel, asid, trampoline, elf_data, layout) {
            Err(error) => Err(error),
            Ok(program) => Ok(
                (TaskStruct::first_task(ids, nsproxy, trap_return, cpu_count, now), program),
            ),
        }
    }
}

impl ProcessControlBlock {
    /// Makes the first process and its thread with the program that it runs; tells why not
    /// where the program cannot be loaded.
    pub fn new(
        memory: &mut PhysMemory,
        shared: &mut SharedPages,
        kernel: &PageTable,
        asid: u64,
        trampoline: (VirtPageNum, PhysPageNum),
        elf_data: &Vec<u8>,
        layout: ImageLayout,
        pid: u64,
        tid: u64,
        memory_set: u64,
        root: u64,
        terminal: (u64, u64, u64),
        trap_cx_addr: u64,
        trap_return: u64,
        stack_top: u64,
    ) -> (result: Result<
        (ProcessControlBlock, ThreadInner, FirstProgram),
        (LoadError, Option<MemorySet>),
    >)
        requires
            old(memory).wf(),
            old(shared).wf(),
            kernel.wf(old(memory)),
            trampoline.0.0 < VPN_LIMIT,
            layout.stack_size % 4096 == 0,
        ensures
            final(memory).wf(),
            final(shared).wf(),
            kernel.wf(final(memory)),
            kernel.same_pages(final(memory), kernel, old(memory)),
            first_loaded(
                match result {
                    Ok((process, thread, program)) => Ok(program),
                    Err(error) => Err(error),
                },
                old(memory),
                final(memory),
                kernel,
                asid,
                trampoline,
                elf_data@,
                layout,
            ),
            result matches Ok((process, thread, program)) ==> first_process(
                process,
                pid,
                tid,
                memory_set,
                program.image.heap_bottom,
                program.image.stack_top,
                root,
                terminal,
            ) && fresh_thread(
                thread,
                trap_cx_addr,
                trap_return,
                stack_top,
                SignalFlags { bits: 0 },
                -1i64,
            ),
    {
        match load_first(memory, shared, kernel, asid, trampoline, elf_data, layout) {
            Err(error) => Err(error),
            Ok(program) => {
                let (process, thread) = ProcessControlBlock::first(
                    pid,
                    tid,
                    memory_set,
                    program.image.heap_bottom,
                    program.image.stack_top,
                    root,
                    terminal,
                    trap_cx_addr,
                    trap_return,
                    stack_top,
                );
                Ok((process, thread, program))
            },
        }
    }
}

} // verus!
