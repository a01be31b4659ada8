//! A program that starts: its files are loaded, its stack is ready, and the thread is one of it.

use vstd::prelude::*;

use super::exec::{copy_text, name_bytes, ExecIds};
use super::exec_image::{
    in_framed_area, lemma_stack_above, load_program, stack_laid, stack_ready, start_registers, told,
    StartError,
};
use super::exec_stack::{
    list_texts, placed_view, stack_bytes, stack_texts, Placed, StackImage,
};
use super::files::{free_place, FileDescriptorTable};
use super::tcb::{TaskStruct, TaskStructInner};
use crate::mm::address::{PageSize, PhysPageNum, VirtPageNum, VA_LIMIT, VPN_LIMIT};
use crate::mm::elf::{ImageLayout, LoadError, Plan, GUARD_PAGES};
use crate::mm::memory_set::kernel_half::{assembled_whole, lemma_plans_end};
use crate::mm::memory_set::load::{
    apart, code_end, copies_owed, data_parts, data_perm, frames_for, heap_bottom, image_parts,
    image_plans, in_the_way, is_part, lemma_part_filled, loaded, low_parts, part_mapping,
    part_page, part_perm, stack_top, Copies, LoadedImage, Part,
};
use crate::mm::memory_set::owned::{all_own, lemma_own_reached};
use crate::mm::memory_set::{
    frames_between, groups_ok, handed_back, holder, lemma_fewer_frames, lemma_holder, MemorySet,
    SharedPages,
};
use crate::mm::page_table::{is_page, PageTable};
use crate::mm::phys::PhysMemory;
use crate::mm::pte::PageTableEntry;
use crate::process::pcb::{process_taken_over, ProcessControlBlock};
use crate::process::registry::{rising_ids, Entry, Registry};
use crate::process::scheduler::runqueue::SchedTask;
use crate::process::signal::frame::TrapRegs;
use crate::process::signal::state::Signal;

verus! {

/// A program that is ready to run.
pub struct Started {
    /// Its address space.
    pub set: MemorySet,
    pub image: LoadedImage,
    /// The bytes that go from its files into its pages.
    pub copies: Copies,
    /// Its stack, with the words to put on it.
    pub stack: StackImage,
    /// The texts to put on its stack.
    pub texts: Vec<Placed>,
    /// The registers that it starts with.
    pub regs: TrapRegs,
}

/// The page holds a part of the stack that is used from the start.
pub open spec fn on_stack(sp: int, top: int, q: int) -> bool {
    sp / 4096 <= q <= (top - 1) / 4096
}

/// What a page of a program that starts is mapped to: the stack, a part, or the kernel.
pub open spec fn start_mapping(
    started: Started,
    parts: Seq<Part>,
    trampoline: (VirtPageNum, PhysPageNum),
    kernel: &PageTable,
    before: &PhysMemory,
    q: int,
) -> Option<(PageTableEntry, PageSize)> {
    if on_stack(started.stack.sp as int, started.image.stack_top as int, q) && q
        != trampoline.0.0 {
        Some(
            (
                PageTableEntry {
                    page: started.set.resident()[q as u64].ppn,
                    flags: data_perm().pte_flags().installed(),
                },
                PageSize::Page4K,
            ),
        )
    } else if q < VPN_LIMIT / 2 {
        part_mapping(parts, started.set.resident(), trampoline, q)
    } else {
        kernel.at(before, q)
    }
}

/// The program is ready: its files decide where it starts and what its pages hold, its
/// arguments and settings are on the stack, and its registers tell of them.
pub open spec fn started_as(
    started: Started,
    before: &PhysMemory,
    after: &PhysMemory,
    kernel: &PageTable,
    plans: (Plan, Option<Plan>),
    layout: ImageLayout,
    trampoline: (VirtPageNum, PhysPageNum),
    asid: u64,
    args: Seq<Vec<u8>>,
    envs: Seq<Vec<u8>>,
    even: bool,
) -> bool {
    let parts = image_parts(plans.0, plans.1, layout);
    let image = loaded(plans.0, plans.1, layout);
    let set = started.set;
    &&& heap_bottom(plans.0, plans.1, layout) <= VA_LIMIT / 2
    &&& started.image == image
    &&& copies_owed(started.copies, plans.0, plans.1)
    &&& stack_bytes(image.stack_top as int, args, envs, told(image), even) <= layout.stack_size
    &&& stack_laid(started.stack, image.stack_top as int, args, envs, told(image), even)
    &&& placed_view(started.texts@) == stack_texts(started.stack, args, envs)
    &&& started.regs.pc == image.final_entry
    &&& started.regs.x@ == Seq::new(32, |i: int| 0u64).update(2, started.stack.sp).update(
        10,
        args.len() as u64,
    ).update(11, started.stack.argv_base)
    &&& set.wf(after)
    &&& all_own(&set, after, before)
    &&& groups_ok(set.areas())
    &&& apart(parts)
    &&& forall|i: int|
        0 <= i < set.areas().len() ==> is_part(parts, #[trigger] set.areas()[i])
    &&& forall|k: int| 0 <= k < parts.len() ==> set.areas().contains((#[trigger] parts[k]).area)
    &&& forall|v: int| #[trigger] set.page(v) == part_page(parts, v)
    &&& set.number() == asid
    &&& set.brk() == image.heap_bottom
    &&& set.heap_start() == image.heap_bottom
    &&& forall|q: int|
        is_page(q) ==> #[trigger] set.mapping(after, q) == start_mapping(
            started,
            parts,
            trampoline,
            kernel,
            before,
            q,
        )
}

/// Frames that are enough for the stack of a program, with tables.
pub open spec fn stack_frames(main: Plan, interp: Option<Plan>, layout: ImageLayout) -> int {
    let top = stack_top(main, interp, layout);
    frames_between((top - layout.stack_size) / 4096, top / 4096)
}

/// What comes of starting a program.
pub open spec fn start_outcome(
    result: Result<Started, StartError>,
    before: &PhysMemory,
    after: &PhysMemory,
    kernel: &PageTable,
    plans: Result<(Plan, Option<Plan>), LoadError>,
    layout: ImageLayout,
    trampoline: (VirtPageNum, PhysPageNum),
    asid: u64,
    args: Seq<Vec<u8>>,
    envs: Seq<Vec<u8>>,
    even: bool,
) -> bool {
    match plans {
        Err(e) => result matches Err(StartError::Load(error, None)) && error == e,
        Ok((main, interp)) => {
            let parts = image_parts(main, interp, layout);
            match result {
                Ok(started) => started_as(
                    started,
                    before,
                    after,
                    kernel,
                    (main, interp),
                    layout,
                    trampoline,
                    asid,
                    args,
                    envs,
                    even,
                ),
                Err(StartError::Load(e, set)) => {
                    &&& set matches Some(set) ==> set.wf(after) && all_own(&set, after, before)
                    &&& match e {
                        LoadError::OutOfRange => heap_bottom(main, interp, layout) > VA_LIMIT / 2,
                        LoadError::Overlap => !apart(parts),
                        LoadError::OutOfFrames => in_the_way(parts, trampoline.0.0 as int)
                            || before.frames().free.count() < 3 + frames_for(parts),
                        _ => false,
                    }
                },
                Err(StartError::NoRoom(set, image, copies)) => set.wf(after) && all_own(
                    &set,
                    after,
                    before,
                ) && stack_bytes(
                    stack_top(main, interp, layout),
                    args,
                    envs,
                    told(loaded(main, interp, layout)),
                    even,
                ) > layout.stack_size,
                Err(StartError::NoFrames(set, frame)) => set.wf(after) && all_own(
                    &set,
                    after,
                    before,
                ) && before.frames().free.count() < 3 + frames_for(parts) + stack_frames(
                    main,
                    interp,
                    layout,
                ),
            }
        },
    }
}

/// The part of the stack among the parts of an image.
proof fn lemma_stack_part(main: Plan, interp: Option<Plan>, layout: ImageLayout) -> (k: int)
    requires
        0 <= code_end(main, interp),
        layout.stack_size % 4096 == 0,
        heap_bottom(main, interp, layout) <= VA_LIMIT / 2,
    ensures
        ({
            let parts = image_parts(main, interp, layout);
            let top = stack_top(main, interp, layout);
            &&& 0 <= k < parts.len()
            &&& !parts[k].filled
            &&& parts[k].area.start * 4096 == top - layout.stack_size
            &&& parts[k].area.end * 4096 == top
            &&& parts[k].area.map_perm == data_perm()
            &&& parts[k].area.map_type == crate::mm::area::MapType::Framed
            &&& parts[k].area.shared_group is None
        }),
{
    let low = low_parts(main, interp);
    let data = data_parts(
        (code_end(main, interp) + GUARD_PAGES) * 4096,
        stack_top(main, interp, layout),
    );
    let parts = image_parts(main, interp, layout);
    assert(parts[low.len() as int] == data[0]);
    low.len() as int
}

/// The pages of the stack get their frames when they are used.
proof fn lemma_stack_framed(
    set: &MemorySet,
    memory: &PhysMemory,
    before: &PhysMemory,
    kernel: &PageTable,
    main: Plan,
    interp: Option<Plan>,
    layout: ImageLayout,
    trampoline: (VirtPageNum, PhysPageNum),
    v: int,
)
    requires
        assembled_whole(set, memory, image_parts(main, interp, layout), trampoline, kernel, before),
        0 <= code_end(main, interp),
        layout.stack_size % 4096 == 0,
        heap_bottom(main, interp, layout) <= VA_LIMIT / 2,
        stack_top(main, interp, layout) - layout.stack_size <= v * 4096 + 4095,
        v * 4096 < stack_top(main, interp, layout),
    ensures
        in_framed_area(set.areas(), v),
        set.areas()[holder(set.areas(), v)->Some_0].map_perm == data_perm(),
        part_perm(image_parts(main, interp, layout), v) is None,
{
    let parts = image_parts(main, interp, layout);
    let k = lemma_stack_part(main, interp, layout);
    assert(set.areas().contains(parts[k].area));
    let i = choose|i: int| 0 <= i < set.areas().len() && set.areas()[i] == parts[k].area;
    assert(set.areas()[i].holds(v));
    lemma_holder(set.areas(), i, v);
    lemma_part_filled(parts, k, v);
}

/// The pages of a program whose stack got its frames.
proof fn lemma_start_mapping(
    made: &MemorySet,
    mid: &PhysMemory,
    started: Started,
    memory: &PhysMemory,
    before: &PhysMemory,
    kernel: &PageTable,
    main: Plan,
    interp: Option<Plan>,
    layout: ImageLayout,
    trampoline: (VirtPageNum, PhysPageNum),
    q: int,
)
    requires
        assembled_whole(made, mid, image_parts(main, interp, layout), trampoline, kernel, before),
        0 <= code_end(main, interp),
        layout.stack_size % 4096 == 0,
        heap_bottom(main, interp, layout) <= VA_LIMIT / 2,
        started.image.stack_top == stack_top(main, interp, layout),
        started.image.stack_top - layout.stack_size <= started.stack.sp < started.image.stack_top,
        stack_ready(
            made,
            mid,
            &started.set,
            memory,
            started.stack.sp as int / 4096,
            (started.image.stack_top - 1) / 4096 + 1,
        ),
        is_page(q),
    ensures
        started.set.mapping(memory, q) == start_mapping(
            started,
            image_parts(main, interp, layout),
            trampoline,
            kernel,
            before,
            q,
        ),
{
    let parts = image_parts(main, interp, layout);
    let old_mapping = made.mapping(mid, q);
    assert(old_mapping == if q < VPN_LIMIT / 2 {
        part_mapping(parts, made.resident(), trampoline, q)
    } else {
        kernel.at(before, q)
    });
    if on_stack(started.stack.sp as int, started.image.stack_top as int, q) {
        lemma_stack_framed(
            made,
            mid,
            before,
            kernel,
            main,
            interp,
            layout,
            trampoline,
            q,
        );
    }
    if part_perm(parts, q) is Some {
        assert(made.resident().contains_key(q as u64));
        assert(started.set.resident()[q as u64] == made.resident()[q as u64]);
    }
}

/// What was loaded of a program, with its stack laid out.
spec fn laid_out(
    set: MemorySet,
    image: LoadedImage,
    copies: Copies,
    stack: StackImage,
    before: &PhysMemory,
    memory: &PhysMemory,
    kernel: &PageTable,
    plans: (Plan, Option<Plan>),
    layout: ImageLayout,
    trampoline: (VirtPageNum, PhysPageNum),
    asid: u64,
    args: Seq<Vec<u8>>,
    envs: Seq<Vec<u8>>,
    even: bool,
) -> bool {
    let parts = image_parts(plans.0, plans.1, layout);
    &&& 0 <= code_end(plans.0, plans.1)
    &&& layout.stack_size % 4096 == 0
    &&& heap_bottom(plans.0, plans.1, layout) <= VA_LIMIT / 2
    &&& assembled_whole(&set, memory, parts, trampoline, kernel, before)
    &&& all_own(&set, memory, before)
    &&& copies_owed(copies, plans.0, plans.1)
    &&& image == loaded(plans.0, plans.1, layout)
    &&& image.stack_top == stack_top(plans.0, plans.1, layout)
    &&& set.number() == asid
    &&& set.brk() == image.heap_bottom
    &&& set.heap_start() == image.heap_bottom
    &&& stack_bytes(image.stack_top as int, args, envs, told(image), even) <= layout.stack_size
    &&& image.stack_top - layout.stack_size <= stack.sp < image.stack_top
    &&& stack_laid(stack, image.stack_top as int, args, envs, told(image), even)
}

/// Makes the stack and the registers of a program that was loaded ready.
#[verifier::spinoff_prover]
#[verifier::rlimit(40)]
fn finish_start(
    memory: &mut PhysMemory,
    shared: &mut SharedPages,
    set: MemorySet,
    image: LoadedImage,
    copies: Copies,
    stack: StackImage,
    args: &Vec<Vec<u8>>,
    envs: &Vec<Vec<u8>>,
    kernel: &PageTable,
    layout: ImageLayout,
    trampoline: (VirtPageNum, PhysPageNum),
    asid: u64,
    even: bool,
    Ghost(before): Ghost<PhysMemory>,
    Ghost(plans): Ghost<(Plan, Option<Plan>)>,
) -> (result: Result<Started, StartError>)
    requires
        old(shared).wf(),
        laid_out(
            set,
            image,
            copies,
            stack,
            &before,
            old(memory),
            kernel,
            plans,
            layout,
            trampoline,
            asid,
            args@,
            envs@,
            even,
        ),
    ensures
        final(memory).wf(),
        final(shared).wf(),
        match result {
            Ok(started) => started_as(
                started,
                &before,
                final(memory),
                kernel,
                plans,
                layout,
                trampoline,
                asid,
                args@,
                envs@,
                even,
            ),
            Err(StartError::NoFrames(set, frame)) => set.wf(final(memory)) && all_own(
                &set,
                final(memory),
                &before,
            ) && handed_back(old(memory), final(memory), frame) && old(memory).frames().free.count() < stack_frames(plans.0, plans.1, layout),
            Err(_) => false,
        },
{
    let ghost made = set;
    let ghost mid = *memory;
    let ghost (main, interp) = plans;
    let ghost parts = image_parts(main, interp, layout);
    assert forall|v: int|
        stack.sp as int / 4096 <= v <= (image.stack_top - 1) / 4096 implies
        #[trigger] in_framed_area(made.areas(), v) by {
        lemma_stack_framed(&made, &mid, &before, kernel, main, interp, layout, trampoline, v);
    }
    proof {
        let top = stack_top(main, interp, layout);
        lemma_fewer_frames((top - layout.stack_size) / 4096, stack.sp as int / 4096, top / 4096);
    }
    let mut set = set;
    let prepared = set.prepare_stack_pages(memory, shared, stack.sp, image.stack_top);
    proof {
        lemma_own_reached(&made, &mid, &set, memory, &before);
    }
    match prepared {
        Err(frame) => Err(StartError::NoFrames(set, frame)),
        Ok(()) => {
            let texts = list_texts(&stack, args, envs);
            let argc: usize = args.len();
            let regs = start_registers(image.final_entry, stack.sp, argc as u64, stack.argv_base);
            let started = Started { set, image, copies, stack, texts, regs };
            proof {
                assert(stack_ready(
                    &made,
                    &mid,
                    &started.set,
                    memory,
                    started.stack.sp as int / 4096,
                    (started.image.stack_top - 1) / 4096 + 1,
                ));
                assert forall|q: int| is_page(q) implies #[trigger] started.set.mapping(memory, q)
                    == start_mapping(started, parts, trampoline, kernel, &before, q) by {
                    lemma_start_mapping(
                        &made,
                        &mid,
                        started,
                        memory,
                        &before,
                        kernel,
                        main,
                        interp,
                        layout,
                        trampoline,
                        q,
                    );
                }
                assert forall|v: int| #[trigger] started.set.page(v) == part_page(parts, v) by {
                    assert(made.page(v) == part_page(parts, v));
                }
            }
            Ok(started)
        },
    }
}

/// Loads a program and makes its stack and its registers ready.
#[verifier::spinoff_prover]
#[verifier::rlimit(40)]
pub fn start_program(
    memory: &mut PhysMemory,
    shared: &mut SharedPages,
    kernel: &PageTable,
    asid: u64,
    trampoline: (VirtPageNum, PhysPageNum),
    elf_data: &Vec<u8>,
    interp_data: Option<&Vec<u8>>,
    layout: ImageLayout,
    args: &Vec<Vec<u8>>,
    envs: &Vec<Vec<u8>>,
    even: bool,
) -> (result: Result<Started, StartError>)
    requires
        old(memory).wf(),
        old(shared).wf(),
        kernel.wf(old(memory)),
        trampoline.0.0 < VPN_LIMIT,
        layout.stack_size % 4096 == 0,
    ensures
        final(memory).wf(),
        final(shared).wf(),
        start_outcome(
            result,
            old(memory),
            final(memory),
            kernel,
            image_plans(
                elf_data@,
                match interp_data {
                    Some(data) => Some(data@),
                    None => None,
                },
                layout,
            ),
            layout,
            trampoline,
            asid,
            args@,
            envs@,
            even,
        ),
{
    let ghost plans = image_plans(
        elf_data@,
        match interp_data {
            Some(data) => Some(data@),
            None => None,
        },
        layout,
    );
    let (set, image, copies, stack) = match load_program(
        memory,
        shared,
        kernel,
        asid,
        trampoline,
        elf_data,
        interp_data,
        layout,
        args,
        envs,
        even,
    ) {
        Err(error) => {
            return Err(error);
        },
        Ok(parts) => parts,
    };
    proof {
        lemma_plans_end(elf_data@, interp_data, layout);
        lemma_stack_above(elf_data@, interp_data, layout);
    }
    finish_start(
        memory,
        shared,
        set,
        image,
        copies,
        stack,
        args,
        envs,
        kernel,
        layout,
        trampoline,
        asid,
        even,
        Ghost(*old(memory)),
        Ghost(plans->Ok_0),
    )
}

/// What a thread is after its process went over to another program: the thread that started
/// it, with the numbers of what it got, and its own number, family and files.
pub open spec fn thread_taken_over(
    before: TaskStruct,
    after: TaskStruct,
    ids: ExecIds,
    path: Seq<u8>,
    args: Seq<Vec<u8>>,
    on_main_hart: bool,
    now: u64,
) -> bool {
    &&& after.inner.exe_path@ == path
    &&& after.inner.signals.is_idle()
    &&& after.inner.signals.pending.signals.bits == 0
    &&& after.inner.signals.pending.queue@.len() == 0
    &&& !after.inner.signals.pending.wait_chldexit
    &&& after.inner.signals.blocked == before.inner.signals.blocked
    &&& after.inner.signals.signal_alt_stack == before.inner.signals.signal_alt_stack
    &&& after.inner.comm@ == if args.len() > 0 {
        name_bytes(args[0]@)
    } else {
        before.inner.comm@
    }
    &&& after == (TaskStruct {
        inner: TaskStructInner {
            mm: Some(ids.mm),
            signal: ids.signal,
            signal_hand: ids.signal_hand,
            sched: SchedTask { on_main_hart, ..before.inner.sched },
            exe_path: after.inner.exe_path,
            signals: after.inner.signals,
            clear_child_tid: 0,
            start_time: now,
            comm: after.inner.comm,
            ..before.inner
        },
        ..before
    })
}

/// The files that another program does not get are closed.
pub open spec fn files_closed(before: FileDescriptorTable, after: FileDescriptorTable) -> bool {
    &&& after.next_fd == before.next_fd
    &&& after.fds@.len() == before.fds@.len()
    &&& forall|i: int|
        0 <= i < before.fds@.len() ==> #[trigger] after.fds@[i]
            == if before.fds@[i].flags.cloexec {
            free_place()
        } else {
            before.fds@[i]
        }
}

/// The other threads of a process are not known any more.
pub open spec fn siblings_gone(
    before: Seq<Entry>,
    after: Seq<Entry>,
    gone: Seq<u64>,
    tgid: u64,
    tid: u64,
) -> bool {
    &&& rising_ids(gone)
    &&& forall|t: u64| #[trigger]
        gone.contains(t) <==> t != tid && before.contains(Entry { tid: t, tgid })
    &&& forall|e: Entry| #[trigger]
        after.contains(e) <==> before.contains(e) && (e.tgid != tgid || e.tid == tid)
}

impl TaskStruct {
    /// Goes over to another program. Where it cannot start, nothing changes but memory.
    ///
    /// Returns the program, the state of signals that the process gets, and the threads that
    /// are to end.
    pub fn exec_program(
        &mut self,
        memory: &mut PhysMemory,
        shared: &mut SharedPages,
        files: &mut FileDescriptorTable,
        threads: &mut Registry,
        kernel: &PageTable,
        asid: u64,
        trampoline: (VirtPageNum, PhysPageNum),
        elf_data: &Vec<u8>,
        interp_data: Option<&Vec<u8>>,
        layout: ImageLayout,
        args: &Vec<Vec<u8>>,
        envs: &Vec<Vec<u8>>,
        old_signal: &Signal,
        ids: ExecIds,
        executable_path: Vec<u8>,
        on_main_hart: bool,
        now: u64,
    ) -> (result: Result<(Started, Signal, Vec<u64>), StartError>)
        requires
            old(memory).wf(),
            old(shared).wf(),
            old(threads).wf(),
            kernel.wf(old(memory)),
            trampoline.0.0 < VPN_LIMIT,
            layout.stack_size % 4096 == 0,
        ensures
            final(memory).wf(),
            final(shared).wf(),
            final(threads).wf(),
            start_outcome(
                match result {
                    Ok((started, signal, gone)) => Ok(started),
                    Err(error) => Err(error),
                },
                old(memory),
                final(memory),
                kernel,
                image_plans(
                    elf_data@,
                    match interp_data {
                        Some(data) => Some(data@),
                        None => None,
                    },
                    layout,
                ),
                layout,
                trampoline,
                asid,
                args@,
                envs@,
                true,
            ),
            match result {
                Ok((started, signal, gone)) => {
                    &&& thread_taken_over(
                        *old(self),
                        *final(self),
                        ids,
                        executable_path@,
                        args@,
                        on_main_hart,
                        now,
                    )
                    &&& signal.is_fresh(old_signal.rlimits)
                    &&& files_closed(*old(files), *final(files))
                    &&& siblings_gone(
                        old(threads)@,
                        final(threads)@,
                        gone@,
                        old(self).tgid,
                        old(self).pid,
                    )
                },
                Err(_) => *final(self) == *old(self) && *final(files) == *old(files)
                    && *final(threads) == *old(threads),
            },
    {
        match start_program(
            memory,
            shared,
            kernel,
            asid,
            trampoline,
            elf_data,
            interp_data,
            layout,
            args,
            envs,
            true,
        ) {
            Err(error) => Err(error),
            Ok(started) => {
                self.install_exec_image(ids, executable_path, args, on_main_hart, now);
                let signal = Signal::fork_from(old_signal);
                files.close_on_exec();
                let gone = threads.remove_siblings(self.tgid, self.pid);
                Ok((started, signal, gone))
            },
        }
    }
}

impl ProcessControlBlock {
    /// Goes over to another program, with the thread that asked for it alone. Where it cannot
    /// start, nothing changes but memory.
    pub fn exec_program(
        &mut self,
        memory: &mut PhysMemory,
        shared: &mut SharedPages,
        kernel: &PageTable,
        asid: u64,
        trampoline: (VirtPageNum, PhysPageNum),
        elf_data: &Vec<u8>,
        interp_data: Option<&Vec<u8>>,
        layout: ImageLayout,
        args: &Vec<Vec<u8>>,
        envs: &Vec<Vec<u8>>,
        caller_tid: u64,
        memory_set: u64,
        on_main_hart: bool,
    ) -> (result: Result<Started, StartError>)
        requires
            old(memory).wf(),
            old(shared).wf(),
            kernel.wf(old(memory)),
            trampoline.0.0 < VPN_LIMIT,
            layout.stack_size % 4096 == 0,
        ensures
            final(memory).wf(),
            final(shared).wf(),
            start_outcome(
                result,
                old(memory),
                final(memory),
                kernel,
                image_plans(
                    elf_data@,
                    match interp_data {
                        Some(data) => Some(data@),
                        None => None,
                    },
                    layout,
                ),
                layout,
                trampoline,
                asid,
                args@,
                envs@,
                false,
            ),
            match result {
                Ok(started) => process_taken_over(
                    *old(self),
                    *final(self),
                    caller_tid,
                    memory_set,
                    started.image.heap_bottom,
                    if args@.len() > 0 {
                        Some(args@[0]@)
                    } else {
                        None
                    },
                    on_main_hart,
                ),
                Err(_) => *final(self) == *old(self),
            },
    {
        match start_program(
            memory,
            shared,
            kernel,
            asid,
            trampoline,
            elf_data,
            interp_data,
            layout,
            args,
            envs,
            false,
        ) {
            Err(error) => Err(error),
            Ok(started) => {
                let name: Option<Vec<u8>> = if args.len() > 0 {
                    Some(copy_text(&args[0]))
                } else {
                    None
                };
                self.exec(caller_tid, memory_set, started.image.heap_bottom, name, on_main_hart);
                Ok(started)
            },
        }
    }
}

} // verus!
