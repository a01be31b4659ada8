//! What a program starts with: its memory, its stack and its registers.

use vstd::prelude::*;

use super::exec_stack::{
    all_bytes, build_stack, random_place, sp_of, stack_bytes, stack_need, stack_words, text_places,
    AuxInfo, StackImage,
};
use super::status::TaskStatus;
use super::tcb::{TaskStruct, TaskStructInner};
use crate::mm::address::{PageSize, PhysPageNum, VirtPageNum, PAGE_SIZE, VA_LIMIT, VPN_LIMIT};
use crate::mm::area::{MapArea, MapType};
use crate::mm::elf::{ImageLayout, LoadError};
use crate::mm::frame_allocator::FrameTracker;
use crate::mm::memory_set::load::{
    heap_bottom, image_plans, loaded, stack_top, Copies, LoadedImage,
};
use crate::mm::memory_set::kernel_half::{lemma_plans_end, loaded_whole};
use crate::mm::memory_set::{
    frames_between, groups_ok, handed_back, holder, lemma_frames_between, lemma_next_tables,
    page_of, FaultOutcome, MemorySet, SharedPages,
};
use crate::mm::memory_set::owned::{
    keeps_own, lemma_keeps_own_both, lemma_keeps_own_page, lemma_keeps_own_self,
    lemma_keeps_own_taken,
};
use crate::mm::page_table::{is_page, PageTable};
use crate::mm::phys::{lemma_free_before, lemma_held_both, lemma_held_self, PhysMemory};
use crate::mm::pte::PageTableEntry;
use crate::process::registry::{known, rising, rising_ids, Entry, Registry};
use crate::process::scheduler::runqueue::SchedTask;
use crate::process::signal::frame::TrapRegs;

verus! {

broadcast use {
    lemma_held_both,
    lemma_held_self,
    lemma_keeps_own_both,
    lemma_keeps_own_self,
};

/// What a program is told of its image.
pub open spec fn told(image: LoadedImage) -> AuxInfo {
    AuxInfo {
        phdr: image.phdr_addr,
        phent: image.phent,
        phnum: image.phnum,
        entry: image.main_entry,
        base: image.interp_base,
    }
}

/// Why a program cannot start.
pub enum StartError {
    /// Its files cannot be loaded; what was built so far comes along.
    Load(LoadError, Option<MemorySet>),
    /// Its arguments and settings do not fit on the stack.
    NoRoom(MemorySet, LoadedImage, Copies),
    /// There are not enough frames for the pages of the stack.
    NoFrames(MemorySet, Option<FrameTracker>),
}

/// What the loading of the files came to.
pub open spec fn loaded_of(
    result: Result<(MemorySet, LoadedImage, Copies, StackImage), StartError>,
) -> Result<(MemorySet, LoadedImage, Copies), (LoadError, Option<MemorySet>)> {
    match result {
        Ok((set, image, copies, stack)) => Ok((set, image, copies)),
        Err(StartError::Load(error, set)) => Err((error, set)),
        Err(StartError::NoRoom(set, image, copies)) => Ok((set, image, copies)),
        Err(StartError::NoFrames(set, frame)) => Err((LoadError::OutOfFrames, Some(set))),
    }
}

/// The stack holds the arguments and settings below an address.
pub open spec fn stack_laid(
    stack: StackImage,
    top: int,
    args: Seq<Vec<u8>>,
    envs: Seq<Vec<u8>>,
    info: AuxInfo,
    even: bool,
) -> bool {
    &&& stack.sp == sp_of(top, args, envs, info, even)
    &&& stack.argv_base == stack.sp + 8
    &&& stack.random_at == random_place(top, args, envs)
    &&& stack.arg_ptrs@ == text_places(args, top)
    &&& stack.env_ptrs@ == text_places(envs, top - all_bytes(args))
    &&& stack.words@ == stack_words(top, args, envs, info)
}

/// Builds the address space of a program and lays out its stack.
pub fn load_program(
    memory: &mut PhysMemory,
    shared: &mut SharedPages,
    kernel: &PageTable,
    asid: u64,
    trampoline: (VirtPageNum, PhysPageNum),
    elf_data: &Vec<u8>,
    interp_data: Option<&Vec<u8>>,
    layout: ImageLayout,
    args: &Vec<Vec<u8>>,
    envs: &Vec<Vec<u8>>,
    even: bool,
) -> (result: Result<(MemorySet, LoadedImage, Copies, StackImage), StartError>)
    requires
        old(memory).wf(),
        old(shared).wf(),
        kernel.wf(old(memory)),
        trampoline.0.0 < VPN_LIMIT,
        layout.stack_size % 4096 == 0,
    ensures
        final(memory).wf(),
        final(shared).wf(),
        kernel.wf(final(memory)),
        kernel.same_pages(final(memory), kernel, old(memory)),
        loaded_whole(
            loaded_of(result),
            old(memory),
            final(memory),
            image_plans(
                elf_data@,
                match interp_data {
                    Some(data) => Some(data@),
                    None => None,
                },
                layout,
            ),
            layout,
            trampoline,
            asid,
            kernel,
        ),
        match result {
            Ok((set, image, copies, stack)) => {
                &&& stack_bytes(image.stack_top as int, args@, envs@, told(image), even)
                    <= layout.stack_size
                &&& image.stack_top - layout.stack_size <= stack.sp
                &&& stack.sp < image.stack_top
                &&& stack_laid(stack, image.stack_top as int, args@, envs@, told(image), even)
            },
            Err(StartError::NoRoom(set, image, copies)) => stack_bytes(
                image.stack_top as int,
                args@,
                envs@,
                told(image),
                even,
            ) > layout.stack_size,
            Err(StartError::Load(_, _)) => true,
            Err(StartError::NoFrames(_, _)) => false,
        },
{
    match MemorySet::load_user(
        memory,
        shared,
        kernel,
        asid,
        trampoline,
        elf_data,
        interp_data,
        layout,
    ) {
        Err((error, set)) => Err(StartError::Load(error, set)),
        Ok((set, image, copies)) => {
            let info = AuxInfo {
                phdr: image.phdr_addr,
                phent: image.phent,
                phnum: image.phnum,
                entry: image.main_entry,
                base: image.interp_base,
            };
            let fits: bool = match stack_need(image.stack_top, args, envs, info, even) {
                None => false,
                Some(need) => need <= layout.stack_size,
            };
            assert(layout.stack_size <= image.stack_top) by {
                lemma_stack_above(elf_data@, interp_data, layout);
            }
            if fits {
                let stack = build_stack(image.stack_top, args, envs, info, even);
                Ok((set, image, copies, stack))
            } else {
                Err(StartError::NoRoom(set, image, copies))
            }
        },
    }
}

/// The stack of a program lies above address zero.
pub proof fn lemma_stack_above(data: Seq<u8>, interp_data: Option<&Vec<u8>>, layout: ImageLayout)
    ensures
        image_plans(
            data,
            match interp_data {
                Some(data) => Some(data@),
                None => None,
            },
            layout,
        ) matches Ok((main, interp)) ==> (heap_bottom(main, interp, layout) <= VA_LIMIT
            ==> loaded(main, interp, layout).stack_top == stack_top(main, interp, layout)
            && layout.stack_size <= stack_top(main, interp, layout)),
{
    lemma_plans_end(data, interp_data, layout);
}

/// A page belongs to an area that gets frames when it is used.
pub open spec fn in_framed_area(s: Seq<MapArea>, v: int) -> bool {
    holder(s, v) matches Some(i) && s[i].map_type == MapType::Framed && !s[i].closed_to_user()
        && s[i].shared_group is None
}

/// The pages from one to another have frames; others, and those that had, are as they were.
pub open spec fn stack_ready(
    before: &MemorySet,
    memory_before: &PhysMemory,
    after: &MemorySet,
    memory_after: &PhysMemory,
    first: int,
    end: int,
) -> bool {
    &&& forall|q: u64| #[trigger]
        after.resident().contains_key(q) <==> before.resident().contains_key(q) || (first <= q < end
            && before.mapping(memory_before, q as int) is None)
    &&& forall|q: u64| #[trigger]
        before.resident().contains_key(q) ==> after.resident()[q] == before.resident()[q]
    &&& forall|q: int|
        is_page(q) ==> {
            let old_mapping = before.mapping(memory_before, q);
            #[trigger] after.mapping(memory_after, q) == if first <= q < end && old_mapping is None {
                Some(
                    (
                        PageTableEntry {
                            page: after.resident()[q as u64].ppn,
                            flags: before.areas()[holder(
                                before.areas(),
                                q,
                            )->Some_0].map_perm.pte_flags().installed(),
                        },
                        PageSize::Page4K,
                    ),
                )
            } else {
                old_mapping
            }
        }
}

/// A page more is ready: it had a frame, or it got one.
proof fn lemma_page_ready(
    before: &MemorySet,
    memory_before: &PhysMemory,
    mid: &MemorySet,
    memory_mid: &PhysMemory,
    after: &MemorySet,
    memory_after: &PhysMemory,
    shared: Map<u64, FrameTracker>,
    first: int,
    v: u64,
)
    requires
        stack_ready(before, memory_before, mid, memory_mid, first, v as int),
        first <= v < VPN_LIMIT,
        mid.areas() == before.areas(),
        holder(mid.areas(), v as int) is Some,
        mid.mapping(memory_mid, v as int) is Some ==> *after == *mid && *memory_after
            == *memory_mid,
        mid.mapping(memory_mid, v as int) is None ==> after.page_filled(
            memory_after,
            shared,
            mid,
            memory_mid,
            shared,
            v,
            mid.areas()[holder(mid.areas(), v as int)->Some_0],
        ),
        mid.wf(memory_mid),
    ensures
        stack_ready(before, memory_before, after, memory_after, first, v + 1),
{
    assert(mid.mapping(memory_mid, v as int) == before.mapping(memory_before, v as int));
    if mid.resident().contains_key(v) {
        assert(mid.frame_mapped(memory_mid, v));
    }
    assert forall|q: u64| #[trigger] after.resident().contains_key(q)
        <==> before.resident().contains_key(q) || (first <= q < v + 1 && before.mapping(
        memory_before,
        q as int,
    ) is None) by {
        assert(mid.resident().contains_key(q) <==> before.resident().contains_key(q) || (first <= q
            < v && before.mapping(memory_before, q as int) is None));
    }
    assert forall|q: u64| #[trigger] before.resident().contains_key(q) implies after.resident()[q]
        == before.resident()[q] by {
        assert(mid.resident().contains_key(q));
        assert(mid.resident()[q] == before.resident()[q]);
    }
    assert forall|q: int| is_page(q) implies {
        let old_mapping = before.mapping(memory_before, q);
        #[trigger] after.mapping(memory_after, q) == if first <= q < v + 1 && old_mapping is None {
            Some(
                (
                    PageTableEntry {
                        page: after.resident()[q as u64].ppn,
                        flags: before.areas()[holder(
                            before.areas(),
                            q,
                        )->Some_0].map_perm.pte_flags().installed(),
                    },
                    PageSize::Page4K,
                ),
            )
        } else {
            old_mapping
        }
    } by {
    }
}

impl MemorySet {
    /// Gives the pages of a range of addresses in the stack their frames.
    pub fn prepare_stack_pages(
        &mut self,
        memory: &mut PhysMemory,
        shared: &mut SharedPages,
        start: u64,
        end: u64,
    ) -> (done: Result<(), Option<FrameTracker>>)
        requires
            old(self).wf(old(memory)),
            old(shared).wf(),
            groups_ok(old(self).areas()),
            start < end <= VA_LIMIT,
            forall|v: int|
                start / 4096 <= v <= (end - 1) / 4096 ==> #[trigger] in_framed_area(
                    old(self).areas(),
                    v,
                ),
        ensures
            final(self).wf(final(memory)),
            final(shared).wf(),
            final(shared)@ == old(shared)@,
            final(self).areas() == old(self).areas(),
            final(self).brk() == old(self).brk(),
            final(self).heap_start() == old(self).heap_start(),
            final(self).number() == old(self).number(),
            final(self).keeps_apart(final(memory), old(self), old(memory)),
            keeps_own(old(self), old(memory), final(self), final(memory)),
            done is Err ==> handed_back(old(memory), final(memory), done->Err_0),
            exists|stop: int|
                start / 4096 <= stop <= (end - 1) / 4096 + 1 && (done is Ok <==> stop == (end - 1)
                    / 4096 + 1) && #[trigger] stack_ready(
                    old(self),
                    old(memory),
                    final(self),
                    final(memory),
                    (start / 4096) as int,
                    stop,
                ),
            old(memory).frames().free.count() >= frames_between(
                (start / 4096) as int,
                (end - 1) / 4096 + 1,
            ) ==> done is Ok,
    {
        let first: u64 = start / PAGE_SIZE;
        let last: u64 = (end - 1) / PAGE_SIZE;
        let mut v: u64 = first;
        while v <= last
            invariant
                self.wf(memory),
                shared.wf(),
                shared@ == old(shared)@,
                self.areas() == old(self).areas(),
                groups_ok(self.areas()),
                self.brk() == old(self).brk(),
                self.heap_start() == old(self).heap_start(),
                self.number() == old(self).number(),
                self.keeps_apart(memory, old(self), old(memory)),
                keeps_own(old(self), old(memory), self, memory),
                old(memory).wf(),
                first == start / 4096,
                last == (end - 1) / 4096,
                first <= v <= last + 1,
                0 < end <= VA_LIMIT,
                forall|q: int| first <= q <= last ==> #[trigger] in_framed_area(self.areas(), q),
                stack_ready(old(self), old(memory), self, memory, first as int, v as int),
                memory.frames().free.count() >= old(memory).frames().free.count()
                    - frames_between(first as int, v as int),
            decreases last + 1 - v,
        {
            let ghost before = *self;
            let ghost memory_before = *memory;
            assert(in_framed_area(self.areas(), v as int));
            proof {
                if v > first && self.mapping(memory, v as int) is None {
                    assert(self.mapping(memory, v - 1) is Some);
                    lemma_next_tables(self.table(), memory, v as int);
                }
                lemma_frames_between(first as int, v as int, last + 1);
            }
            let addr: u64 = v * PAGE_SIZE;
            assert(page_of(addr as int) == v);
            match self.handle_page_fault(memory, shared, addr, end) {
                FaultOutcome::OutOfFrames(frame) => {
                    proof {
                        lemma_keeps_own_taken(&before, &memory_before, self, memory);
                        if let Some(f) = frame {
                            lemma_free_before(old(memory), &memory_before, f.ppn.0);
                        }
                    }
                    assert(stack_ready(
                        old(self),
                        old(memory),
                        self,
                        memory,
                        first as int,
                        v as int,
                    ));
                    return Err(frame);
                },
                _ => {},
            }
            proof {
                if before.mapping(&memory_before, v as int) is None {
                    lemma_keeps_own_page(&before, &memory_before, self, memory, v);
                }
                lemma_page_ready(
                    old(self),
                    old(memory),
                    &before,
                    &memory_before,
                    self,
                    memory,
                    shared@,
                    first as int,
                    v,
                );
            }
            v = v + 1;
        }
        Ok(())
    }
}

/// Returns the registers that a program starts with: where it starts, its stack pointer, the
/// number of its arguments and where they are.
pub fn start_registers(entry: u64, sp: u64, argc: u64, argv_base: u64) -> (regs: TrapRegs)
    ensures
        regs.pc == entry,
        regs.x@ == Seq::new(32, |i: int| 0u64).update(2, sp).update(10, argc).update(
            11,
            argv_base,
        ),
{
    let mut x: [u64; 32] = [0;32];
    assert(x@ =~= Seq::new(32, |i: int| 0u64));
    x[2] = sp;
    x[10] = argc;
    x[11] = argv_base;
    TrapRegs { x, pc: entry }
}

/// Of a sequence with one more, that one and the others are members.
proof fn lemma_pushed(s: Seq<u64>, t: u64)
    ensures
        forall|u: u64| #[trigger] s.push(t).contains(u) <==> u == t || s.contains(u),
{
    assert forall|u: u64| #[trigger] s.push(t).contains(u) <==> u == t || s.contains(u) by {
        if s.contains(u) {
            let i = choose|i: int| 0 <= i < s.len() && s[i] == u;
            assert(s.push(t)[i] == u);
        }
        assert(s.push(t)[s.len() as int] == t);
    }
}

/// A number stands for one thread.
proof fn lemma_one_entry(s: Seq<Entry>, a: Entry, b: Entry)
    requires
        rising(s),
        s.contains(a),
        s.contains(b),
        a.tid == b.tid,
    ensures
        a == b,
{
    let i = choose|i: int| 0 <= i < s.len() && s[i] == a;
    let j = choose|j: int| 0 <= j < s.len() && s[j] == b;
    assert(i == j);
}

impl Registry {
    /// Takes the other threads of a process out and returns them, the lowest number first.
    pub fn remove_siblings(&mut self, tgid: u64, tid: u64) -> (gone: Vec<u64>)
        requires
            old(self).wf(),
        ensures
            final(self).wf(),
            rising_ids(gone@),
            forall|t: u64|
                #[trigger] gone@.contains(t) <==> t != tid && old(self)@.contains(
                    Entry { tid: t, tgid },
                ),
            forall|e: Entry| #[trigger]
                final(self)@.contains(e) <==> old(self)@.contains(e) && (e.tgid != tgid || e.tid
                    == tid),
    {
        let all = self.threads_of(tgid);
        let mut gone: Vec<u64> = Vec::new();
        let mut i: usize = 0;
        while i < all.len()
            invariant
                self.wf(),
                i <= all@.len(),
                rising_ids(all@),
                forall|t: u64| #[trigger]
                    all@.contains(t) <==> old(self)@.contains(Entry { tid: t, tgid }),
                rising(old(self)@),
                rising_ids(gone@),
                forall|j: int, k: int|
                    0 <= j < gone@.len() && i <= k < all@.len() ==> #[trigger] gone@[j]
                        < #[trigger] all@[k],
                forall|t: u64| #[trigger]
                    gone@.contains(t) <==> t != tid && all@.take(i as int).contains(t),
                forall|e: Entry| #[trigger]
                    self@.contains(e) <==> old(self)@.contains(e) && !gone@.contains(e.tid),
            decreases all@.len() - i,
        {
            let t: u64 = all[i];
            let ghost taken = gone@;
            let ghost left = self@;
            assert(all@.take(i + 1) =~= all@.take(i as int).push(t));
            assert(all@.take(i + 1).contains(t)) by {
                assert(all@.take(i + 1)[i as int] == t);
            }
            if t != tid {
                gone.push(t);
                self.remove_from_tid2task(t);
                proof {
                    assert(gone@[taken.len() as int] == t);
                    lemma_pushed(taken, t);
                    assert forall|e: Entry| #[trigger] self@.contains(e) <==> old(self)@.contains(e)
                        && !gone@.contains(e.tid) by {
                        if e.tid == t {
                            if self@.contains(e) {
                                assert(known(self@, t));
                            }
                        } else {
                            assert(self@.contains(e) <==> left.contains(e));
                        }
                    }
                }
            }
            proof {
                lemma_pushed(all@.take(i as int), t);
            }
            i = i + 1;
        }
        proof {
            assert(all@.take(all@.len() as int) =~= all@);
            assert forall|e: Entry| #[trigger] self@.contains(e) <==> old(self)@.contains(e) && (
            e.tgid != tgid || e.tid == tid) by {
                if old(self)@.contains(e) && gone@.contains(e.tid) {
                    lemma_one_entry(old(self)@, e, Entry { tid: e.tid, tgid });
                }
                if e.tgid == tgid && old(self)@.contains(e) {
                    assert(e == Entry { tid: e.tid, tgid });
                    assert(all@.contains(e.tid));
                }
            }
        }
        gone
    }
}

impl TaskStruct {
    /// Ends a thread whose process runs another program.
    pub fn retire(&mut self)
        ensures
            *final(self) == (TaskStruct {
                inner: TaskStructInner {
                    mm: None,
                    sched: SchedTask { state: TaskStatus::Zombie, ..old(self).inner.sched },
                    ..old(self).inner
                },
                ..*old(self)
            }),
    {
        self.inner.sched.state = TaskStatus::Zombie;
        self.inner.mm = None;
    }
}

} // verus!
