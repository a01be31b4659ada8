//! Pages that the kernel is about to read or write for a user.
//!
//! A range is made ready page by page: a page without a frame gets one, and a
//! page that is shared until it is written is copied. What has to be read from
//! a file, or copied, is left to the caller, who then asks again.

use vstd::prelude::*;

use crate::mm::address::{
    pages_to_cover, PageSize, PhysPageNum, VirtAddr, VirtPageNum, PAGE_SIZE, VA_LIMIT, VPN_LIMIT,
};
use crate::mm::area::{find_area, PageAttr};
use crate::mm::frame_allocator::FrameTracker;
use crate::mm::page_table::{is_page, lemma_block_alike, lemma_keeps_both, same_block, Mapping};
use crate::mm::phys::{lemma_held_both, lemma_held_self, PhysMemory};
use crate::mm::pte::{MapPermission, PTEFlags, PageTableEntry};

use super::fork::CowOutcome;
use super::{
    first_page, frames_between, groups_ok, holder, lemma_frames_between, lemma_holder,
    lemma_next_tables, page_of, range_start, FaultOutcome, MemorySet, SharedPages,
};

verus! {

broadcast use {
    vstd::std_specs::btree::group_btree_axioms,
    vstd::laws_cmp::group_laws_cmp,
    lemma_keeps_both,
    lemma_held_both,
    lemma_held_self,
};

/// What is to be done before a range can be used.
pub enum AccessStep {
    /// Nothing: every page is ready.
    Ready,
    /// The access is not allowed.
    Refused,
    /// There is no frame; one that could not be mapped goes back.
    OutOfFrames(Option<FrameTracker>),
    /// A page got its frames; ask again.
    Mapped,
    /// Copy `from` to `to`, let go of `released`, and ask again.
    Copy { from: PhysPageNum, to: PhysPageNum, released: Option<FrameTracker> },
    /// Bring what the fault on this page asks for from the file and ask again.
    File(u64, FaultOutcome),
}

/// The last page of a range that is not empty.
pub open spec fn last_of(start: u64, len: u64) -> int {
    first_page((start + len - 1) % (VA_LIMIT as int))
}

/// Frames for the tables on the way to the pages from `a` to `b`.
pub open spec fn tables_between(a: int, b: int) -> int {
    frames_between(a, b) - (b - a)
}

/// The page shows one of the pages of a file of `size` bytes.
pub open spec fn shows_file(page: Option<PageAttr>, size: u64) -> bool {
    page is Some && page->Some_0.file is Some && page->Some_0.file->Some_0.1 < pages_to_cover(
        (size % VA_LIMIT) as int,
    )
}

/// A mapped page can be read, or written where `write` is set.
pub open spec fn ready(mapping: Mapping, write: bool) -> bool {
    mapping matches Some((entry, size)) && entry.flags.v && if write {
        entry.flags.w
    } else {
        entry.flags.r
    }
}

/// The first page from `v` to `last` that is not ready, else the page behind.
pub open spec fn first_unready(
    set: &MemorySet,
    memory: &PhysMemory,
    v: int,
    last: int,
    write: bool,
) -> int
    decreases last + 1 - v,
{
    if v > last || !ready(set.mapping(memory, v), write) {
        v
    } else {
        first_unready(set, memory, v + 1, last, write)
    }
}

/// Pages before the first that is not ready are ready.
pub proof fn law_ready_range(
    set: &MemorySet,
    memory: &PhysMemory,
    v: int,
    last: int,
    write: bool,
    q: int,
)
    requires
        v <= q < first_unready(set, memory, v, last, write),
    ensures
        ready(set.mapping(memory, q), write),
        q <= last,
    decreases last + 1 - v,
{
    if v <= last && ready(set.mapping(memory, v), write) {
        if q > v {
            law_ready_range(set, memory, v + 1, last, write, q);
        }
    }
}

impl MemorySet {
    fn page_ready(&self, memory: &PhysMemory, v: u64, write: bool) -> (yes: bool)
        requires
            self.wf(memory),
            v < VPN_LIMIT,
        ensures
            yes == ready(self.mapping(memory, v as int), write),
    {
        match self.page_table.find_pte(memory, VirtPageNum(v)) {
            None => false,
            Some((entry, size)) => entry.is_valid() && if write {
                entry.writable()
            } else {
                entry.readable()
            },
        }
    }

    /// Goes on making the pages from one to another ready to be read, or written where `write`
    /// is set.
    ///
    /// The first page has to lie in an area.
    fn access_step(
        &mut self,
        memory: &mut PhysMemory,
        shared: &mut SharedPages,
        first: VirtPageNum,
        last: u64,
        sp: u64,
        write: bool,
    ) -> (step: AccessStep)
        requires
            old(self).wf(old(memory)),
            old(shared).wf(),
            groups_ok(old(self).areas()),
            first.0 <= last < VPN_LIMIT,
        ensures
            final(self).wf(final(memory)),
            final(shared).wf(),
            groups_ok(final(self).areas()),
            final(self).brk() == old(self).brk(),
            final(self).heap_start() == old(self).heap_start(),
            final(self).number() == old(self).number(),
            final(self).keeps_apart(final(memory), old(self), old(memory)),
            old(self).step_taken(
                old(memory),
                old(shared)@,
                final(self),
                final(memory),
                final(shared)@,
                first.0 as int,
                last as int,
                sp as int,
                write,
                step,
            ),
    {
        match find_area(&self.areas, first) {
            None => {
                return AccessStep::Refused;
            },
            Some(i) => {
                proof {
                    lemma_holder(self.areas(), i as int, first.0 as int);
                }
            },
        }
        let mut v: u64 = first.0;
        while v <= last && self.page_ready(memory, v, write)
            invariant
                self.wf(memory),
                first.0 <= v <= last + 1,
                last < VPN_LIMIT,
                first_unready(self, memory, first.0 as int, last as int, write) == first_unready(
                    self,
                    memory,
                    v as int,
                    last as int,
                    write,
                ),
            decreases last + 1 - v,
        {
            v = v + 1;
        }
        if v > last {
            return AccessStep::Ready;
        }
        let mapped: bool = match self.page_table.find_pte(memory, VirtPageNum(v)) {
            None => false,
            Some((entry, size)) => entry.is_valid(),
        };
        if mapped {
            if !write {
                return AccessStep::Refused;
            }
            self.answer_write(memory, v)
        } else {
            self.answer_fault(memory, shared, v, sp)
        }
    }

    /// What a step towards ready pages from `first` to `last` does.
    ///
    /// It answers a fault on the first page that is not ready: a write to a
    /// page that is mapped, or an access to one that is not.
    pub open spec fn step_taken(
        &self,
        memory: &PhysMemory,
        shared: Map<u64, FrameTracker>,
        after: &MemorySet,
        memory_after: &PhysMemory,
        shared_after: Map<u64, FrameTracker>,
        first: int,
        last: int,
        sp: int,
        write: bool,
        step: AccessStep,
    ) -> bool {
        let v = first_unready(self, memory, first, last, write);
        let mapping = self.mapping(memory, v);
        let untouched = *after == *self && *memory_after == *memory && shared_after == shared;
        if holder(self.areas(), first) is None {
            step is Refused && untouched
        } else if v > last {
            step is Ready && untouched
        } else if mapping matches Some((entry, size)) && entry.flags.v {
            &&& shared_after == shared
            &&& if !write {
                step is Refused && untouched
            } else {
                self.write_answered(memory, after, memory_after, v, step)
            }
        } else {
            self.fault_answered(
                memory,
                shared,
                after,
                memory_after,
                shared_after,
                v,
                page_of(sp),
                step,
            )
        }
    }

    /// What a write to a mapped page that may not be written leads to.
    pub open spec fn write_answered(
        &self,
        memory: &PhysMemory,
        after: &MemorySet,
        memory_after: &PhysMemory,
        v: int,
        step: AccessStep,
    ) -> bool {
        let outcome = match step {
            AccessStep::Refused => Some(CowOutcome::NotCow),
            AccessStep::OutOfFrames(None) => Some(CowOutcome::OutOfFrames),
            AccessStep::Copy { from, to, released } => Some(
                CowOutcome::Copied { from, to, released },
            ),
            _ => None,
        };
        outcome is Some && self.cow_handled(memory, after, memory_after, v, outcome->Some_0)
    }

    /// What an access to a page that is not mapped leads to, with the stack pointer in page `sp`.
    pub open spec fn fault_answered(
        &self,
        memory: &PhysMemory,
        shared: Map<u64, FrameTracker>,
        after: &MemorySet,
        memory_after: &PhysMemory,
        shared_after: Map<u64, FrameTracker>,
        v: int,
        sp: int,
        step: AccessStep,
    ) -> bool {
        let outcome = match step {
            AccessStep::Refused => Some(FaultOutcome::Failed),
            AccessStep::Mapped => Some(FaultOutcome::Mapped),
            AccessStep::OutOfFrames(frame) => Some(FaultOutcome::OutOfFrames(frame)),
            AccessStep::File(page, outcome) => if page == v && (outcome is SharedFilePage
                || outcome is FilePages || outcome is GrownFile) {
                Some(outcome)
            } else {
                None
            },
            _ => None,
        };
        outcome is Some && self.fault_handled(
            memory,
            shared,
            after,
            memory_after,
            shared_after,
            v,
            sp,
            outcome->Some_0,
        )
    }

    fn answer_write(&mut self, memory: &mut PhysMemory, v: u64) -> (step: AccessStep)
        requires
            old(self).wf(old(memory)),
            v < VPN_LIMIT,
            groups_ok(old(self).areas()),
        ensures
            final(self).wf(final(memory)),
            final(self).areas() == old(self).areas(),
            final(self).brk() == old(self).brk(),
            final(self).heap_start() == old(self).heap_start(),
            final(self).number() == old(self).number(),
            final(self).keeps_apart(final(memory), old(self), old(memory)),
            old(self).write_answered(old(memory), final(self), final(memory), v as int, step),
    {
        let addr: u64 = v * PAGE_SIZE;
        assert(page_of(addr as int) == v);
        match self.handle_cow_fault(memory, addr) {
            CowOutcome::NotCow => AccessStep::Refused,
            CowOutcome::OutOfFrames => AccessStep::OutOfFrames(None),
            CowOutcome::Copied { from, to, released } => AccessStep::Copy { from, to, released },
        }
    }

    fn answer_fault(
        &mut self,
        memory: &mut PhysMemory,
        shared: &mut SharedPages,
        v: u64,
        sp: u64,
    ) -> (step: AccessStep)
        requires
            old(self).wf(old(memory)),
            old(shared).wf(),
            groups_ok(old(self).areas()),
            v < VPN_LIMIT,
        ensures
            final(self).wf(final(memory)),
            final(shared).wf(),
            groups_ok(final(self).areas()),
            final(self).brk() == old(self).brk(),
            final(self).heap_start() == old(self).heap_start(),
            final(self).number() == old(self).number(),
            final(self).keeps_apart(final(memory), old(self), old(memory)),
            old(self).fault_answered(
                old(memory),
                old(shared)@,
                final(self),
                final(memory),
                final(shared)@,
                v as int,
                page_of(sp as int),
                step,
            ),
    {
        let addr: u64 = v * PAGE_SIZE;
        assert(page_of(addr as int) == v);
        match self.handle_page_fault(memory, shared, addr, sp) {
            FaultOutcome::Failed => AccessStep::Refused,
            FaultOutcome::Mapped => AccessStep::Mapped,
            FaultOutcome::OutOfFrames(frame) => AccessStep::OutOfFrames(frame),
            FaultOutcome::SharedFilePage(file, page) => AccessStep::File(
                v,
                FaultOutcome::SharedFilePage(file, page),
            ),
            FaultOutcome::FilePages(file, offset, frames) => AccessStep::File(
                v,
                FaultOutcome::FilePages(file, offset, frames),
            ),
            FaultOutcome::GrownFile(bottom) => AccessStep::File(
                v,
                FaultOutcome::GrownFile(bottom),
            ),
        }
    }

    /// Goes on making a range ready to be written. Of where it starts and ends only the bits count
    /// that an address has.
    pub fn ensure_writable_user_range(
        &mut self,
        memory: &mut PhysMemory,
        shared: &mut SharedPages,
        start: u64,
        len: u64,
        sp: u64,
    ) -> (step: AccessStep)
        requires
            old(self).wf(old(memory)),
            old(shared).wf(),
            groups_ok(old(self).areas()),
            len > 0 ==> start + len - 1 <= u64::MAX && range_start(start) <= last_of(start, len),
        ensures
            final(self).wf(final(memory)),
            final(shared).wf(),
            groups_ok(final(self).areas()),
            final(self).brk() == old(self).brk(),
            final(self).heap_start() == old(self).heap_start(),
            final(self).number() == old(self).number(),
            final(self).keeps_apart(final(memory), old(self), old(memory)),
            len > 0 ==> old(self).step_taken(
                old(memory),
                old(shared)@,
                final(self),
                final(memory),
                final(shared)@,
                range_start(start),
                last_of(start, len),
                sp as int,
                true,
                step,
            ),
            len == 0 ==> step is Ready && *final(self) == *old(self) && *final(memory) == *old(
                memory,
            ) && final(shared)@ == old(shared)@,
    {
        if len == 0 {
            return AccessStep::Ready;
        }
        let first = VirtAddr(start % VA_LIMIT).std_floor();
        let last = VirtAddr((start + (len - 1)) % VA_LIMIT).std_floor();
        self.access_step(memory, shared, first, last.0, sp, true)
    }

    /// Goes on making a range ready to be read. Of where it starts and ends only the bits count
    /// that an address has.
    pub fn ensure_readable_user_range(
        &mut self,
        memory: &mut PhysMemory,
        shared: &mut SharedPages,
        start: u64,
        len: u64,
        sp: u64,
    ) -> (step: AccessStep)
        requires
            old(self).wf(old(memory)),
            old(shared).wf(),
            groups_ok(old(self).areas()),
            len > 0 ==> start + len - 1 <= u64::MAX && range_start(start) <= last_of(start, len),
        ensures
            final(self).wf(final(memory)),
            final(shared).wf(),
            groups_ok(final(self).areas()),
            final(self).brk() == old(self).brk(),
            final(self).heap_start() == old(self).heap_start(),
            final(self).number() == old(self).number(),
            final(self).keeps_apart(final(memory), old(self), old(memory)),
            len > 0 ==> old(self).step_taken(
                old(memory),
                old(shared)@,
                final(self),
                final(memory),
                final(shared)@,
                range_start(start),
                last_of(start, len),
                sp as int,
                false,
                step,
            ),
            len == 0 ==> step is Ready && *final(self) == *old(self) && *final(memory) == *old(
                memory,
            ) && final(shared)@ == old(shared)@,
    {
        if len == 0 {
            return AccessStep::Ready;
        }
        let first = VirtAddr(start % VA_LIMIT).std_floor();
        let last = VirtAddr((start + (len - 1)) % VA_LIMIT).std_floor();
        self.access_step(memory, shared, first, last.0, sp, false)
    }

    /// Marks a page that may be written as written to; tells whether it was not before.
    pub fn set_pte_dirty(&mut self, memory: &mut PhysMemory, vpn: VirtPageNum) -> (marked: bool)
        requires
            old(self).wf(old(memory)),
            vpn.0 < VPN_LIMIT,
        ensures
            final(self).wf(final(memory)),
            final(self).areas() == old(self).areas(),
            final(self).resident() == old(self).resident(),
            final(self).brk() == old(self).brk(),
            final(self).heap_start() == old(self).heap_start(),
            final(self).number() == old(self).number(),
            final(self).keeps_apart(final(memory), old(self), old(memory)),
            final(memory).frames() == old(memory).frames(),
            marked <==> (old(self).mapping(old(memory), vpn.0 as int) matches Some((e, size))
                && e.flags.v && e.flags.w && !e.flags.d),
            !marked ==> *final(memory) == *old(memory),
            marked ==> ({
                let (entry, size) = old(self).mapping(old(memory), vpn.0 as int)->Some_0;
                forall|q: int|
                    is_page(q) ==> #[trigger] final(self).mapping(final(memory), q)
                        == if same_block(q, vpn.0 as int, size.level()) {
                        Some(
                            (
                                PageTableEntry {
                                    flags: PTEFlags { d: true, ..entry.flags },
                                    ..entry
                                },
                                size,
                            ),
                        )
                    } else {
                        old(self).mapping(old(memory), q)
                    }
            }),
    {
        match self.page_table.find_pte(memory, vpn) {
            None => false,
            Some((entry, size)) => {
                if !entry.is_valid() || !entry.writable() || entry.flags.d {
                    return false;
                }
                self.page_table.set_dirty(memory, vpn);
                proof {
                    assert forall|q: u64| #[trigger] self.resident().contains_key(q) implies
                        self.frame_mapped(memory, q) by {
                        assert(old(self).frame_mapped(old(memory), q));
                        assert(self.page_table.at(memory, q as int) == self.mapping(
                            memory,
                            q as int,
                        ));
                        if same_block(vpn.0 as int, q as int, size.level()) {
                            lemma_block_alike(
                                old(self).table(),
                                old(memory),
                                vpn.0 as int,
                                q as int,
                            );
                        }
                    }
                    assert forall|q: int| is_page(q) implies #[trigger] self.mapping(memory, q)
                        == self.page_table.at(memory, q) by {}
                }
                true
            },
        }
    }

    /// Maps a page of a shared file to the frame of the page of the file that its area shows, of
    /// a file of `size` bytes. The area tells what the user may do.
    ///
    /// A page behind the end of the file is refused, and one that no area with a file has.
    pub fn finish_shared_file_page(
        &mut self,
        memory: &mut PhysMemory,
        vpn: VirtPageNum,
        size: u64,
        frame: FrameTracker,
    ) -> (done: bool)
        requires
            old(self).wf(old(memory)),
            vpn.0 < VPN_LIMIT,
            frame.page_size == PageSize::Page4K,
        ensures
            final(self).wf(final(memory)),
            final(self).areas() == old(self).areas(),
            final(self).brk() == old(self).brk(),
            final(self).heap_start() == old(self).heap_start(),
            final(self).number() == old(self).number(),
            final(self).keeps_apart(final(memory), old(self), old(memory)),
            !shows_file(old(self).page(vpn.0 as int), size) ==> !done,
            shows_file(old(self).page(vpn.0 as int), size) && old(self).mapping(
                old(memory),
                vpn.0 as int,
            ) is None && old(memory).frames().free.count() >= old(self).tables_missing(
                old(memory),
                vpn.0 as int,
            ) ==> done,
            !done ==> final(self).resident() == old(self).resident() && forall|q: int|
                is_page(q) ==> #[trigger] final(self).mapping(final(memory), q) == old(self).mapping(old(memory), q),
            done ==> pages_placed(
                final(self),
                final(memory),
                old(self),
                old(memory),
                vpn.0 as int,
                seq![frame],
                old(self).page(vpn.0 as int)->Some_0.perm,
            ),
    {
        let (file_page, perm): (u64, MapPermission) = match find_area(&self.areas, vpn) {
            None => {
                return false;
            },
            Some(i) => {
                let area = self.areas[i];
                assert(self.areas()[i as int].wf());
                match area.backing_file {
                    None => {
                        return false;
                    },
                    Some(backing) => (backing.page_offset + (vpn.0 - area.start), area.map_perm),
                }
            },
        };
        let end: u64 = VirtAddr::from(size).std_ceil().0;
        if file_page >= end {
            return false;
        }
        let done = self.place_frame(memory, vpn.0, frame, perm);
        done.is_ok()
    }

    /// Maps the pages from `vpn` on to the frames that a file was read into. The area of the
    /// first tells what the user may do; where there is none, no page is mapped.
    ///
    /// Returns the number of pages mapped: all, or those before a table had no frame.
    #[verifier::spinoff_prover]
    #[verifier::rlimit(40)]
    pub fn finish_file_pages(
        &mut self,
        memory: &mut PhysMemory,
        vpn: VirtPageNum,
        frames: &Vec<FrameTracker>,
    ) -> (count: usize)
        requires
            old(self).wf(old(memory)),
            vpn.0 + frames@.len() <= VPN_LIMIT,
            forall|i: int|
                0 <= i < frames@.len() ==> (#[trigger] frames@[i]).page_size == PageSize::Page4K,
        ensures
            final(self).wf(final(memory)),
            final(self).areas() == old(self).areas(),
            final(self).brk() == old(self).brk(),
            final(self).heap_start() == old(self).heap_start(),
            final(self).number() == old(self).number(),
            final(self).keeps_apart(final(memory), old(self), old(memory)),
            count <= frames@.len(),
            pages_placed(
                final(self),
                final(memory),
                old(self),
                old(memory),
                vpn.0 as int,
                frames@.take(count as int),
                old(self).page(vpn.0 as int)->Some_0.perm,
            ),
            old(self).page(vpn.0 as int) is None ==> count == 0,
            old(self).page(vpn.0 as int) is Some && (forall|q: int|
                vpn.0 <= q < vpn.0 + frames@.len() ==> #[trigger] old(self).mapping(
                    old(memory),
                    q,
                ) is None) && old(memory).frames().free.count() >= tables_between(
                vpn.0 as int,
                vpn.0 + frames@.len(),
            ) ==> count
                == frames@.len(),
    {
        let mut i: usize = 0;
        proof {
            assert(frames@.take(0) =~= Seq::<FrameTracker>::empty());
        }
        let perm: MapPermission = match find_area(&self.areas, vpn) {
            None => {
                return 0;
            },
            Some(k) => self.areas[k].map_perm,
        };
        while i < frames.len()
            invariant
                i <= frames@.len(),
                old(self).page(vpn.0 as int) is Some,
                perm == old(self).page(vpn.0 as int)->Some_0.perm,
                vpn.0 + frames@.len() <= VPN_LIMIT,
                forall|k: int|
                    0 <= k < frames@.len() ==> (#[trigger] frames@[k]).page_size
                        == PageSize::Page4K,
                self.wf(memory),
                self.areas() == old(self).areas(),
                self.brk() == old(self).brk(),
                self.heap_start() == old(self).heap_start(),
                self.number() == old(self).number(),
                self.keeps_apart(memory, old(self), old(memory)),
                memory.frames().free.count() >= old(memory).frames().free.count()
                    - tables_between(vpn.0 as int, vpn.0 + i),
                pages_placed(
                    self,
                    memory,
                    old(self),
                    old(memory),
                    vpn.0 as int,
                    frames@.take(i as int),
                    perm,
                ),
            decreases frames@.len() - i,
        {
            let ghost before = *self;
            let ghost memory_before = *memory;
            let v: u64 = vpn.0 + i as u64;
            assert(self.mapping(memory, v as int) is None ==> self.tables_missing(
                memory,
                v as int,
            ) <= tables_between(vpn.0 as int, v + 1) - tables_between(vpn.0 as int, v as int)) by {
                if i > 0 && self.mapping(memory, v as int) is None {
                    assert(self.mapping(memory, v - 1) is Some);
                    lemma_next_tables(self.table(), memory, v as int);
                }
                lemma_frames_between(vpn.0 as int, v as int, vpn.0 + frames@.len());
            }
            assert(tables_between(vpn.0 as int, v + 1) <= tables_between(
                vpn.0 as int,
                vpn.0 + frames@.len(),
            )) by {
                lemma_frames_between(vpn.0 as int, v as int, vpn.0 + frames@.len());
            }
            assert(self.mapping(memory, v as int) == old(self).mapping(old(memory), v as int));
            match self.place_frame(memory, v, frames[i], perm) {
                Err(_) => {
                    proof {
                        assert forall|q: int| is_page(q) implies #[trigger] self.mapping(memory, q)
                            == before.mapping(&memory_before, q) by {}
                    }
                    return i;
                },
                Ok(()) => {
                    proof {
                        let done = frames@.take(i as int);
                        let next = frames@.take(i + 1);
                        assert(next =~= done.push(frames@[i as int]));
                        assert forall|q: u64| #[trigger] self.resident().contains_key(q) <==> (
                        vpn.0 <= q < vpn.0 + next.len() || old(self).resident().contains_key(q)) by {
                            assert(before.resident().contains_key(q) <==> (vpn.0 <= q < vpn.0
                                + done.len() || old(self).resident().contains_key(q)));
                        }
                        assert forall|q: u64| #[trigger] self.resident().contains_key(
                        q) implies self.resident()[q] == if vpn.0 <= q < vpn.0 + next.len() {
                            next[q - vpn.0]
                        } else {
                            old(self).resident()[q]
                        } by {
                            if q != v {
                                assert(before.resident().contains_key(q));
                            }
                        }
                        assert forall|q: int| is_page(q) implies #[trigger] self.mapping(memory, q)
                            == if vpn.0 <= q < vpn.0 + next.len() {
                            Some(
                                (
                                    PageTableEntry {
                                        page: next[q - vpn.0].ppn,
                                        flags: perm.pte_flags().installed(),
                                    },
                                    PageSize::Page4K,
                                ),
                            )
                        } else {
                            old(self).mapping(old(memory), q)
                        } by {
                        }
                    }
                },
            }
            i = i + 1;
        }
        i
    }
}

/// The pages from `v` on are mapped to the frames, one by one; the others are as they were.
pub open spec fn pages_placed(
    set: &MemorySet,
    memory: &PhysMemory,
    before: &MemorySet,
    memory_before: &PhysMemory,
    v: int,
    frames: Seq<FrameTracker>,
    perm: MapPermission,
) -> bool {
    &&& forall|q: u64| #[trigger]
        set.resident().contains_key(q) <==> (v <= q < v + frames.len()
            || before.resident().contains_key(q))
    &&& forall|q: u64| #[trigger]
        set.resident().contains_key(q) ==> set.resident()[q] == if v <= q < v + frames.len() {
            frames[q - v]
        } else {
            before.resident()[q]
        }
    &&& forall|q: int|
        is_page(q) ==> #[trigger] set.mapping(memory, q) == if v <= q < v + frames.len() {
            Some(
                (
                    PageTableEntry {
                        page: frames[q - v].ppn,
                        flags: perm.pte_flags().installed(),
                    },
                    PageSize::Page4K,
                ),
            )
        } else {
            before.mapping(memory_before, q)
        }
}

} // verus!
