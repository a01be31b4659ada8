//! The address space of a process: its areas, its page table and the frames
//! of the pages that were touched.
//!
//! User areas are made of standard pages. A page gets its frame on first use,
//! so most pages of an area have none. The operations that take frames away
//! hand them out: the caller flushes the processor's translation caches before
//! it lets go of them.

pub mod access;
pub mod edit;
pub mod fork;
pub mod heap;
pub mod kernel_half;
pub mod load;
pub mod owned;
pub mod pin;
pub mod user_pin;
pub mod resize;

use std::collections::BTreeMap;

use vstd::prelude::*;

use crate::errno::Errno;

use super::address::{
    pages_to_cover, table_index, PageSize, VirtAddr, VirtPageNum, PAGE_SIZE, VA_LIMIT, VPN_LIMIT,
};
use super::area::{
    any_conflict, any_conflicts, areas_ok, change_areas, changed, conflicts, cut, cut_areas,
    extend_area, extended, find_area, find_gap, gap, insert_area, law_changed, law_cut,
    law_gap_is_free, lemma_extended, lemma_page_at, page_at, Backing, Change, MapArea, MapType,
    PageAttr,
};
use super::frame_allocator::{
    keeps_users, law_take_conserves, lemma_users_both, Frames, FrameTracker,
};
use super::mmap::{MMapFlags, MMapProt, MAP_ANONYMOUS, MAP_FIXED, MAP_SHARED};
use super::page_table::{
    is_page, keeps_others, lemma_block_alike, lemma_keeps_both, lemma_unmapped_is_free, missing,
    same_block, MapError, Mapping, PageTable,
};
use super::phys::{
    blank_table, fresh, keeps_held, lemma_free_before, lemma_fresh_stays, lemma_held_both,
    lemma_held_self, PhysMemory,
};
use self::owned::{
    group_frames, keeps_other_users, lemma_group_kept, lemma_group_none, lemma_group_step,
    lemma_own_kept, lemma_own_none, lemma_own_step, lemma_own_users, own_frames,
};
use super::pte::{MapPermission, PageTableEntry};

verus! {

broadcast use {
    vstd::std_specs::btree::group_btree_axioms,
    vstd::laws_cmp::group_laws_cmp,
    lemma_keeps_both,
    lemma_held_both,
    lemma_held_self,
};

/// An address space.
pub struct MemorySet {
    asid: u64,
    areas: Vec<MapArea>,
    resident: BTreeMap<u64, FrameTracker>,
    page_table: PageTable,
    brk: u64,
    start_brk: u64,
}

/// What an operation took away.
pub struct Released {
    /// Frames to let go of, once no processor can reach them.
    pub frames: Vec<FrameTracker>,
    /// Pages of files to write back: the file and the page of it.
    pub writebacks: Vec<(u64, u64)>,
}

/// The frames of the pages from `a` to `b`, in order.
pub open spec fn frames_in(resident: Map<u64, FrameTracker>, a: int, b: int) -> Seq<FrameTracker>
    decreases b - a,
{
    if a >= b {
        Seq::empty()
    } else {
        let front = frames_in(resident, a, b - 1);
        if resident.contains_key((b - 1) as u64) {
            front.push(resident[(b - 1) as u64])
        } else {
            front
        }
    }
}

/// The resident pages but for those from `a` to `b`.
pub open spec fn without_range(
    resident: Map<u64, FrameTracker>,
    a: int,
    b: int,
) -> Map<u64, FrameTracker> {
    resident.remove_keys(Set::new(|v: u64| a <= v < b))
}

/// The file pages behind the pages from `a` to `b` of a file.
pub open spec fn file_pages(file: Backing, start: int, a: int, b: int) -> Seq<(u64, u64)> {
    Seq::new(
        (if a < b {
            b - a
        } else {
            0
        }) as nat,
        |i: int| (file.file, (file.page_offset + (a + i - start)) as u64),
    )
}

/// The file pages to write back when the pages from `a` to `b` of an area go.
pub open spec fn writebacks_of(area: MapArea, a: int, b: int) -> Seq<(u64, u64)> {
    match area.backing_file {
        Some(file) => if area.is_shared && area.map_type != MapType::Guard {
            file_pages(
                file,
                area.start as int,
                super::area::max_of(a, area.start as int),
                super::area::min_of(b, area.end as int),
            )
        } else {
            Seq::empty()
        },
        None => Seq::empty(),
    }
}

/// The file pages to write back when the pages from `a` to `b` go.
pub open spec fn writebacks(s: Seq<MapArea>, a: int, b: int) -> Seq<(u64, u64)>
    decreases s.len(),
{
    if s.len() == 0 {
        Seq::empty()
    } else {
        writebacks(s.drop_last(), a, b) + writebacks_of(s.last(), a, b)
    }
}

/// The area is one of a user, made of standard pages; a framed area has no file.
pub open spec fn user_area(area: MapArea) -> bool {
    &&& area.page_size == PageSize::Page4K
    &&& area.map_type == MapType::Framed || area.map_type == MapType::File || area.map_type
        == MapType::Guard
    &&& area.map_type == MapType::Framed ==> area.backing_file is None
}

/// The areas are user areas in order.
pub open spec fn user_areas(s: Seq<MapArea>) -> bool {
    &&& areas_ok(s)
    &&& forall|i: int| 0 <= i < s.len() ==> user_area(#[trigger] s[i])
}

/// First page of a range of addresses.
pub open spec fn first_page(start: int) -> int {
    start / 4096
}

/// First page behind a range of addresses.
pub open spec fn end_page(start: int, length: int) -> int {
    pages_to_cover(start + length)
}

/// First page of a range of addresses, of which only the bits count that an address has.
pub open spec fn range_start(start: u64) -> int {
    first_page((start % VA_LIMIT) as int)
}

/// First page behind a range of addresses, of whose end only the bits count that an address
/// has; it lies before the first page where the range goes beyond the last address.
pub open spec fn range_end(start: u64, length: u64) -> int {
    pages_to_cover((start + length) % (VA_LIMIT as int))
}

/// Returns the first page of a range of addresses and the first page behind it.
fn range_pages(start: u64, length: u64) -> (pages: (u64, u64))
    requires
        start + length <= u64::MAX,
    ensures
        pages.0 == range_start(start),
        pages.1 == range_end(start, length),
        pages.0 < VPN_LIMIT,
        pages.1 <= VPN_LIMIT,
{
    let a: u64 = VirtAddr(start % VA_LIMIT).std_floor().0;
    let b: u64 = VirtAddr((start + length) % VA_LIMIT).std_ceil().0;
    (a, b)
}

impl MemorySet {
    /// The areas in order.
    pub closed spec fn areas(&self) -> Seq<MapArea> {
        self.areas@
    }

    /// The frames of the pages that have one.
    pub closed spec fn resident(&self) -> Map<u64, FrameTracker> {
        self.resident@
    }

    /// The page table.
    pub closed spec fn table(&self) -> PageTable {
        self.page_table
    }

    /// The program break.
    pub closed spec fn brk(&self) -> u64 {
        self.brk
    }

    /// The start of the heap.
    pub closed spec fn heap_start(&self) -> u64 {
        self.start_brk
    }

    /// The address-space number.
    pub closed spec fn number(&self) -> u64 {
        self.asid
    }

    /// The attributes of a page.
    pub open spec fn page(&self, v: int) -> Option<PageAttr> {
        page_at(self.areas(), v)
    }

    /// What the page table says of a page.
    pub open spec fn mapping(&self, memory: &PhysMemory, v: int) -> Mapping {
        self.table().at(memory, v)
    }

    /// A page with a frame is mapped to that frame.
    pub open spec fn frame_mapped(&self, memory: &PhysMemory, v: u64) -> bool {
        &&& v < VPN_LIMIT
        &&& self.resident()[v].page_size == PageSize::Page4K
        &&& self.mapping(memory, v as int) is Some
        &&& self.mapping(memory, v as int)->Some_0.1 == PageSize::Page4K
        &&& self.mapping(memory, v as int)->Some_0.0.page == self.resident()[v].ppn
        &&& self.mapping(memory, v as int)->Some_0.0.flags.v
    }

    /// Of the tables in memory only those of this address space changed, the root is the same,
    /// and no frame was given back.
    pub open spec fn keeps_apart(
        &self,
        memory: &PhysMemory,
        before: &MemorySet,
        memory_before: &PhysMemory,
    ) -> bool {
        &&& self.table().root() == before.table().root()
        &&& keeps_others(memory_before.tables(), memory.tables(), self.table().root())
        &&& keeps_held(memory_before, memory)
    }

    /// The areas are in order, and the pages with frames are mapped to them.
    pub open spec fn wf(&self, memory: &PhysMemory) -> bool {
        &&& user_areas(self.areas())
        &&& self.table().wf(memory)
        &&& forall|v: u64| #[trigger]
            self.resident().contains_key(v) ==> self.frame_mapped(memory, v)
    }

    /// Makes an address space without areas; `None` without a frame for its page table.
    pub fn new_bare(memory: &mut PhysMemory, asid: u64) -> (set: Option<Self>)
        requires
            old(memory).wf(),
        ensures
            final(memory).wf(),
            set is None <==> old(memory).frames().free.take(PageSize::Page4K) is None,
            set matches Some(s) ==> {
                &&& s.wf(final(memory))
                &&& s.areas() == Seq::<MapArea>::empty()
                &&& s.resident() == Map::<u64, FrameTracker>::empty()
                &&& s.brk() == 0
                &&& s.heap_start() == 0
                &&& s.number() == asid
                &&& forall|v: int| is_page(v) ==> #[trigger] s.mapping(final(memory), v) is None
                &&& !old(memory).tables().contains_key(s.table().root())
                &&& final(memory).tables() == old(memory).tables().insert(
                    s.table().root(),
                    blank_table(),
                )
                &&& keeps_users(old(memory).frames(), final(memory).frames())
                &&& final(memory).frames().free.count() == old(memory).frames().free.count() - 1
            },
            set is None ==> final(memory).tables() == old(memory).tables() && final(memory).frames() == old(memory).frames(),
            keeps_held(old(memory), final(memory)),
    {
        proof {
            memory.lemma_wf();
        }
        match PageTable::new(memory) {
            None => None,
            Some(page_table) => {
                let set = MemorySet {
                    asid,
                    areas: Vec::new(),
                    resident: BTreeMap::new(),
                    page_table,
                    brk: 0,
                    start_brk: 0,
                };
                proof {
                    assert(set.areas() =~= Seq::<MapArea>::empty());
                    let free = old(memory).frames().free;
                    assert forall|p: u64|
                        #![trigger memory.frames().count(p)]
                        (free.times_free(p as int) == 0 ==> memory.frames().count(p) == old(memory).frames().count(p) && memory.frames().free.times_free(p as int) == 0) && (
                        memory.frames().count(p) == old(memory).frames().count(p)
                            || memory.frames().count(p) == 1) by {
                        law_take_conserves(free, PageSize::Page4K, p as int);
                    }
                    law_take_conserves(free, PageSize::Page4K, 0);
                    assert forall|v: int| is_page(v) implies #[trigger] set.mapping(memory, v)
                        is None by {
                        assert(page_table.at(memory, v) is None);
                    }
                }
                Some(set)
            },
        }
    }

    /// Returns what the processor loads to use the address space.
    pub fn token(&self, memory: &PhysMemory) -> (token: u64)
        requires
            self.wf(memory),
        ensures
            token == 0x8000_0000_0000_0000 + (self.number() % 0x1_0000) * 0x1000_0000_0000
                + self.table().root(),
    {
        self.page_table.token(self.asid)
    }

    /// Returns what a processor loads that is told the address-space number apart.
    pub fn root_token(&self, memory: &PhysMemory) -> (token: u64)
        requires
            self.wf(memory),
        ensures
            token == self.table().root() * 4096,
    {
        self.page_table.root_token()
    }

    /// Returns the address-space number.
    pub fn asid(&self) -> (asid: u64)
        ensures
            asid == self.number(),
    {
        self.asid
    }

    /// Returns the start of the heap.
    pub fn start_brk(&self) -> (addr: u64)
        ensures
            addr == self.heap_start(),
    {
        self.start_brk
    }

    /// Returns the program break.
    pub fn current_brk(&self) -> (addr: u64)
        ensures
            addr == self.brk(),
    {
        self.brk
    }

    /// Returns the areas in order.
    pub fn area_snapshot(&self) -> (areas: &Vec<MapArea>)
        ensures
            areas@ == self.areas(),
    {
        &self.areas
    }

    /// Takes the frames of the pages from `a` to `b` out, with their mappings.
    fn unmap_range(&mut self, memory: &mut PhysMemory, a: u64, b: u64) -> (frames: Vec<
        FrameTracker,
    >)
        requires
            old(self).wf(old(memory)),
            a <= b <= VPN_LIMIT,
        ensures
            final(self).wf(final(memory)),
            frames@ == frames_in(old(self).resident(), a as int, b as int),
            final(self).resident() == without_range(old(self).resident(), a as int, b as int),
            final(self).areas() == old(self).areas(),
            final(self).brk() == old(self).brk(),
            final(self).heap_start() == old(self).heap_start(),
            final(self).number() == old(self).number(),
            final(self).keeps_apart(final(memory), old(self), old(memory)),
            final(memory).frames() == old(memory).frames(),
            forall|v: int|
                is_page(v) ==> #[trigger] final(self).mapping(final(memory), v) == if a <= v < b
                    && old(self).resident().contains_key(v as u64) {
                    None
                } else {
                    old(self).mapping(old(memory), v)
                },
    {
        let mut frames: Vec<FrameTracker> = Vec::new();
        let mut v: u64 = a;
        assert(self.resident() =~= without_range(old(self).resident(), a as int, v as int));
        while v < b
            invariant
                a <= v <= b <= VPN_LIMIT,
                self.wf(memory),
                frames@ == frames_in(old(self).resident(), a as int, v as int),
                self.resident() == without_range(old(self).resident(), a as int, v as int),
                self.areas() == old(self).areas(),
                self.brk() == old(self).brk(),
                self.heap_start() == old(self).heap_start(),
                self.number() == old(self).number(),
                self.keeps_apart(memory, old(self), old(memory)),
                memory.frames() == old(memory).frames(),
                forall|q: int|
                    is_page(q) ==> #[trigger] self.mapping(memory, q) == if a <= q < v && old(self).resident().contains_key(q as u64) {
                        None
                    } else {
                        old(self).mapping(old(memory), q)
                    },
            decreases b - v,
        {
            let ghost before = *self;
            let ghost memory_before = *memory;
            match self.resident.remove(&v) {
                Some(frame) => {
                    assert(before.resident().contains_key(v));
                    assert(before.frame_mapped(&memory_before, v));
                    self.page_table.unmap(memory, VirtPageNum(v));
                    frames.push(frame);
                    proof {
                        assert(self.resident() =~= before.resident().remove(v));
                        assert forall|q: int| is_page(q) implies #[trigger] self.mapping(memory, q)
                            == if q == v {
                            None
                        } else {
                            before.mapping(&memory_before, q)
                        } by {
                            assert(same_block(q, v as int, 2) == (q == v));
                            assert(self.page_table.at(memory, q) == if same_block(
                                q,
                                v as int,
                                2,
                            ) {
                                None
                            } else {
                                before.page_table.at(&memory_before, q)
                            });
                        }
                        assert forall|q: u64| #[trigger] self.resident().contains_key(q) implies
                            self.frame_mapped(memory, q) by {
                            assert(before.resident().contains_key(q));
                            assert(before.frame_mapped(&memory_before, q));
                            assert(self.mapping(memory, q as int) == before.mapping(
                                &memory_before,
                                q as int,
                            ));
                        }
                    }
                },
                None => {
                    assert(self.resident() =~= before.resident());
                    assert(self.wf(memory)) by {
                        assert forall|q: u64| #[trigger] self.resident().contains_key(q) implies
                            self.frame_mapped(memory, q) by {
                            assert(before.frame_mapped(&memory_before, q));
                        }
                    }
                },
            }
            proof {
                assert(self.resident() =~= without_range(
                    old(self).resident(),
                    a as int,
                    v + 1,
                ));
            }
            v = v + 1;
        }
        frames
    }
}

/// Lists the file pages to write back when the pages from `a` to `b` go.
pub fn list_writebacks(areas: &Vec<MapArea>, a: u64, b: u64) -> (pages: Vec<(u64, u64)>)
    requires
        areas_ok(areas@),
    ensures
        pages@ == writebacks(areas@, a as int, b as int),
{
    let mut pages: Vec<(u64, u64)> = Vec::new();
    let mut i: usize = 0;
    assert(areas@.take(0) =~= Seq::<MapArea>::empty());
    while i < areas.len()
        invariant
            i <= areas@.len(),
            areas_ok(areas@),
            pages@ == writebacks(areas@.take(i as int), a as int, b as int),
        decreases areas@.len() - i,
    {
        let area = areas[i];
        assert(area.wf());
        proof {
            assert(areas@.take(i + 1).drop_last() =~= areas@.take(i as int));
        }
        let ghost before = pages@;
        if area.is_shared && area.map_type != MapType::Guard {
            if let Some(file) = area.backing_file {
                let lo: u64 = if a >= area.start {
                    a
                } else {
                    area.start
                };
                let hi: u64 = if b <= area.end {
                    b
                } else {
                    area.end
                };
                let mut v: u64 = lo;
                assert(pages@ =~= before + file_pages(file, area.start as int, lo as int, v as int));
                while v < hi
                    invariant
                        lo <= v,
                        lo < hi ==> v <= hi,
                        lo >= hi ==> v == lo,
                        area.start <= lo,
                        hi <= area.end <= VPN_LIMIT,
                        area.wf(),
                        area.backing_file == Some(file),
                        pages@ == before + file_pages(
                            file,
                            area.start as int,
                            lo as int,
                            v as int,
                        ),
                    decreases hi - v,
                {
                    pages.push((file.file, file.page_offset + (v - area.start)));
                    assert(pages@ =~= before + file_pages(
                        file,
                        area.start as int,
                        lo as int,
                        v + 1,
                    ));
                    v = v + 1;
                }
                assert(pages@ =~= before + file_pages(
                    file,
                    area.start as int,
                    lo as int,
                    hi as int,
                ));
            }
        }
        assert(pages@ =~= before + writebacks_of(area, a as int, b as int));
        i = i + 1;
    }
    assert(areas@.take(areas@.len() as int) =~= areas@);
    pages
}

/// Where new areas may be put.
#[derive(Clone, Copy, Debug, PartialEq, Eq, Structural)]
pub struct UserLayout {
    /// Lowest address of a program.
    pub app_base: u64,
    /// First address behind the user's part of memory.
    pub app_max: u64,
}

impl UserLayout {
    /// The bounds are user addresses.
    pub open spec fn wf(self) -> bool {
        self.app_base <= self.app_max <= VA_LIMIT
    }

    /// The address from which gaps are searched: half way up.
    pub open spec fn search_base(self) -> int {
        self.app_base + (self.app_max - self.app_base) / 2
    }
}

/// A cut of user areas is a list of user areas.
proof fn lemma_cut_user(s: Seq<MapArea>, a: int, b: int)
    requires
        user_areas(s),
        0 <= a <= b <= VPN_LIMIT,
    ensures
        user_areas(cut(s, a, b)),
    decreases s.len(),
{
    law_cut(s, a, b);
    if s.len() > 0 {
        let front = s.drop_last();
        assert forall|i: int| 0 <= i < front.len() implies user_area(#[trigger] front[i]) by {
            assert(front[i] == s[i]);
        }
        assert(areas_ok(front));
        lemma_cut_user(front, a, b);
        let c = cut(front, a, b);
        let d = super::area::cut_one(s.last(), a, b);
        let u = cut(s, a, b);
        assert forall|i: int| 0 <= i < u.len() implies user_area(#[trigger] u[i]) by {
            if i < c.len() {
                assert(u[i] == c[i]);
            } else {
                assert(u[i] == d[i - c.len()]);
                assert(s.last() == s[s.len() - 1]);
            }
        }
    }
}

/// A change of user areas gives a list of user areas.
proof fn lemma_changed_user(s: Seq<MapArea>, a: int, b: int, change: Change)
    requires
        user_areas(s),
        0 <= a < b <= VPN_LIMIT,
    ensures
        user_areas(changed(s, a, b, change)),
    decreases s.len(),
{
    law_changed(s, a, b, change);
    if s.len() > 0 {
        let front = s.drop_last();
        assert forall|i: int| 0 <= i < front.len() implies user_area(#[trigger] front[i]) by {
            assert(front[i] == s[i]);
        }
        assert(areas_ok(front));
        lemma_changed_user(front, a, b, change);
        let c = changed(front, a, b, change);
        let d = super::area::change_one(s.last(), a, b, change);
        let u = changed(s, a, b, change);
        assert forall|i: int| 0 <= i < u.len() implies user_area(#[trigger] u[i]) by {
            if i < c.len() {
                assert(u[i] == c[i]);
            } else {
                assert(u[i] == d[i - c.len()]);
                assert(s.last() == s[s.len() - 1]);
            }
        }
    }
}

/// A range that ends before it starts has no frames and no pages to write back.
proof fn lemma_nothing_behind(s: Seq<MapArea>, resident: Map<u64, FrameTracker>, a: int, b: int)
    requires
        b <= a,
    ensures
        frames_in(resident, a, b) == Seq::<FrameTracker>::empty(),
        writebacks(s, a, b) == Seq::<(u64, u64)>::empty(),
        without_range(resident, a, b) == resident,
    decreases s.len(),
{
    assert(without_range(resident, a, b) =~= resident);
    if s.len() > 0 {
        lemma_nothing_behind(s.drop_last(), resident, a, b);
    }
}

impl MemorySet {
    /// Tells whether the pages that a range of addresses touches conflict with an area. Of where
    /// the range starts and ends only the bits count that an address has.
    pub fn has_conflict(&self, start: u64, length: u64) -> (found: bool)
        requires
            start + length <= u64::MAX,
        ensures
            found == any_conflicts(
                self.areas(),
                range_start(start),
                range_end(start, length),
            ),
    {
        let (a, b) = range_pages(start, length);
        any_conflict(&self.areas, a, b)
    }

    /// Finds the first gap of `length` bytes in the upper half of the user's memory.
    pub fn find_free_area(&self, length: u64, layout: UserLayout) -> (at: Option<u64>)
        requires
            areas_ok(self.areas()),
            layout.wf(),
            VA_LIMIT + length <= u64::MAX,
        ensures
            match gap(
                self.areas(),
                layout.search_base(),
                length as int,
                layout.app_max as int,
            ) {
                None => at is None,
                Some(a) => at is Some && at->Some_0 == a,
            },
    {
        let from: u64 = layout.app_base + (layout.app_max - layout.app_base) / 2;
        find_gap(&self.areas, from, length, layout.app_max)
    }

    /// Takes the pages that a range of addresses touches out of the address space. Of where the
    /// range starts and ends only the bits count that an address has; nothing happens where it
    /// goes beyond the last address.
    pub fn munmap(&mut self, memory: &mut PhysMemory, start: u64, length: u64) -> (released:
        Released)
        requires
            old(self).wf(old(memory)),
            start + length <= u64::MAX,
        ensures
            unmapped(old(self), old(memory), final(self), final(memory), start, length, released),
    {
        let (a, b) = range_pages(start, length);
        if b < a {
            proof {
                lemma_nothing_behind(old(self).areas(), old(self).resident(), a as int, b as int);
            }
            return Released { frames: Vec::new(), writebacks: Vec::new() };
        }
        let writebacks = list_writebacks(&self.areas, a, b);
        let frames = self.unmap_range(memory, a, b);
        let ghost mid = *self;
        let left = cut_areas(&self.areas, a, b);
        self.areas = left;
        proof {
            law_cut(old(self).areas(), a as int, b as int);
            lemma_cut_user(old(self).areas(), a as int, b as int);
            assert forall|v: u64| #[trigger] self.resident().contains_key(v) implies
                self.frame_mapped(memory, v) by {
                assert(mid.resident().contains_key(v));
                assert(mid.frame_mapped(memory, v));
            }
            assert forall|v: int| is_page(v) implies #[trigger] self.mapping(memory, v)
                == mid.mapping(memory, v) by {}
        }
        Released { frames, writebacks }
    }

    /// Throws the frames of the pages that a range of addresses touches away; the pages stay.
    ///
    /// Such a page gets its frame anew on the next use. The shared file pages
    /// in the range are written back, also those without a frame. Of where the
    /// range starts and ends only the bits count that an address has; nothing
    /// happens where it goes beyond the last address.
    pub fn madvise_dontneed(&mut self, memory: &mut PhysMemory, start: u64, length: u64) -> (done:
        Result<Released, Errno>)
        requires
            old(self).wf(old(memory)),
        ensures
            given_up(old(self), old(memory), final(self), final(memory), start, length, done),
    {
        if length > u64::MAX - start {
            return Err(Errno::EINVAL);
        }
        let (a, b) = range_pages(start, length);
        if b < a {
            proof {
                lemma_nothing_behind(old(self).areas(), old(self).resident(), a as int, b as int);
            }
            return Ok(Released { frames: Vec::new(), writebacks: Vec::new() });
        }
        let writebacks = list_writebacks(&self.areas, a, b);
        let frames = self.unmap_range(memory, a, b);
        Ok(Released { frames, writebacks })
    }

    /// Grows a framed area in place, so that the range at `old_addr` has `new_size` bytes.
    ///
    /// The area that holds the old range starts at the range's first page
    /// afterwards. Nothing happens where no framed area holds the old range or
    /// where the pages to be added conflict with an area. An area without pages
    /// that starts where the old one ends goes.
    pub fn mremap_inplace(
        &mut self,
        memory: &PhysMemory,
        old_addr: u64,
        old_size: u64,
        new_size: u64,
    ) -> (done: Result<u64, Errno>)
        requires
            old(self).wf(memory),
            old_size < new_size,
            old_addr + new_size <= u64::MAX,
            old_addr + old_size <= VA_LIMIT ==> old_addr + new_size < VA_LIMIT,
        ensures
            stretched(old(self), memory, final(self), old_addr, old_size, new_size, done),
    {
        let mut i: usize = 0;
        while i < self.areas.len()
            invariant
                i <= self.areas@.len(),
                *self == *old(self),
                self.wf(memory),
                old_size < new_size,
                old_addr + new_size <= u64::MAX,
                old_addr + old_size <= VA_LIMIT ==> old_addr + new_size < VA_LIMIT,
                first_holding(self.areas(), old_addr as int, old_size as int, 0) == first_holding(
                    self.areas(),
                    old_addr as int,
                    old_size as int,
                    i as int,
                ),
            decreases self.areas@.len() - i,
        {
            let area = self.areas[i];
            assert(area.wf());
            if area.start * PAGE_SIZE <= old_addr && old_addr + old_size <= area.end * PAGE_SIZE
                && area.map_type == MapType::Framed {
                if self.has_conflict(old_addr + old_size, new_size - old_size) {
                    return Err(Errno::ENOMEM);
                }
                let first = VirtAddr(old_addr).std_floor();
                let last = VirtAddr(old_addr + new_size).std_ceil();
                let mut grown = area;
                grown.resize(first, last);
                extend_area(&mut self.areas, i, grown);
                proof {
                    let s = old(self).areas();
                    let u = self.areas();
                    assert(!conflicts(
                        s[i as int],
                        first_page(old_addr + old_size),
                        end_page(old_addr + old_size, new_size - old_size),
                    ));
                    lemma_extended(s, i as int, grown);
                    assert forall|k: int| 0 <= k < u.len() implies user_area(#[trigger] u[k]) by {
                        assert(user_area(s[i as int]));
                        if u[k] != grown {
                            let j = choose|j: int| 0 <= j < s.len() && s[j] == u[k];
                            assert(user_area(s[j]));
                        }
                    }
                    assert forall|v: u64| #[trigger] self.resident().contains_key(v) implies
                        self.frame_mapped(memory, v) by {
                        assert(old(self).frame_mapped(memory, v));
                    }
                }
                return Ok(old_addr);
            }
            i = i + 1;
        }
        Err(Errno::ENOMEM)
    }
}

/// The first framed area from index `i` on that holds all the addresses of a range.
pub open spec fn first_holding(s: Seq<MapArea>, start: int, length: int, i: int) -> Option<int>
    decreases s.len() - i,
{
    if i >= s.len() {
        None
    } else if s[i].start * 4096 <= start && start + length <= s[i].end * 4096 && s[i].map_type
        == MapType::Framed {
        Some(i)
    } else {
        first_holding(s, start, length, i + 1)
    }
}

/// What stands against a change of the pages from `a` to `b`, looking at the
/// areas from index `i` on, where the pages before `covered` were seen to lie
/// in areas. A gap or a guard is `ENOMEM`; where `write` asks to write to a
/// shared file that may not be written, that is `EACCES`.
pub open spec fn range_problem(
    s: Seq<MapArea>,
    a: int,
    b: int,
    write: bool,
    i: int,
    covered: int,
) -> Option<Errno>
    decreases s.len() - i,
{
    if i >= s.len() {
        if covered < b {
            Some(Errno::ENOMEM)
        } else {
            None
        }
    } else if !(s[i].start < b && s[i].end > a) {
        range_problem(s, a, b, write, i + 1, covered)
    } else if s[i].map_type == MapType::Guard || s[i].start > covered {
        Some(Errno::ENOMEM)
    } else if write && s[i].is_shared && s[i].backing_file is Some
        && !s[i].backing_file->Some_0.writable {
        Some(Errno::EACCES)
    } else {
        range_problem(
            s,
            a,
            b,
            write,
            i + 1,
            super::area::max_of(covered, s[i].end as int),
        )
    }
}

/// An area has pages on both sides of where page `v` starts.
pub open spec fn straddles(s: Seq<MapArea>, v: int) -> bool {
    holder(s, v) is Some && s[holder(s, v)->Some_0].start < v
}

/// The areas with the one that has page `v` divided there.
pub open spec fn divided(s: Seq<MapArea>, v: int) -> Seq<MapArea> {
    changed(s, v, s[holder(s, v)->Some_0].end as int, Change::Keep)
}

/// Looks for what stands against a change of the pages from `a` to `b`.
fn check_range(areas: &Vec<MapArea>, a: u64, b: u64, write: bool) -> (problem: Option<Errno>)
    ensures
        problem == range_problem(areas@, a as int, b as int, write, 0, a as int),
{
    let mut i: usize = 0;
    let mut covered: u64 = a;
    while i < areas.len()
        invariant
            i <= areas@.len(),
            range_problem(areas@, a as int, b as int, write, 0, a as int) == range_problem(
                areas@,
                a as int,
                b as int,
                write,
                i as int,
                covered as int,
            ),
        decreases areas@.len() - i,
    {
        let area = areas[i];
        if area.start < b && area.end > a {
            if area.map_type == MapType::Guard || area.start > covered {
                return Some(Errno::ENOMEM);
            }
            if write && area.is_shared {
                if let Some(file) = area.backing_file {
                    if !file.writable {
                        return Some(Errno::EACCES);
                    }
                }
            }
            if area.end > covered {
                covered = area.end;
            }
        }
        i = i + 1;
    }
    if covered < b {
        Some(Errno::ENOMEM)
    } else {
        None
    }
}

/// Where nothing stands against a change, every page of the range lies in an area that is no guard.
pub proof fn law_range_covered(s: Seq<MapArea>, a: int, b: int, write: bool, v: int)
    requires
        areas_ok(s),
        0 <= a <= v < b,
        range_problem(s, a, b, write, 0, a) is None,
    ensures
        page_at(s, v) is Some,
        page_at(s, v)->Some_0.map_type != MapType::Guard,
{
    lemma_range_covered(s, a, b, write, 0, a, v);
}

proof fn lemma_range_covered(
    s: Seq<MapArea>,
    a: int,
    b: int,
    write: bool,
    i: int,
    covered: int,
    v: int,
)
    requires
        areas_ok(s),
        0 <= i,
        0 <= a <= covered,
        covered <= v < b,
        range_problem(s, a, b, write, i, covered) is None,
    ensures
        page_at(s, v) is Some,
        page_at(s, v)->Some_0.map_type != MapType::Guard,
    decreases s.len() - i,
{
    if i < s.len() {
        if !(s[i].start < b && s[i].end > a) {
            lemma_range_covered(s, a, b, write, i + 1, covered, v);
        } else if v < s[i].end {
            lemma_page_at(s, i, v);
        } else {
            lemma_range_covered(
                s,
                a,
                b,
                write,
                i + 1,
                super::area::max_of(covered, s[i].end as int),
                v,
            );
        }
    }
}

/// The mapping of a page whose flags became those of `perm`.
pub open spec fn reflagged(mapping: Mapping, perm: MapPermission) -> Mapping {
    match mapping {
        None => None,
        Some((entry, size)) => Some(
            (PageTableEntry { flags: perm.pte_flags().installed(), ..entry }, size),
        ),
    }
}

/// The entry of page `v` gets the flags of `perm` when those of the pages from `a` to `b` do.
///
/// It is valid, and one of these pages uses it. A large page keeps its flags where no right
/// is left: without rights its entry would lead to a table.
pub open spec fn reflags(mapping: Mapping, a: int, b: int, perm: MapPermission, v: int) -> bool {
    match mapping {
        None => false,
        Some((entry, size)) => {
            &&& entry.flags.v
            &&& size == PageSize::Page4K || perm.r || perm.w || perm.x
            &&& a <= v < b || exists|q: int|
                a <= q < b && #[trigger] same_block(q, v, size.level())
        },
    }
}

impl MemorySet {
    /// Gives the mapped pages from `a` to `b` the flags of a permission.
    fn reflag_range(&mut self, memory: &mut PhysMemory, a: u64, b: u64, perm: MapPermission)
        requires
            old(self).wf(old(memory)),
            a <= b <= VPN_LIMIT,
        ensures
            final(self).wf(final(memory)),
            final(self).areas() == old(self).areas(),
            final(self).resident() == old(self).resident(),
            final(self).brk() == old(self).brk(),
            final(self).heap_start() == old(self).heap_start(),
            final(self).number() == old(self).number(),
            final(self).keeps_apart(final(memory), old(self), old(memory)),
            final(memory).frames() == old(memory).frames(),
            forall|v: int|
                is_page(v) ==> #[trigger] final(self).mapping(final(memory), v) == if reflags(
                    old(self).mapping(old(memory), v),
                    a as int,
                    b as int,
                    perm,
                    v,
                ) {
                    reflagged(old(self).mapping(old(memory), v), perm)
                } else {
                    old(self).mapping(old(memory), v)
                },
    {
        let mut v: u64 = a;
        while v < b
            invariant
                a <= v <= b <= VPN_LIMIT,
                self.wf(memory),
                self.areas() == old(self).areas(),
                self.resident() == old(self).resident(),
                self.brk() == old(self).brk(),
                self.heap_start() == old(self).heap_start(),
                self.number() == old(self).number(),
                self.keeps_apart(memory, old(self), old(memory)),
                memory.frames() == old(memory).frames(),
                forall|q: int|
                    is_page(q) ==> #[trigger] self.mapping(memory, q) == if reflags(
                        old(self).mapping(old(memory), q),
                        a as int,
                        v as int,
                        perm,
                        q,
                    ) {
                        reflagged(old(self).mapping(old(memory), q), perm)
                    } else {
                        old(self).mapping(old(memory), q)
                    },
            decreases b - v,
        {
            let ghost before = *self;
            let ghost memory_before = *memory;
            let ghost m0 = old(self).mapping(old(memory), v as int);
            let size: Option<PageSize> = match self.page_table.find_pte(memory, VirtPageNum(v)) {
                None => None,
                Some((pte, size)) => if pte.is_valid() && (size == PageSize::Page4K || perm.r
                    || perm.w || perm.x) {
                    Some(size)
                } else {
                    None
                },
            };
            assert(before.mapping(&memory_before, v as int) is Some == m0 is Some);
            assert(m0 matches Some((e, sz)) ==> before.mapping(&memory_before, v as int)->Some_0.1
                == sz && (before.mapping(&memory_before, v as int)->Some_0.0.flags.v
                == e.flags.v));
            if size.is_some() {
                self.page_table.set_flags(memory, VirtPageNum(v), perm.flags());
            }
            proof {
                let table = old(self).table();
                let old_memory = *old(memory);
                assert forall|q: int| is_page(q) implies #[trigger] self.mapping(memory, q)
                    == if reflags(
                    old(self).mapping(old(memory), q),
                    a as int,
                    v + 1,
                    perm,
                    q,
                ) {
                    reflagged(old(self).mapping(old(memory), q), perm)
                } else {
                    old(self).mapping(old(memory), q)
                } by {
                    let m = old(self).mapping(old(memory), q);
                    assert(self.page_table.at(memory, q) == self.mapping(memory, q));
                    assert(before.mapping(&memory_before, q) == if reflags(
                        m,
                        a as int,
                        v as int,
                        perm,
                        q,
                    ) {
                        reflagged(m, perm)
                    } else {
                        m
                    });
                    if size is Some {
                        let level = size->Some_0.level();
                        if same_block(q, v as int, level) {
                            lemma_block_alike(table, &old_memory, v as int, q);
                            assert(same_block(v as int, q, level));
                        } else {
                            assert(m matches Some((e, s)) ==> !same_block(v as int, q, s.level()))
                                by {
                                if let Some((e, s)) = m {
                                    if same_block(v as int, q, s.level()) {
                                        lemma_block_alike(table, &old_memory, q, v as int);
                                    }
                                }
                            }
                        }
                    } else if let Some((e, s)) = m {
                        if same_block(v as int, q, s.level()) {
                            lemma_block_alike(table, &old_memory, q, v as int);
                        }
                    }
                }
                assert forall|q: u64| #[trigger] self.resident().contains_key(q) implies
                    self.frame_mapped(memory, q) by {
                    assert(old(self).frame_mapped(old(memory), q));
                    assert(self.mapping(memory, q as int) is Some);
                }
            }
            v = v + 1;
        }
    }

    /// Tells whether an area has pages on both sides of where page `v` starts.
    fn any_straddles(&self, memory: &PhysMemory, v: u64) -> (yes: bool)
        requires
            self.wf(memory),
        ensures
            yes == straddles(self.areas(), v as int),
    {
        match find_area(&self.areas, VirtPageNum(v)) {
            None => false,
            Some(i) => {
                proof {
                    lemma_holder(self.areas(), i as int, v as int);
                }
                self.areas[i].start < v
            },
        }
    }

    /// Divides the area that has page `v`, so that a part of it starts there.
    fn divide(&mut self, memory: &PhysMemory, v: u64)
        requires
            old(self).wf(memory),
            straddles(old(self).areas(), v as int),
        ensures
            final(self).wf(memory),
            final(self).areas() == divided(old(self).areas(), v as int),
            forall|q: int| #[trigger] final(self).page(q) == old(self).page(q),
            final(self).resident() == old(self).resident(),
            final(self).table() == old(self).table(),
            final(self).brk() == old(self).brk(),
            final(self).heap_start() == old(self).heap_start(),
            final(self).number() == old(self).number(),
    {
        if let Some(i) = find_area(&self.areas, VirtPageNum(v)) {
            let end: u64 = self.areas[i].end;
            proof {
                lemma_holder(self.areas(), i as int, v as int);
                law_changed(self.areas(), v as int, end as int, Change::Keep);
                lemma_changed_user(self.areas(), v as int, end as int, Change::Keep);
            }
            let all = change_areas(&self.areas, v, end, Change::Keep);
            self.areas = all;
            assert forall|q: u64| #[trigger] self.resident().contains_key(q) implies
                self.frame_mapped(memory, q) by {
                assert(old(self).frame_mapped(memory, q));
            }
        }
    }

    /// Changes what the user may do with the pages that a range of addresses touches.
    ///
    /// Returns whether the user may do less than before with some page. Of where
    /// the range starts and ends only the bits count that an address has; there
    /// are no pages where it goes beyond the last address. Where it ends on the
    /// page on which it starts, an area that has pages before and after is divided.
    pub fn mprotect(&mut self, memory: &mut PhysMemory, start: u64, length: u64, prot: MMapProt)
        -> (done: Result<bool, Errno>)
        requires
            old(self).wf(old(memory)),
        ensures
            protected(old(self), old(memory), final(self), final(memory), start, length, prot, done),
    {
        if length == 0 {
            return Ok(false);
        }
        if length > u64::MAX - start {
            return Err(Errno::EINVAL);
        }
        let (a, b) = range_pages(start, length);
        let perm = prot.permission();
        if let Some(problem) = check_range(&self.areas, a, b, perm.w) {
            return Err(problem);
        }
        if b < a || b == a && !self.any_straddles(memory, a) {
            return Err(Errno::ENOMEM);
        }
        let tightened: bool = any_tightened(&self.areas, a, b, perm);
        if b == a {
            self.divide(memory, a);
            return Ok(tightened);
        }
        self.reflag_range(memory, a, b, perm);
        let ghost mid = *self;
        let all = change_areas(&self.areas, a, b, Change::Permit(perm));
        self.areas = all;
        proof {
            law_changed(old(self).areas(), a as int, b as int, Change::Permit(perm));
            lemma_changed_user(old(self).areas(), a as int, b as int, Change::Permit(perm));
            assert forall|v: u64| #[trigger] self.resident().contains_key(v) implies
                self.frame_mapped(memory, v) by {
                assert(mid.frame_mapped(memory, v));
            }
            assert forall|v: int| is_page(v) implies #[trigger] self.mapping(memory, v)
                == mid.mapping(memory, v) by {}
        }
        Ok(tightened)
    }

    /// Makes writes to the pages that a range of addresses touches private. Of where the range
    /// starts and ends only the bits count that an address has; there are no pages where it goes
    /// beyond the last address.
    pub fn disable_share_in_range(&mut self, memory: &PhysMemory, start: u64, length: u64) -> (done:
        Result<(), Errno>)
        requires
            old(self).wf(memory),
        ensures
            unshared(old(self), memory, final(self), start, length, done),
    {
        if length == 0 {
            return Ok(());
        }
        if length > u64::MAX - start {
            return Err(Errno::EINVAL);
        }
        let (a, b) = range_pages(start, length);
        if let Some(problem) = check_range(&self.areas, a, b, false) {
            return Err(problem);
        }
        if b < a || b == a && !self.any_straddles(memory, a) {
            return Err(Errno::ENOMEM);
        }
        if b == a {
            self.divide(memory, a);
            return Ok(());
        }
        let all = change_areas(&self.areas, a, b, Change::Unshare);
        self.areas = all;
        proof {
            law_changed(old(self).areas(), a as int, b as int, Change::Unshare);
            lemma_changed_user(old(self).areas(), a as int, b as int, Change::Unshare);
            assert forall|v: u64| #[trigger] self.resident().contains_key(v) implies
                self.frame_mapped(memory, v) by {
                assert(old(self).frame_mapped(memory, v));
            }
        }
        Ok(())
    }
}

/// With `perm` the user may do less than before with an area that lies in the pages from `a` to `b`.
pub open spec fn tightens(s: Seq<MapArea>, a: int, b: int, perm: MapPermission) -> bool {
    exists|i: int|
        0 <= i < s.len() && (#[trigger] s[i]).start < b && s[i].end > a && loses(
            s[i].map_perm,
            perm,
        )
}

/// Some access that `was` allows is not allowed by `now`.
pub open spec fn loses(was: MapPermission, now: MapPermission) -> bool {
    (was.r && !now.r) || (was.w && !now.w) || (was.x && !now.x) || (was.u && !now.u)
}

fn any_tightened(areas: &Vec<MapArea>, a: u64, b: u64, perm: MapPermission) -> (found: bool)
    ensures
        found == tightens(areas@, a as int, b as int, perm),
{
    let mut i: usize = 0;
    while i < areas.len()
        invariant
            i <= areas@.len(),
            forall|j: int|
                0 <= j < i ==> !((#[trigger] areas@[j]).start < b && areas@[j].end > a && loses(
                    areas@[j].map_perm,
                    perm,
                )),
        decreases areas@.len() - i,
    {
        let area = areas[i];
        let was = area.map_perm;
        if area.start < b && area.end > a && ((was.r && !perm.r) || (was.w && !perm.w) || (was.x
            && !perm.x) || (was.u && !perm.u)) {
            assert(areas@[i as int].start < b && loses(areas@[i as int].map_perm, perm));
            return true;
        }
        i = i + 1;
    }
    false
}

/// After a cut no area conflicts with the pages that were cut out.
proof fn lemma_cut_frees(s: Seq<MapArea>, a: int, b: int)
    requires
        areas_ok(s),
        0 <= a <= b <= VPN_LIMIT,
    ensures
        !any_conflicts(cut(s, a, b), a, b),
    decreases s.len(),
{
    if s.len() > 0 {
        let front = s.drop_last();
        assert(areas_ok(front));
        lemma_cut_frees(front, a, b);
        let c = cut(front, a, b);
        let d = super::area::cut_one(s.last(), a, b);
        let u = cut(s, a, b);
        assert forall|i: int| 0 <= i < u.len() implies !conflicts(#[trigger] u[i], a, b) by {
            if i < c.len() {
                assert(u[i] == c[i]);
            } else {
                assert(u[i] == d[i - c.len()]);
                assert(s.last().wf());
            }
        }
    }
}

/// An area starts at page `v`.
pub open spec fn starts_at(s: Seq<MapArea>, v: int) -> bool {
    exists|i: int| 0 <= i < s.len() && (#[trigger] s[i]).start == v
}

/// Tells whether an area starts at a page.
fn area_starts_at(areas: &Vec<MapArea>, v: u64) -> (found: bool)
    ensures
        found == starts_at(areas@, v as int),
{
    let mut i: usize = 0;
    while i < areas.len()
        invariant
            i <= areas@.len(),
            forall|j: int| 0 <= j < i ==> (#[trigger] areas@[j]).start != v,
        decreases areas@.len() - i,
    {
        if areas[i].start == v {
            assert(areas@[i as int].start == v);
            return true;
        }
        i = i + 1;
    }
    false
}

/// What is to be mapped.
#[derive(Clone, Copy, Debug)]
pub struct MapRequest {
    /// The wanted address; zero where any will do.
    pub addr: u64,
    /// Bytes to map.
    pub length: u64,
    /// How the memory may be used.
    pub prot: MMapProt,
    /// How the memory is mapped.
    pub flags: MMapFlags,
    /// The file to map: its number, and whether it may be written.
    pub file: Option<(u64, bool)>,
    /// Where in the file to start, in bytes.
    pub offset: u64,
    /// A number that no other group of shared pages has.
    pub group: u64,
}

/// How an address space is after a range was unmapped, and what is handed back.
pub open spec fn unmapped(
    before: &MemorySet,
    memory: &PhysMemory,
    after: &MemorySet,
    memory_after: &PhysMemory,
    start: u64,
    length: u64,
    released: Released,
) -> bool {
    &&& after.wf(memory_after)
    &&& {
        let a = range_start(start);
        let b = range_end(start, length);
        &&& after.areas() == if a <= b {
            cut(before.areas(), a, b)
        } else {
            before.areas()
        }
        &&& forall|v: int| #[trigger]
            after.page(v) == if a <= v < b {
                None
            } else {
                before.page(v)
            }
        &&& after.resident() == without_range(before.resident(), a, b)
        &&& released.frames@ == frames_in(before.resident(), a, b)
        &&& released.writebacks@ == writebacks(before.areas(), a, b)
        &&& forall|v: int|
            is_page(v) ==> #[trigger] after.mapping(memory_after, v) == if a <= v < b
                && before.resident().contains_key(v as u64) {
                None
            } else {
                before.mapping(memory, v)
            }
    }
    &&& after.brk() == before.brk()
    &&& after.heap_start() == before.heap_start()
    &&& after.number() == before.number()
    &&& after.keeps_apart(memory_after, before, memory)
    &&& memory_after.frames() == memory.frames()
}

/// How an address space is after the contents of a range were given up.
pub open spec fn given_up(
    before: &MemorySet,
    memory: &PhysMemory,
    after: &MemorySet,
    memory_after: &PhysMemory,
    start: u64,
    length: u64,
    done: Result<Released, Errno>,
) -> bool {
    &&& after.wf(memory_after)
    &&& after.areas() == before.areas()
    &&& after.brk() == before.brk()
    &&& after.heap_start() == before.heap_start()
    &&& after.number() == before.number()
    &&& after.keeps_apart(memory_after, before, memory)
    &&& memory_after.frames() == memory.frames()
    &&& match done {
        Err(e) => e == Errno::EINVAL && start + length > u64::MAX && *after == *before,
        Ok(released) => {
            let a = range_start(start);
            let b = range_end(start, length);
            &&& start + length <= u64::MAX
            &&& after.resident() == without_range(before.resident(), a, b)
            &&& released.frames@ == frames_in(before.resident(), a, b)
            &&& released.writebacks@ == writebacks(before.areas(), a, b)
            &&& forall|v: int|
                is_page(v) ==> #[trigger] after.mapping(memory_after, v) == if a <= v
                    < b && before.resident().contains_key(v as u64) {
                    None
                } else {
                    before.mapping(memory, v)
                }
        },
    }
}

/// How an address space is after a mapping was to grow where it is.
pub open spec fn stretched(
    before: &MemorySet,
    memory: &PhysMemory,
    after: &MemorySet,
    old_addr: u64,
    old_size: u64,
    new_size: u64,
    done: Result<u64, Errno>,
) -> bool {
    &&& {
        let s = before.areas();
        let blocked = any_conflicts(
            s,
            first_page(old_addr + old_size),
            end_page(old_addr + old_size, new_size - old_size),
        );
        match first_holding(s, old_addr as int, old_size as int, 0) {
            Some(i) if !blocked => {
                &&& done == Ok::<u64, Errno>(old_addr)
                &&& after.areas() == extended(
                    s,
                    i,
                    s[i].part(
                        first_page(old_addr as int),
                        end_page(old_addr as int, new_size as int),
                    ),
                )
            },
            _ => done == Err::<u64, Errno>(Errno::ENOMEM) && after.areas() == s,
        }
    }
    &&& after.wf(memory)
    &&& after.resident() == before.resident()
    &&& after.table() == before.table()
    &&& after.brk() == before.brk()
    &&& after.heap_start() == before.heap_start()
    &&& after.number() == before.number()
}

/// How an address space is after the rights of a range were to change.
pub open spec fn protected(
    before: &MemorySet,
    memory: &PhysMemory,
    after: &MemorySet,
    memory_after: &PhysMemory,
    start: u64,
    length: u64,
    prot: MMapProt,
    done: Result<bool, Errno>,
) -> bool {
    &&& after.wf(memory_after)
    &&& after.resident() == before.resident()
    &&& after.brk() == before.brk()
    &&& after.heap_start() == before.heap_start()
    &&& after.number() == before.number()
    &&& after.keeps_apart(memory_after, before, memory)
    &&& memory_after.frames() == memory.frames()
    &&& {
        let s = before.areas();
        let a = range_start(start);
        let b = range_end(start, length);
        let perm = prot.allows();
        let problem = range_problem(s, a, b, perm.w, 0, a);
        if length == 0 {
            done == Ok::<bool, Errno>(false) && *after == *before && *memory_after
                == *memory
        } else if start + length > u64::MAX {
            done == Err::<bool, Errno>(Errno::EINVAL) && *after == *before
                && *memory_after == *memory
        } else if problem is Some {
            done == Err::<bool, Errno>(problem->Some_0) && *after == *before
                && *memory_after == *memory
        } else if b < a || b == a && !straddles(s, a) {
            done == Err::<bool, Errno>(Errno::ENOMEM) && *after == *before
                && *memory_after == *memory
        } else if b == a {
            &&& done == Ok::<bool, Errno>(tightens(s, a, b, perm))
            &&& after.areas() == divided(s, a)
            &&& forall|v: int| #[trigger] after.page(v) == before.page(v)
            &&& after.table() == before.table()
            &&& *memory_after == *memory
        } else {
            &&& done == Ok::<bool, Errno>(tightens(s, a, b, perm))
            &&& after.areas() == changed(s, a, b, Change::Permit(perm))
            &&& forall|v: int| #[trigger]
                after.page(v) == match before.page(v) {
                    None => None,
                    Some(attr) => if a <= v < b {
                        Some(PageAttr { perm, ..attr })
                    } else {
                        Some(attr)
                    },
                }
            &&& forall|v: int|
                is_page(v) ==> #[trigger] after.mapping(memory_after, v) == if reflags(
                    before.mapping(memory, v),
                    a,
                    b,
                    perm,
                    v,
                ) {
                    reflagged(before.mapping(memory, v), perm)
                } else {
                    before.mapping(memory, v)
                }
        }
    }
}

/// How an address space is after a range was to be shared no more.
pub open spec fn unshared(
    before: &MemorySet,
    memory: &PhysMemory,
    after: &MemorySet,
    start: u64,
    length: u64,
    done: Result<(), Errno>,
) -> bool {
    &&& after.wf(memory)
    &&& after.resident() == before.resident()
    &&& after.table() == before.table()
    &&& after.brk() == before.brk()
    &&& after.heap_start() == before.heap_start()
    &&& after.number() == before.number()
    &&& {
        let s = before.areas();
        let a = range_start(start);
        let b = range_end(start, length);
        let problem = range_problem(s, a, b, false, 0, a);
        if length == 0 {
            done == Ok::<(), Errno>(()) && after.areas() == s
        } else if start + length > u64::MAX {
            done == Err::<(), Errno>(Errno::EINVAL) && after.areas() == s
        } else if problem is Some {
            done == Err::<(), Errno>(problem->Some_0) && after.areas() == s
        } else if b < a || b == a && !straddles(s, a) {
            done == Err::<(), Errno>(Errno::ENOMEM) && after.areas() == s
        } else if b == a {
            &&& done == Ok::<(), Errno>(())
            &&& after.areas() == divided(s, a)
            &&& forall|v: int| #[trigger] after.page(v) == before.page(v)
        } else {
            &&& done == Ok::<(), Errno>(())
            &&& after.areas() == changed(s, a, b, Change::Unshare)
            &&& forall|v: int| #[trigger]
                after.page(v) == match before.page(v) {
                    None => None,
                    Some(attr) => if a <= v < b {
                        Some(PageAttr { shared: false, ..attr })
                    } else {
                        Some(attr)
                    },
                }
        }
    }
}

/// How an address space is after a mapping was asked for.
pub open spec fn mapped(
    before: &MemorySet,
    memory: &PhysMemory,
    after: &MemorySet,
    memory_after: &PhysMemory,
    request: MapRequest,
    layout: UserLayout,
    outcome: (Result<u64, Errno>, Released),
) -> bool {
    &&& after.wf(memory_after)
    &&& after.brk() == before.brk()
    &&& after.heap_start() == before.heap_start()
    &&& after.number() == before.number()
    &&& after.keeps_apart(memory_after, before, memory)
    &&& memory_after.frames() == memory.frames()
    &&& {
        let s = before.areas();
        let a = range_start(request.addr);
        let b = range_end(request.addr, request.length);
        let clears = request.clears(s);
        let (done, released) = outcome;
        &&& after.resident() == if clears {
            without_range(before.resident(), a, b)
        } else {
            before.resident()
        }
        &&& released.frames@ == if clears {
            frames_in(before.resident(), a, b)
        } else {
            Seq::empty()
        }
        &&& released.writebacks@ == if clears {
            writebacks(s, a, b)
        } else {
            Seq::empty()
        }
        &&& forall|v: int|
            is_page(v) ==> #[trigger] after.mapping(memory_after, v) == if clears && a
                <= v < b && before.resident().contains_key(v as u64) {
                None
            } else {
                before.mapping(memory, v)
            }
        &&& match request.problem(s, layout) {
            Some(problem) => done == Err::<u64, Errno>(problem) && after.areas()
                == request.cleared(s),
            None => {
                let at = request.place(s, layout)->Some_0;
                let area = request.area_at(at);
                &&& 0 <= at <= VA_LIMIT
                &&& done == Ok::<u64, Errno>(
                    if request.addr == 0 {
                        at as u64
                    } else {
                        request.addr
                    },
                )
                &&& exists|k: int|
                    0 <= k <= request.cleared(s).len() && after.areas()
                        == #[trigger] request.cleared(s).insert(k, area)
                &&& forall|v: int| #[trigger]
                    after.page(v) == if area.holds(v) {
                        Some(area.attr(v))
                    } else {
                        before.page(v)
                    }
            },
        }
    }
}

impl MapRequest {
    /// No file is behind the memory.
    pub open spec fn anonymous(self) -> bool {
        self.flags.has(MAP_ANONYMOUS)
    }

    /// The area that the request makes at an address.
    pub open spec fn area_at(self, at: int) -> MapArea {
        let shared = self.flags.has(MAP_SHARED);
        MapArea {
            start: first_page(at) as u64,
            end: self.end_at(at) as u64,
            map_type: if self.anonymous() {
                MapType::Framed
            } else {
                MapType::File
            },
            map_perm: self.prot.allows(),
            is_shared: shared,
            backing_file: if self.anonymous() {
                None
            } else {
                Some(
                    Backing {
                        file: self.file->Some_0.0,
                        page_offset: (self.offset / 4096) as u64,
                        writable: self.file->Some_0.1,
                    },
                )
            },
            shared_group: if self.anonymous() && shared {
                Some(self.group)
            } else {
                None
            },
            page_size: PageSize::Page4K,
        }
    }

    /// The wanted address, of which only the bits count that an address has.
    pub open spec fn wanted(self) -> int {
        (self.addr % VA_LIMIT) as int
    }

    /// The page behind the memory that starts at an address.
    pub open spec fn end_at(self, at: int) -> int {
        if self.addr == 0 {
            end_page(at, self.length as int)
        } else {
            range_end(self.addr, self.length)
        }
    }

    /// Where the memory goes: the wanted address, or the first gap.
    pub open spec fn place(self, s: Seq<MapArea>, layout: UserLayout) -> Option<int> {
        if self.addr == 0 {
            gap(s, layout.search_base(), self.length as int, layout.app_max as int)
        } else {
            Some(self.wanted())
        }
    }

    /// The wanted pages conflict with areas.
    pub open spec fn collides(self, s: Seq<MapArea>) -> bool {
        self.addr != 0 && any_conflicts(
            s,
            range_start(self.addr),
            range_end(self.addr, self.length),
        )
    }

    /// The request takes away what lies at the wanted address.
    pub open spec fn clears(self, s: Seq<MapArea>) -> bool {
        (self.anonymous() || self.file is Some) && self.collides(s) && self.flags.has(MAP_FIXED)
    }

    /// The areas that the request leaves before its own comes in.
    pub open spec fn cleared(self, s: Seq<MapArea>) -> Seq<MapArea> {
        if self.clears(s) {
            cut(s, range_start(self.addr), range_end(self.addr, self.length))
        } else {
            s
        }
    }

    /// What stands against the request.
    pub open spec fn problem(self, s: Seq<MapArea>, layout: UserLayout) -> Option<Errno> {
        if !self.anonymous() && self.file is None {
            Some(Errno::EBADF)
        } else if self.place(s, layout) is None {
            Some(Errno::EEXIST)
        } else if self.collides(s) && !self.flags.has(MAP_FIXED) {
            Some(Errno::EEXIST)
        } else if starts_at(self.cleared(s), first_page(self.place(s, layout)->Some_0)) {
            Some(Errno::EEXIST)
        } else {
            None
        }
    }

    /// Returns the area that the request makes at an address.
    fn make_area(&self, at: u64) -> (area: MapArea)
        requires
            self.addr == 0 ==> at + self.length <= VA_LIMIT,
            self.addr != 0 ==> at == self.addr % VA_LIMIT && self.addr + self.length <= u64::MAX
                && range_start(self.addr) <= range_end(self.addr, self.length),
            self.anonymous() || self.file is Some,
        ensures
            area == self.area_at(at as int),
            area.wf(),
    {
        let map_type = if self.flags.contains(MAP_ANONYMOUS) {
            MapType::Framed
        } else {
            MapType::File
        };
        let end: u64 = if self.addr == 0 {
            at + self.length
        } else {
            (self.addr + self.length) % VA_LIMIT
        };
        let mut area = MapArea::new(
            VirtAddr(at),
            VirtAddr(end),
            map_type,
            self.prot.permission(),
            PageSize::Page4K,
        );
        area.is_shared = self.flags.contains(MAP_SHARED);
        if self.flags.contains(MAP_ANONYMOUS) {
            if area.is_shared {
                area.shared_group = Some(self.group);
            }
        } else if let Some((file, writable)) = self.file {
            area.backing_file = Some(
                Backing { file, page_offset: self.offset / PAGE_SIZE, writable },
            );
        }
        area
    }
}

impl MemorySet {
    /// Maps memory; no page gets a frame yet.
    ///
    /// Returns the address of the memory, as it was wanted where one was. A
    /// wanted address that is a must takes away what lies there, also where the
    /// request fails behind that.
    #[verifier::spinoff_prover]
    #[verifier::rlimit(60)]
    pub fn mmap(&mut self, memory: &mut PhysMemory, request: MapRequest, layout: UserLayout) -> (
        outcome: (Result<u64, Errno>, Released))
        requires
            old(self).wf(old(memory)),
            layout.wf(),
            request.addr == 0 ==> VA_LIMIT + request.length <= u64::MAX,
            request.addr != 0 ==> request.addr + request.length <= u64::MAX && range_start(
                request.addr,
            ) <= range_end(request.addr, request.length),
        ensures
            mapped(old(self), old(memory), final(self), final(memory), request, layout, outcome),
    {
        let ghost s = self.areas();
        let mut released = Released { frames: Vec::new(), writebacks: Vec::new() };
        if !request.flags.contains(MAP_ANONYMOUS) && request.file.is_none() {
            return (Err(Errno::EBADF), released);
        }
        let at: u64 = if request.addr == 0 {
            match self.find_free_area(request.length, layout) {
                None => {
                    return (Err(Errno::EEXIST), released);
                },
                Some(found) => {
                    proof {
                        law_gap_is_free(
                            s,
                            layout.search_base(),
                            request.length as int,
                            layout.app_max as int,
                        );
                        lemma_gap_bound(
                            s,
                            layout.search_base(),
                            request.length as int,
                            layout.app_max as int,
                        );
                    }
                    found
                },
            }
        } else {
            if self.has_conflict(request.addr, request.length) {
                if request.flags.contains(MAP_FIXED) {
                    released = self.munmap(memory, request.addr, request.length);
                    proof {
                        let a = range_start(request.addr);
                        let b = range_end(request.addr, request.length);
                        lemma_cut_frees(s, a, b);
                        law_cut(s, a, b);
                    }
                } else {
                    return (Err(Errno::EEXIST), released);
                }
            }
            request.addr % VA_LIMIT
        };
        let ghost mid = *self;
        let first = VirtAddr(at).std_floor();
        if area_starts_at(&self.areas, first.0) {
            return (Err(Errno::EEXIST), released);
        }
        let area = request.make_area(at);
        proof {
            assert(!any_conflicts(self.areas(), area.start as int, area.end as int));
            assert(!starts_at(self.areas(), area.start as int));
            assert forall|i: int| 0 <= i < self.areas@.len() implies !conflicts(
                #[trigger] self.areas@[i],
                area.start as int,
                area.end as int,
            ) && self.areas@[i].start != area.start by {
                assert(self.areas()[i] == self.areas@[i]);
            }
        }
        let k: usize = insert_area(&mut self.areas, area);
        proof {
            assert(mid.areas() == request.cleared(s));
            assert(self.areas() == request.cleared(s).insert(k as int, area));
            assert(user_areas(self.areas())) by {
                let u = self.areas();
                let m = mid.areas();
                assert forall|i: int| 0 <= i < u.len() implies user_area(#[trigger] u[i]) by {
                    if i < k {
                        assert(u[i] == m[i]);
                    } else if i > k {
                        assert(u[i] == m[i - 1]);
                    }
                }
            }
            assert forall|v: u64| #[trigger] self.resident().contains_key(v) implies
                self.frame_mapped(memory, v) by {
                assert(mid.frame_mapped(memory, v));
            }
            assert forall|v: int| is_page(v) implies #[trigger] self.mapping(memory, v)
                == mid.mapping(memory, v) by {}
            assert forall|v: int| #[trigger] self.page(v) == if area.holds(v) {
                Some(area.attr(v))
            } else {
                old(self).page(v)
            } by {
                assert(page_at(self.areas@, v) == if area.holds(v) {
                    Some(area.attr(v))
                } else {
                    page_at(mid.areas@, v)
                });
                assert(mid.page(v) == page_at(mid.areas@, v));
            }
        }
        let told: u64 = if request.addr == 0 {
            at
        } else {
            request.addr
        };
        (Ok(told), released)
    }
}

/// A gap ends among user addresses.
proof fn lemma_gap_bound(s: Seq<MapArea>, from: int, length: int, limit: int)
    requires
        areas_ok(s),
        0 <= from,
        limit <= VA_LIMIT,
        length >= 0,
        gap(s, from, length, limit) is Some,
    ensures
        gap(s, from, length, limit)->Some_0 + length <= VA_LIMIT,
    decreases s.len(),
{
    if s.len() > 0 {
        assert(s[0].wf());
        if from + length <= s[0].start * 4096 {
        } else {
            let rest = s.drop_first();
            assert forall|i: int| 0 <= i < rest.len() implies (#[trigger] rest[i]).wf() by {
                assert(rest[i] == s[i + 1]);
            }
            assert forall|i: int, j: int| 0 <= i < j < rest.len() implies (
            #[trigger] rest[i]).start < (#[trigger] rest[j]).start && rest[i].end
                <= rest[j].start by {
                assert(rest[i] == s[i + 1] && rest[j] == s[j + 1]);
            }
            lemma_gap_bound(rest, super::area::max_of(from, s[0].end * 4096), length, limit);
        }
    }
}

/// The frames of pages that several address spaces share without a file.
pub struct SharedPages {
    frames: BTreeMap<u64, FrameTracker>,
}

/// Groups have numbers below this one.
pub const GROUP_LIMIT: u64 = 0x10_0000_0000;

/// The place of a group's page among all shared pages.
pub open spec fn shared_key(group: int, v: int) -> int {
    group * VPN_LIMIT + v
}

impl View for SharedPages {
    type V = Map<u64, FrameTracker>;

    closed spec fn view(&self) -> Map<u64, FrameTracker> {
        self.frames@
    }
}

impl SharedPages {
    /// Every frame is a standard page.
    pub open spec fn wf(&self) -> bool {
        forall|k: u64| #[trigger] self@.contains_key(k) ==> self@[k].page_size == PageSize::Page4K
    }

    /// Starts without shared pages.
    pub fn new() -> (pages: Self)
        ensures
            pages.wf(),
            pages@ == Map::<u64, FrameTracker>::empty(),
    {
        SharedPages { frames: BTreeMap::new() }
    }
}

/// How a page fault ended, or what it needs.
pub enum FaultOutcome {
    /// The access was not allowed.
    Failed,
    /// The page is mapped now.
    Mapped,
    /// A frame or a table was missing; a frame that found no use comes along.
    OutOfFrames(Option<FrameTracker>),
    /// A page of a shared file must be brought: the file and the page of it.
    SharedFilePage(u64, u64),
    /// Frames must be filled from a file, starting at a byte of it.
    FilePages(u64, u64, Vec<FrameTracker>),
    /// An area with a file has grown down to the page; its pages from there up to this one are to
    /// be brought.
    GrownFile(u64),
}

/// How far below an area, and how far below the stack pointer, a page may lie for the area to grow to it.
pub const MAX_EXPAND_PAGES: u64 = 32;

/// Pages that are read from a file at once.
pub const READ_AHEAD_PAGES: u64 = 64;

/// The frame that a page shares with its group has as many users as can be counted.
pub open spec fn crowded(
    memory: &PhysMemory,
    shared: Map<u64, FrameTracker>,
    area: MapArea,
    v: int,
) -> bool {
    area.shared_group matches Some(g) && shared.contains_key(shared_key(g as int, v) as u64)
        && memory.frames().count(shared[shared_key(g as int, v) as u64].ppn.0) == u64::MAX
}

/// The first area from index `i` on that grows down to page `v`.
pub open spec fn growing(s: Seq<MapArea>, v: int, sp: int, i: int) -> Option<int>
    decreases s.len() - i,
{
    if i >= s.len() {
        None
    } else if grows(s, v, sp, i) {
        Some(i)
    } else {
        growing(s, v, sp, i + 1)
    }
}

/// Area `i` grows down to page `v`: it is no guard, `v` lies a little below it
/// and below the stack pointer, and the pages between are free. An area without
/// pages may start at `v`.
pub open spec fn grows(s: Seq<MapArea>, v: int, sp: int, i: int) -> bool {
    &&& s[i].map_type != MapType::Guard
    &&& v < s[i].start
    &&& s[i].start - v <= MAX_EXPAND_PAGES
    &&& v <= sp
    &&& sp - v <= MAX_EXPAND_PAGES
    &&& i == 0 || s[i - 1].end <= v
}

/// The page of an address.
pub open spec fn page_of(addr: int) -> int {
    addr % (VA_LIMIT as int) / 4096
}

impl MemorySet {
    /// Tables that are missing on the way to the entry of a page.
    pub open spec fn tables_missing(&self, memory: &PhysMemory, v: int) -> int {
        missing(memory.tables(), self.table().root(), v, 2)
    }

    /// Maps a page to a frame that it holds from now on; an error changes nothing.
    fn place_frame(
        &mut self,
        memory: &mut PhysMemory,
        v: u64,
        frame: FrameTracker,
        perm: MapPermission,
    ) -> (done: Result<(), MapError>)
        requires
            old(self).wf(old(memory)),
            v < VPN_LIMIT,
            frame.page_size == PageSize::Page4K,
        ensures
            final(self).wf(final(memory)),
            final(self).areas() == old(self).areas(),
            final(self).brk() == old(self).brk(),
            final(self).heap_start() == old(self).heap_start(),
            final(self).number() == old(self).number(),
            final(self).keeps_apart(final(memory), old(self), old(memory)),
            done is Err ==> final(self).resident() == old(self).resident() && (old(self).mapping(
                old(memory),
                v as int,
            ) is None ==> done == Err::<(), MapError>(MapError::OutOfFrames)) && forall|q: int|
                is_page(q) ==> #[trigger] final(self).mapping(final(memory), q) == old(self).mapping(old(memory), q),
            done is Ok ==> final(self).resident() == old(self).resident().insert(v, frame)
                && forall|q: int|
                is_page(q) ==> #[trigger] final(self).mapping(final(memory), q) == if q == v {
                    Some(
                        (
                            PageTableEntry {
                                page: frame.ppn,
                                flags: perm.pte_flags().installed(),
                            },
                            PageSize::Page4K,
                        ),
                    )
                } else {
                    old(self).mapping(old(memory), q)
                },
            old(self).mapping(old(memory), v as int) is Some ==> done is Err,
            old(self).mapping(old(memory), v as int) is None ==> (done is Ok <==> old(
                memory,
            ).frames().free.count() >= old(self).tables_missing(old(memory), v as int)),
            done is Ok ==> final(memory).frames().free.count() == old(memory).frames().free.count()
                - old(self).tables_missing(old(memory), v as int),
            0 <= old(self).tables_missing(old(memory), v as int) <= 2,
            keeps_users(old(memory).frames(), final(memory).frames()),
    {
        let done = self.page_table.map(
            memory,
            VirtPageNum(v),
            frame.ppn,
            perm.flags(),
            PageSize::Page4K,
        );
        proof {
            assert forall|q: int| is_page(q) implies same_block(q, v as int, 2) == (q == v) by {}
            assert forall|q: int| is_page(q) implies #[trigger] self.mapping(memory, q)
                == self.page_table.at(memory, q) by {}
            lemma_unmapped_is_free(old(self).table(), old(memory), v as int);
        }
        if done.is_ok() {
            self.resident.insert(v, frame);
            proof {
                assert(self.resident() =~= old(self).resident().insert(v, frame));
                assert forall|q: int| is_page(q) implies #[trigger] self.mapping(memory, q)
                    == if q == v {
                    Some(
                        (
                            PageTableEntry {
                                page: frame.ppn,
                                flags: perm.pte_flags().installed(),
                            },
                            PageSize::Page4K,
                        ),
                    )
                } else {
                    old(self).mapping(old(memory), q)
                } by {
                    assert(same_block(q, v as int, 2) == (q == v));
                    assert(self.page_table.at(memory, q) == self.mapping(memory, q));
                }
                assert forall|q: u64| #[trigger] self.resident().contains_key(q) implies
                    self.frame_mapped(memory, q) by {
                    if q != v {
                        assert(old(self).frame_mapped(old(memory), q));
                    }
                    assert(self.mapping(memory, q as int) == if q == v {
                        Some(
                            (
                                PageTableEntry {
                                    page: frame.ppn,
                                    flags: perm.pte_flags().installed(),
                                },
                                PageSize::Page4K,
                            ),
                        )
                    } else {
                        old(self).mapping(old(memory), q as int)
                    });
                }
            }
        } else {
            proof {
                assert forall|q: int| is_page(q) implies #[trigger] self.mapping(memory, q) == old(self).mapping(old(memory), q) by {
                    assert(self.page_table.at(memory, q) == old(self).page_table.at(
                        old(memory),
                        q,
                    ));
                }
                assert forall|q: u64| #[trigger] self.resident().contains_key(q) implies
                    self.frame_mapped(memory, q) by {
                    assert(old(self).frame_mapped(old(memory), q));
                    assert(self.mapping(memory, q as int) == old(self).mapping(
                        old(memory),
                        q as int,
                    ));
                }
            }
        }
        done
    }
}

/// The index of the area that holds a page.
pub open spec fn holder(s: Seq<MapArea>, v: int) -> Option<int> {
    if exists|i: int| 0 <= i < s.len() && (#[trigger] s[i]).holds(v) {
        Some(choose|i: int| 0 <= i < s.len() && (#[trigger] s[i]).holds(v))
    } else {
        None
    }
}

pub proof fn lemma_holder(s: Seq<MapArea>, i: int, v: int)
    requires
        areas_ok(s),
        0 <= i < s.len(),
        s[i].holds(v),
    ensures
        holder(s, v) == Some(i),
{
    let k = choose|k: int| 0 <= k < s.len() && (#[trigger] s[k]).holds(v);
    assert(s[k].holds(v));
    if k < i {
        assert(s[k].end <= s[i].start);
    } else if i < k {
        assert(s[i].end <= s[k].start);
    }
}

/// What a page fault asks for.
pub enum FaultKind {
    /// Nothing: the access is not allowed.
    Refuse,
    /// A frame for a page of the area.
    Frame(int),
    /// A page of the shared file behind the area.
    SharedFile(int),
    /// Pages of the file behind the area.
    PrivateFile(int),
    /// That the area grows down to the page.
    Grow(int),
    /// That the area, which has a file, grows down to the page.
    GrowFile(int),
}

impl MemorySet {
    /// What a fault on page `v` asks for, with the stack pointer in page `sp`.
    pub open spec fn fault_kind(&self, memory: &PhysMemory, v: int, sp: int) -> FaultKind {
        let s = self.areas();
        match holder(s, v) {
            Some(i) => if s[i].map_type == MapType::Guard || s[i].closed_to_user() || self.mapping(
                memory,
                v,
            ) is Some {
                FaultKind::Refuse
            } else if s[i].map_type == MapType::Framed {
                FaultKind::Frame(i)
            } else if s[i].backing_file is None {
                FaultKind::Refuse
            } else if s[i].is_shared {
                FaultKind::SharedFile(i)
            } else {
                FaultKind::PrivateFile(i)
            },
            None => match growing(s, v, sp, 0) {
                None => FaultKind::Refuse,
                Some(i) => if s[i].map_type == MapType::File {
                    FaultKind::GrowFile(i)
                } else {
                    FaultKind::Grow(i)
                },
            },
        }
    }

    /// What a fault on page `v`, with the stack pointer in page `sp`, leads to.
    pub open spec fn fault_handled(
        &self,
        memory: &PhysMemory,
        shared: Map<u64, FrameTracker>,
        after: &MemorySet,
        memory_after: &PhysMemory,
        shared_after: Map<u64, FrameTracker>,
        v: int,
        sp: int,
        outcome: FaultOutcome,
    ) -> bool {
        let s = self.areas();
        let untouched = after.areas() == s && after.resident() == self.resident() && forall|q: int|
            is_page(q) ==> #[trigger] after.mapping(memory_after, q) == self.mapping(memory, q);
        match self.fault_kind(memory, v, sp) {
            FaultKind::Refuse => outcome is Failed && *after == *self && *memory_after == *memory
                && shared_after == shared,
            FaultKind::GrowFile(i) => {
                &&& *memory_after == *memory
                &&& shared_after == shared
                &&& if (MapArea { start: v as u64, ..s[i] }).wf() {
                    &&& outcome == FaultOutcome::GrownFile(s[i].start)
                    &&& after.areas() == grown(s, i, v)
                    &&& after.resident() == self.resident()
                    &&& after.table() == self.table()
                } else {
                    outcome is Failed && *after == *self
                }
            },
            FaultKind::Frame(i) => {
                &&& outcome is Mapped || outcome is OutOfFrames
                &&& after.areas() == s
                &&& outcome is OutOfFrames ==> untouched && shared_after == shared && keeps_users(
                    memory.frames(),
                    memory_after.frames(),
                ) && handed_back(memory, memory_after, outcome->OutOfFrames_0)
                &&& outcome is Mapped ==> memory_after.frames().free.count()
                    >= memory.frames().free.count() - 1 - self.tables_missing(memory, v)
                &&& s[i].shared_group is None ==> shared_after == shared
                &&& outcome is Mapped ==> after.page_filled(
                    memory_after,
                    shared_after,
                    self,
                    memory,
                    shared,
                    v as u64,
                    s[i],
                )
                &&& !crowded(memory, shared, s[i], v) && memory.frames().free.count() >= 1
                    + self.tables_missing(memory, v)
                    ==> outcome is Mapped
            },
            FaultKind::SharedFile(i) => {
                let file = s[i].backing_file->Some_0;
                &&& outcome == FaultOutcome::SharedFilePage(
                    file.file,
                    (file.page_offset + (v - s[i].start)) as u64,
                )
                &&& untouched
                &&& shared_after == shared
            },
            FaultKind::PrivateFile(i) => {
                let file = s[i].backing_file->Some_0;
                let offset = (file.page_offset + (v - s[i].start)) * 4096;
                &&& untouched
                &&& shared_after == shared
                &&& match outcome {
                    FaultOutcome::FilePages(number, at, frames) => {
                        &&& number == file.file
                        &&& at == offset
                        &&& frames@.len() > 0
                        &&& read_ahead(
                            self,
                            memory,
                            memory_after,
                            v,
                            s[i].end as int,
                            frames@,
                        )
                    },
                    FaultOutcome::Failed => offset > u64::MAX || memory.frames().free.count() == 0,
                    _ => false,
                }
            },
            FaultKind::Grow(i) => {
                let bottom = s[i].start as int;
                &&& after.areas() == grown(s, i, v)
                &&& s[i].shared_group is None ==> shared_after == shared
                &&& outcome is Mapped ==> pages_filled(
                    after,
                    memory_after,
                    self,
                    memory,
                    v,
                    bottom,
                    s[i],
                )
                &&& outcome is Mapped ==> (s[i].shared_group matches Some(g) ==> group_frames(
                    after.resident(),
                    memory_after,
                    memory,
                    shared_after,
                    shared,
                    g,
                    v,
                    bottom,
                ))
                &&& outcome is Mapped || outcome is OutOfFrames
                &&& outcome is OutOfFrames ==> handed_back(
                    memory,
                    memory_after,
                    outcome->OutOfFrames_0,
                )
                &&& outcome is OutOfFrames ==> exists|reached: int|
                    v <= reached < bottom && #[trigger] pages_filled(
                        after,
                        memory_after,
                        self,
                        memory,
                        v,
                        reached,
                        s[i],
                    ) && (s[i].shared_group matches Some(g) ==> group_frames(
                        after.resident(),
                        memory_after,
                        memory,
                        shared_after,
                        shared,
                        g,
                        v,
                        reached,
                    ))
                &&& s[i].shared_group is None && range_free(
                    self,
                    memory,
                    v,
                    bottom,
                ) && memory.frames().free.count() >= frames_between(v, bottom)
                    ==> outcome is Mapped
                &&& outcome is OutOfFrames ==> exists|stop: int|
                    v <= stop < bottom && #[trigger] pages_filled(
                        after,
                        memory_after,
                        self,
                        memory,
                        v,
                        stop,
                        s[i],
                    ) && (s[i].shared_group matches Some(g) ==> group_frames(
                        after.resident(),
                        memory_after,
                        memory,
                        shared_after,
                        shared,
                        g,
                        v,
                        stop,
                    ))
            },
        }
    }

    /// The page got a frame: a fresh one of its own, the one that its group shares, or a fresh
    /// one that the group shares from now on.
    pub open spec fn page_filled(
        &self,
        memory: &PhysMemory,
        shared: Map<u64, FrameTracker>,
        before: &MemorySet,
        memory_before: &PhysMemory,
        shared_before: Map<u64, FrameTracker>,
        v: u64,
        area: MapArea,
    ) -> bool {
        let frame = self.resident()[v];
        let next = memory_before.frames().free.take(PageSize::Page4K);
        &&& self.resident() == before.resident().insert(v, frame)
        &&& frame.page_size == PageSize::Page4K
        &&& match area.shared_group {
            None => {
                &&& shared == shared_before
                &&& next is Some && frame.ppn.0 == next->Some_0.0
                &&& fresh(memory_before, memory, frame.ppn.0, 1)
                &&& keeps_users(memory_before.frames(), memory.frames())
            },
            Some(g) => {
                let key = shared_key(g as int, v as int) as u64;
                &&& keeps_other_users(memory_before, memory, frame.ppn.0)
                &&& if shared_before.contains_key(key) {
                    &&& shared == shared_before
                    &&& frame == shared_before[key]
                    &&& memory_before.frames().free.times_free(frame.ppn.0 as int) == 0
                        ==> memory.frames().count(frame.ppn.0) == memory_before.frames().count(
                        frame.ppn.0,
                    ) + 1
                } else {
                    &&& shared == shared_before.insert(key, frame)
                    &&& next is Some && frame.ppn.0 == next->Some_0.0
                    &&& fresh(memory_before, memory, frame.ppn.0, 2)
                }
            },
        }
        &&& forall|q: int|
            is_page(q) ==> #[trigger] self.mapping(memory, q) == if q == v {
                Some(
                    (
                        PageTableEntry {
                            page: frame.ppn,
                            flags: area.map_perm.pte_flags().installed(),
                        },
                        PageSize::Page4K,
                    ),
                )
            } else {
                before.mapping(memory_before, q)
            }
    }

    /// Gives a page of a framed area its frame.
    fn map_fresh(
        &mut self,
        memory: &mut PhysMemory,
        shared: &mut SharedPages,
        v: u64,
        area: MapArea,
    ) -> (done: Result<(), Option<FrameTracker>>)
        requires
            old(self).wf(old(memory)),
            old(shared).wf(),
            v < VPN_LIMIT,
            area.shared_group matches Some(g) ==> g < GROUP_LIMIT,
        ensures
            final(self).wf(final(memory)),
            final(shared).wf(),
            final(self).areas() == old(self).areas(),
            final(self).brk() == old(self).brk(),
            final(self).heap_start() == old(self).heap_start(),
            final(self).number() == old(self).number(),
            final(self).keeps_apart(final(memory), old(self), old(memory)),
            done is Ok ==> final(self).page_filled(
                final(memory),
                final(shared)@,
                old(self),
                old(memory),
                old(shared)@,
                v,
                area,
            ),
            done is Err ==> final(self).resident() == old(self).resident() && forall|q: int|
                is_page(q) ==> #[trigger] final(self).mapping(final(memory), q) == old(self).mapping(old(memory), q),
            done is Err ==> keeps_users(old(memory).frames(), final(memory).frames())
                && handed_back(old(memory), final(memory), done->Err_0) && final(shared)@ == old(
                shared,
            )@,
            area.shared_group is None ==> final(shared)@ == old(shared)@,
            old(self).mapping(old(memory), v as int) is None && !crowded(
                old(memory),
                old(shared)@,
                area,
                v as int,
            ) && old(memory).frames().free.count() >= 1 + old(self).tables_missing(
                old(memory),
                v as int,
            ) ==> done is Ok,
            done is Ok ==> final(memory).frames().free.count() >= old(memory).frames().free.count()
                - 1 - old(self).tables_missing(old(memory), v as int),
            0 <= old(self).tables_missing(old(memory), v as int) <= 2,
    {
        proof {
            memory.lemma_wf();
            super::frame_allocator::law_take_some(memory.frames().free);
        }
        match area.shared_group {
            None => {
                match memory.take_frame(PageSize::Page4K) {
                    None => Err(None),
                    Some(frame) => {
                        proof {
                            super::frame_allocator::law_take_conserves(
                                old(memory).frames().free,
                                PageSize::Page4K,
                                0,
                            );
                            lemma_other_memory(*old(self), old(memory), memory);
                        }
                        let ghost taken = *memory;
                        let done = self.place_frame(memory, v, frame, area.map_perm);
                        proof {
                            assert(memory.frames().count(frame.ppn.0) == taken.frames().count(
                                frame.ppn.0,
                            ));
                            lemma_fresh_stays(old(memory), &taken, memory, frame.ppn.0, 1);
                            lemma_users_both(
                                old(memory).frames(),
                                taken.frames(),
                                memory.frames(),
                            );
                        }
                        match done {
                            Ok(()) => Ok(()),
                            Err(_) => Err(Some(frame)),
                        }
                    },
                }
            },
            Some(group) => {
                let key: u64 = group * VPN_LIMIT + v;
                let known: Option<FrameTracker> = match shared.frames.get(&key) {
                    None => None,
                    Some(frame) => Some(*frame),
                };
                match known {
                    Some(frame) => {
                        assert(shared@.contains_key(key));
                        if memory.users(frame.ppn) == u64::MAX {
                            return Err(None);
                        }
                        match self.place_frame(memory, v, frame, area.map_perm) {
                            Err(_) => Err(None),
                            Ok(()) => {
                                let ghost placed = *memory;
                                assert(memory.frames().count(frame.ppn.0) < u64::MAX);
                                memory.share_frame(frame.ppn);
                                proof {
                                    lemma_other_memory(*self, &placed, memory);
                                    lemma_shared_once(old(memory), &placed, memory, frame.ppn.0);
                                }
                                Ok(())
                            },
                        }
                    },
                    None => {
                        match memory.take_frame(PageSize::Page4K) {
                            None => Err(None),
                            Some(frame) => {
                                let ghost taken = *memory;
                                proof {
                                    super::frame_allocator::law_take_conserves(
                                        old(memory).frames().free,
                                        PageSize::Page4K,
                                        0,
                                    );
                                    lemma_other_memory(*old(self), old(memory), memory);
                                }
                                let done = self.place_frame(memory, v, frame, area.map_perm);
                                let ghost placed = *memory;
                                proof {
                                    assert(placed.frames().count(frame.ppn.0)
                                        == taken.frames().count(frame.ppn.0));
                                    lemma_fresh_stays(old(memory), &taken, memory, frame.ppn.0, 1);
                                    lemma_users_both(
                                        old(memory).frames(),
                                        taken.frames(),
                                        memory.frames(),
                                    );
                                }
                                match done {
                                    Err(_) => Err(Some(frame)),
                                    Ok(()) => {
                                        memory.share_frame(frame.ppn);
                                        shared.frames.insert(key, frame);
                                        proof {
                                            assert(shared@ =~= old(shared)@.insert(key, frame));
                                            lemma_other_memory(*self, &placed, memory);
                                            lemma_shared_once(
                                                old(memory),
                                                &placed,
                                                memory,
                                                frame.ppn.0,
                                            );
                                        }
                                        Ok(())
                                    },
                                }
                            },
                        }
                    },
                }
            },
        }
    }
}

/// A frame that gets a user more, after others were taken, has one more; others have the users
/// that they had.
proof fn lemma_shared_once(
    before: &PhysMemory,
    placed: &PhysMemory,
    after: &PhysMemory,
    p: u64,
)
    requires
        keeps_users(before.frames(), placed.frames()),
        keeps_held(before, placed),
        placed.frames().count(p) < u64::MAX,
        after.frames() == (Frames {
            users: placed.frames().users.insert(p, (placed.frames().count(p) + 1) as u64),
            ..placed.frames()
        }),
        after.tables() == placed.tables(),
        after.stale() == placed.stale(),
    ensures
        keeps_other_users(before, after, p),
        before.frames().free.times_free(p as int) == 0 ==> after.frames().count(p)
            == before.frames().count(p) + 1,
        fresh(before, placed, p, 1) ==> fresh(before, after, p, 2),
{
    assert forall|q: u64| #[trigger]
        after.frames().count(q) == before.frames().count(q) || q == p
            || before.frames().free.times_free(q as int) > 0 by {
        assert(q != p ==> after.frames().count(q) == placed.frames().count(q));
    }
    assert(after.frames().count(p) == placed.frames().count(p) + 1);
}

/// A frame that is handed back was free before, and only the one who gets it has it.
pub open spec fn handed_back(
    before: &PhysMemory,
    after: &PhysMemory,
    frame: Option<FrameTracker>,
) -> bool {
    frame matches Some(f) ==> f.page_size == PageSize::Page4K && fresh(before, after, f.ppn.0, 1)
}

/// Frames that are taken or shared leave the tables, and so the address space, alone.
proof fn lemma_other_memory(set: MemorySet, before: &PhysMemory, after: &PhysMemory)
    requires
        set.wf(before),
        after.wf(),
        after.tables() == before.tables(),
    ensures
        set.wf(after),
        forall|q: int| is_page(q) ==> #[trigger] set.mapping(after, q) == set.mapping(before, q),
{
    assert forall|v: u64| #[trigger] set.resident().contains_key(v) implies set.frame_mapped(
        after,
        v,
    ) by {
        assert(set.frame_mapped(before, v));
    }
}

/// The areas after area `i` grew down to page `v`; an area without pages that started there
/// goes.
pub open spec fn grown(s: Seq<MapArea>, i: int, v: int) -> Seq<MapArea> {
    let u = s.update(i, MapArea { start: v as u64, ..s[i] });
    if i > 0 && s[i - 1].start == v {
        u.remove(i - 1)
    } else {
        u
    }
}

/// An area that grows over free pages stays apart from the others.
proof fn lemma_grown(s: Seq<MapArea>, v: int, sp: int, i: int)
    requires
        user_areas(s),
        0 <= v,
        holder(s, v) is None,
        growing(s, v, sp, 0) == Some(i),
        (MapArea { start: v as u64, ..s[i] }).wf(),
    ensures
        0 <= i < s.len(),
        v < s[i].start,
        user_areas(grown(s, i, v)),
        forall|q: int| #[trigger]
            page_at(grown(s, i, v), q) == if v <= q < s[i].end {
                Some((MapArea { start: v as u64, ..s[i] }).attr(q))
            } else {
                page_at(s, q)
            },
{
    lemma_growing(s, v, sp, 0);
    assert(s[i].wf() && user_area(s[i]));
    if i > 0 && s[i - 1].start == v {
        assert(s[i - 1].wf());
        lemma_without_empty(s, i - 1);
        let t = s.remove(i - 1);
        assert(t[i - 1] == s[i]);
        assert(grown(s, i, v) =~= t.update(i - 1, MapArea { start: v as u64, ..t[i - 1] }));
        lemma_grown_alone(t, grown(s, i, v), v, i - 1);
    } else {
        if i > 0 {
            assert(s[i - 1].wf());
        }
        lemma_grown_alone(s, grown(s, i, v), v, i);
    }
}

/// An area without pages that goes changes no page.
proof fn lemma_without_empty(s: Seq<MapArea>, i: int)
    requires
        user_areas(s),
        0 <= i < s.len(),
        s[i].start >= s[i].end,
    ensures
        user_areas(s.remove(i)),
        forall|q: int| #[trigger] page_at(s.remove(i), q) == page_at(s, q),
{
    let u = s.remove(i);
    assert forall|j: int| 0 <= j < u.len() implies (#[trigger] u[j]).wf() && user_area(u[j]) by {
        let k = if j < i {
            j
        } else {
            j + 1
        };
        assert(u[j] == s[k]);
        assert(s[k].wf() && user_area(s[k]));
    }
    assert forall|j: int, k: int| 0 <= j < k < u.len() implies (#[trigger] u[j]).start < (
    #[trigger] u[k]).start && u[j].end <= u[k].start by {
        let a = if j < i {
            j
        } else {
            j + 1
        };
        let b = if k < i {
            k
        } else {
            k + 1
        };
        assert(u[j] == s[a] && u[k] == s[b]);
    }
    assert forall|q: int| #[trigger] page_at(u, q) == page_at(s, q) by {
        if exists|j: int| 0 <= j < u.len() && (#[trigger] u[j]).holds(q) {
            let j = choose|j: int| 0 <= j < u.len() && (#[trigger] u[j]).holds(q);
            let k = if j < i {
                j
            } else {
                j + 1
            };
            assert(u[j] == s[k]);
            lemma_page_at(u, j, q);
            lemma_page_at(s, k, q);
        } else {
            assert forall|k: int| 0 <= k < s.len() implies !(#[trigger] s[k]).holds(q) by {
                if k != i {
                    assert(u[if k < i {
                        k
                    } else {
                        k - 1
                    }] == s[k]);
                }
            }
        }
    }
}

/// An area that grows down to a page behind those before it stays apart from the others.
proof fn lemma_grown_alone(s: Seq<MapArea>, u: Seq<MapArea>, v: int, i: int)
    requires
        user_areas(s),
        0 <= v,
        0 <= i < s.len(),
        v < s[i].start,
        (MapArea { start: v as u64, ..s[i] }).wf(),
        i > 0 ==> s[i - 1].end <= v && s[i - 1].start < v,
        u == s.update(i, MapArea { start: v as u64, ..s[i] }),
    ensures
        user_areas(u),
        forall|q: int| #[trigger]
            page_at(u, q) == if v <= q < s[i].end {
                Some((MapArea { start: v as u64, ..s[i] }).attr(q))
            } else {
                page_at(s, q)
            },
{
    assert(s[i].wf() && user_area(s[i]));
    assert forall|j: int| 0 <= j < i implies (#[trigger] s[j]).end <= v && s[j].start < v by {
        if j < i - 1 {
            assert(s[j].end <= s[i - 1].start && s[j].start < s[i - 1].start);
        }
    }
    assert forall|j: int, k: int| 0 <= j < k < u.len() implies (#[trigger] u[j]).start < (
    #[trigger] u[k]).start && u[j].end <= u[k].start by {
        assert(s[j].start < s[k].start && s[j].end <= s[k].start);
    }
    assert forall|j: int| 0 <= j < u.len() implies (#[trigger] u[j]).wf() && user_area(u[j]) by {
        assert(s[j].wf());
        assert(user_area(s[j]));
    }
    assert forall|q: int| #[trigger] page_at(u, q) == if v <= q < s[i].end {
        Some((MapArea { start: v as u64, ..s[i] }).attr(q))
    } else {
        page_at(s, q)
    } by {
        if u[i].holds(q) {
            lemma_page_at(u, i, q);
        } else if exists|j: int| 0 <= j < s.len() && (#[trigger] s[j]).holds(q) {
            let j = choose|j: int| 0 <= j < s.len() && (#[trigger] s[j]).holds(q);
            assert(u[j] == s[j]);
            lemma_page_at(u, j, q);
            lemma_page_at(s, j, q);
        } else {
            assert forall|j: int| 0 <= j < u.len() implies !(#[trigger] u[j]).holds(q) by {
                assert(!s[j].holds(q));
            }
        }
    }
}

proof fn lemma_growing(s: Seq<MapArea>, v: int, sp: int, i: int)
    requires
        0 <= i,
        growing(s, v, sp, i) is Some,
    ensures
        ({
            let k = growing(s, v, sp, i)->Some_0;
            &&& i <= k < s.len()
            &&& grows(s, v, sp, k)
        }),
    decreases s.len() - i,
{
    if i < s.len() && !grows(s, v, sp, i) {
        lemma_growing(s, v, sp, i + 1);
    }
}

/// Finds the area that grows down to a page.
fn find_growing(areas: &Vec<MapArea>, v: u64, sp: u64) -> (found: Option<usize>)
    ensures
        match growing(areas@, v as int, sp as int, 0) {
            None => found is None,
            Some(i) => found is Some && found->Some_0 == i,
        },
{
    let mut i: usize = 0;
    while i < areas.len()
        invariant
            i <= areas@.len(),
            growing(areas@, v as int, sp as int, 0) == growing(
                areas@,
                v as int,
                sp as int,
                i as int,
            ),
        decreases areas@.len() - i,
    {
        let area = areas[i];
        if area.map_type != MapType::Guard && v < area.start && area.start - v <= MAX_EXPAND_PAGES
            && v <= sp && sp - v <= MAX_EXPAND_PAGES && (i == 0 || areas[i - 1].end <= v) {
            return Some(i);
        }
        i = i + 1;
    }
    None
}

/// How pages from `a` to `b` of an area got frames, from the lowest up. Without a group each has
/// its frame for itself.
pub open spec fn pages_filled(
    set: &MemorySet,
    memory: &PhysMemory,
    before: &MemorySet,
    memory_before: &PhysMemory,
    a: int,
    b: int,
    area: MapArea,
) -> bool {
    &&& area.shared_group is None ==> own_frames(set.resident(), memory, memory_before, a, b)
    &&& forall|v: u64|
        a <= v < b ==> #[trigger] set.resident().contains_key(v)
    &&& forall|v: u64|
        !(a <= v < b) ==> #[trigger] set.resident().contains_key(v)
            == before.resident().contains_key(v) && (before.resident().contains_key(v)
            ==> set.resident()[v] == before.resident()[v])
    &&& forall|q: int|
        is_page(q) ==> #[trigger] set.mapping(memory, q) == if a <= q < b {
            Some(
                (
                    PageTableEntry {
                        page: set.resident()[q as u64].ppn,
                        flags: area.map_perm.pte_flags().installed(),
                    },
                    PageSize::Page4K,
                ),
            )
        } else {
            before.mapping(memory_before, q)
        }
}

/// Frames for the pages from `a` to `b` and for the tables on the way to them: one for each
/// block of pages that a table of either level maps.
pub open spec fn frames_between(a: int, b: int) -> int {
    if a >= b {
        0
    } else {
        (b - a) + ((b - 1) / 512 - a / 512 + 1) + ((b - 1) / 0x4_0000 - a / 0x4_0000 + 1)
    }
}

/// A page more takes a frame, and one for each table that it is the first page of.
pub proof fn lemma_frames_between(a: int, v: int, b: int)
    requires
        0 <= a <= v < b,
    ensures
        frames_between(a, v + 1) == frames_between(a, v) + 1 + if v == a {
            2
        } else {
            (if v % 512 == 0 {
                1int
            } else {
                0
            }) + (if v % 0x4_0000 == 0 {
                1int
            } else {
                0
            })
        },
        frames_between(a, v + 1) <= frames_between(a, b) - (b - (v + 1)),
{
}

/// Fewer pages take no more frames.
pub proof fn lemma_fewer_frames(a: int, from: int, b: int)
    requires
        0 <= a <= from <= b,
    ensures
        frames_between(from, b) <= frames_between(a, b),
{
}

/// The tables that the page before uses are there for a page that is not mapped, too.
pub proof fn lemma_next_tables(table: PageTable, memory: &PhysMemory, v: int)
    requires
        table.wf(memory),
        is_page(v),
        is_page(v - 1),
        table.at(memory, v - 1) is Some,
        table.at(memory, v) is None,
    ensures
        missing(memory.tables(), table.root(), v, 2) <= (if v % 512 == 0 {
            1int
        } else {
            0
        }) + (if v % 0x4_0000 == 0 {
            1int
        } else {
            0
        }),
{
    if v % 512 != 0 {
        assert(v / 512 == (v - 1) / 512);
        assert(table_index(v, 1) == table_index(v - 1, 1));
    }
    if v % 0x4_0000 != 0 {
        assert(v / 0x4_0000 == (v - 1) / 0x4_0000);
        assert(table_index(v, 0) == table_index(v - 1, 0));
    }
}

/// No page from `a` to `b` is mapped.
pub open spec fn range_free(set: &MemorySet, memory: &PhysMemory, a: int, b: int) -> bool {
    forall|q: int| a <= q < b ==> #[trigger] set.mapping(memory, q) is None
}

impl MemorySet {
    /// Gives the pages from `a` to `b` of a framed area their frames, from the
    /// lowest up, until one cannot be mapped; returns the page reached.
    #[verifier::spinoff_prover]
    #[verifier::rlimit(60)]
    fn fill_range(
        &mut self,
        memory: &mut PhysMemory,
        shared: &mut SharedPages,
        a: u64,
        b: u64,
        area: MapArea,
    ) -> (outcome: (u64, Option<FrameTracker>))
        requires
            old(self).wf(old(memory)),
            old(shared).wf(),
            a <= b <= VPN_LIMIT,
            area.shared_group matches Some(g) ==> g < GROUP_LIMIT,
        ensures
            final(self).wf(final(memory)),
            final(shared).wf(),
            final(self).areas() == old(self).areas(),
            final(self).brk() == old(self).brk(),
            final(self).heap_start() == old(self).heap_start(),
            final(self).number() == old(self).number(),
            final(self).keeps_apart(final(memory), old(self), old(memory)),
            a <= outcome.0 <= b,
            outcome.0 == b ==> outcome.1 is None,
            pages_filled(
                final(self),
                final(memory),
                old(self),
                old(memory),
                a as int,
                outcome.0 as int,
                area,
            ),
            area.shared_group matches Some(g) ==> group_frames(
                final(self).resident(),
                final(memory),
                old(memory),
                final(shared)@,
                old(shared)@,
                g,
                a as int,
                outcome.0 as int,
            ),
            area.shared_group is None ==> keeps_users(old(memory).frames(), final(memory).frames()),
            handed_back(old(memory), final(memory), outcome.1),
            area.shared_group is None ==> final(shared)@ == old(shared)@,
            area.shared_group is None && range_free(old(self), old(memory), a as int, b as int)
                && old(memory).frames().free.count() >= frames_between(a as int, b as int)
                ==> outcome.0 == b,
            area.shared_group is None && outcome.0 == b ==> final(memory).frames().free.count()
                >= old(memory).frames().free.count() - frames_between(a as int, b as int),
    {
        let mut v: u64 = a;
        proof {
            lemma_own_none(self.resident(), memory, a as int);
            if let Some(g) = area.shared_group {
                lemma_group_none(self.resident(), memory, shared@, g, a as int);
            }
        }
        while v < b
            invariant
                self.wf(memory),
                shared.wf(),
                self.areas() == old(self).areas(),
                self.brk() == old(self).brk(),
                self.heap_start() == old(self).heap_start(),
                self.number() == old(self).number(),
                self.keeps_apart(memory, old(self), old(memory)),
                a <= v <= b <= VPN_LIMIT,
                area.shared_group matches Some(g) ==> g < GROUP_LIMIT,
                pages_filled(
                    self,
                    memory,
                    old(self),
                    old(memory),
                    a as int,
                    v as int,
                    area,
                ),
                old(memory).wf(),
                area.shared_group matches Some(g) ==> group_frames(
                    self.resident(),
                    memory,
                    old(memory),
                    shared@,
                    old(shared)@,
                    g,
                    a as int,
                    v as int,
                ),
                area.shared_group is None ==> shared@ == old(shared)@,
                area.shared_group is None ==> memory.frames().free.count() >= old(memory).frames().free.count()
                    - frames_between(a as int, v as int),
            decreases b - v,
        {
            proof {
                if v > a && self.mapping(memory, v as int) is None {
                    assert(self.mapping(memory, v - 1) is Some);
                    lemma_next_tables(self.table(), memory, v as int);
                }
                lemma_frames_between(a as int, v as int, b as int);
            }
            let ghost before = *self;
            let ghost memory_before = *memory;
            let ghost shared_before = shared@;
            assert(self.mapping(memory, v as int) == old(self).mapping(old(memory), v as int));
            match self.map_fresh(memory, shared, v, area) {
                Ok(()) => {
                    proof {
                        lemma_filled_step(
                            old(self),
                            old(memory),
                            old(shared)@,
                            &before,
                            &memory_before,
                            shared_before,
                            self,
                            memory,
                            shared@,
                            a as int,
                            v,
                            area,
                        );
                    }
                },
                Err(frame) => {
                    proof {
                        assert forall|q: int| is_page(q) implies #[trigger] self.mapping(memory, q)
                            == before.mapping(&memory_before, q) by {}
                        match area.shared_group {
                            None => {
                                lemma_own_kept(
                                    self.resident(),
                                    old(memory),
                                    &memory_before,
                                    memory,
                                    a as int,
                                    v as int,
                                );
                                lemma_own_users(
                                    self.resident(),
                                    memory,
                                    old(memory),
                                    a as int,
                                    v as int,
                                );
                            },
                            Some(g) => {
                                lemma_group_kept(
                                    self.resident(),
                                    old(memory),
                                    &memory_before,
                                    memory,
                                    shared@,
                                    old(shared)@,
                                    g,
                                    a as int,
                                    v as int,
                                );
                            },
                        }
                        if let Some(f) = frame {
                            lemma_free_before(old(memory), &memory_before, f.ppn.0);
                        }
                    }
                    return (v, frame);
                },
            }
            v = v + 1;
        }
        proof {
            if area.shared_group is None {
                lemma_own_users(self.resident(), memory, old(memory), a as int, v as int);
            }
        }
        (v, None)
    }
}

/// A page more is filled.
proof fn lemma_filled_step(
    first: &MemorySet,
    memory_first: &PhysMemory,
    shared_first: Map<u64, FrameTracker>,
    before: &MemorySet,
    memory_before: &PhysMemory,
    shared_before: Map<u64, FrameTracker>,
    after: &MemorySet,
    memory: &PhysMemory,
    shared: Map<u64, FrameTracker>,
    a: int,
    v: u64,
    area: MapArea,
)
    requires
        memory_first.wf(),
        memory_before.wf(),
        0 <= a <= v < VPN_LIMIT,
        area.shared_group matches Some(g) ==> g < GROUP_LIMIT,
        pages_filled(before, memory_before, first, memory_first, a, v as int, area),
        area.shared_group matches Some(g) ==> group_frames(
            before.resident(),
            memory_before,
            memory_first,
            shared_before,
            shared_first,
            g,
            a,
            v as int,
        ),
        keeps_held(memory_first, memory_before),
        keeps_held(memory_before, memory),
        after.page_filled(memory, shared, before, memory_before, shared_before, v, area),
    ensures
        pages_filled(after, memory, first, memory_first, a, v + 1, area),
        area.shared_group matches Some(g) ==> group_frames(
            after.resident(),
            memory,
            memory_first,
            shared,
            shared_first,
            g,
            a,
            v + 1,
        ),
{
    match area.shared_group {
        None => {
            lemma_own_step(
                before.resident(),
                after.resident(),
                memory_first,
                memory_before,
                memory,
                a,
                v,
            );
        },
        Some(g) => {
            lemma_group_step(
                before.resident(),
                after.resident(),
                memory_first,
                memory_before,
                memory,
                shared_first,
                shared_before,
                shared,
                g,
                a,
                v,
            );
        },
    }
    assert forall|q: u64| !(a <= q < v + 1) implies #[trigger] after.resident().contains_key(q)
        == first.resident().contains_key(q) && (first.resident().contains_key(q)
        ==> after.resident()[q] == first.resident()[q]) by {
        assert(before.resident().contains_key(q) == first.resident().contains_key(q));
    }
    assert forall|q: u64| a <= q < v + 1 implies #[trigger] after.resident().contains_key(q) by {
        assert(q == v || before.resident().contains_key(q));
    }
    assert forall|q: int| is_page(q) implies #[trigger] after.mapping(memory, q) == if a <= q < v
        + 1 {
        Some(
            (
                PageTableEntry {
                    page: after.resident()[q as u64].ppn,
                    flags: area.map_perm.pte_flags().installed(),
                },
                PageSize::Page4K,
            ),
        )
    } else {
        first.mapping(memory_first, q)
    } by {
        assert(q != v ==> after.mapping(memory, q) == before.mapping(memory_before, q));
    }
}

/// Every group of shared pages has a number that can be counted.
pub open spec fn groups_ok(s: Seq<MapArea>) -> bool {
    forall|i: int|
        0 <= i < s.len() ==> ((#[trigger] s[i]).shared_group matches Some(g) ==> g < GROUP_LIMIT)
}

/// The frames for reading file pages ahead: `frames` are for the unmapped pages from `v` on. They
/// were free, and no two are the same.
pub open spec fn read_ahead(
    set: &MemorySet,
    memory_before: &PhysMemory,
    memory: &PhysMemory,
    v: int,
    end: int,
    frames: Seq<FrameTracker>,
) -> bool {
    &&& frames.len() <= READ_AHEAD_PAGES
    &&& v + frames.len() <= end
    &&& forall|i: int|
        0 <= i < frames.len() ==> (#[trigger] frames[i]).page_size == PageSize::Page4K && fresh(
            memory_before,
            memory,
            frames[i].ppn.0,
            1,
        )
    &&& forall|i: int, j: int|
        0 <= i < j < frames.len() ==> (#[trigger] frames[i]).ppn != (#[trigger] frames[j]).ppn
    &&& keeps_users(memory_before.frames(), memory.frames())
    &&& forall|q: int| v <= q < v + frames.len() ==> #[trigger] set.mapping(memory_before, q) is None
    &&& frames.len() == READ_AHEAD_PAGES || v + frames.len() == end || set.mapping(
        memory_before,
        v + frames.len(),
    ) is Some || memory.frames().free.count() == 0
    &&& memory.tables() == memory_before.tables()
    &&& memory.frames().free.count() == memory_before.frames().free.count() - frames.len()
}

impl MemorySet {
    /// Takes the frames for reading file pages ahead, from page `v` to page `end` at most.
    fn take_read_ahead(&self, memory: &mut PhysMemory, v: u64, end: u64) -> (frames: Vec<
        FrameTracker,
    >)
        requires
            self.wf(old(memory)),
            v < end <= VPN_LIMIT,
        ensures
            self.wf(final(memory)),
            keeps_held(old(memory), final(memory)),
            read_ahead(self, old(memory), final(memory), v as int, end as int, frames@),
    {
        let mut frames: Vec<FrameTracker> = Vec::new();
        let mut page: u64 = v;
        while page < end && page - v < READ_AHEAD_PAGES
            invariant
                self.wf(memory),
                self.wf(old(memory)),
                v <= page <= end <= VPN_LIMIT,
                page - v <= READ_AHEAD_PAGES,
                frames@.len() == page - v,
                memory.tables() == old(memory).tables(),
                memory.frames().free.count() == old(memory).frames().free.count() - frames@.len(),
                forall|i: int|
                    0 <= i < frames@.len() ==> (#[trigger] frames@[i]).page_size
                        == PageSize::Page4K && fresh(old(memory), memory, frames@[i].ppn.0, 1),
                forall|i: int, j: int|
                    0 <= i < j < frames@.len() ==> (#[trigger] frames@[i]).ppn
                        != (#[trigger] frames@[j]).ppn,
                keeps_users(old(memory).frames(), memory.frames()),
                keeps_held(old(memory), memory),
                forall|q: int| v <= q < page ==> #[trigger] self.mapping(old(memory), q) is None,
            ensures
                self.wf(memory),
                v <= page <= end,
                page - v <= READ_AHEAD_PAGES,
                frames@.len() == page - v,
                memory.tables() == old(memory).tables(),
                memory.frames().free.count() == old(memory).frames().free.count() - frames@.len(),
                forall|i: int|
                    0 <= i < frames@.len() ==> (#[trigger] frames@[i]).page_size
                        == PageSize::Page4K && fresh(old(memory), memory, frames@[i].ppn.0, 1),
                forall|i: int, j: int|
                    0 <= i < j < frames@.len() ==> (#[trigger] frames@[i]).ppn
                        != (#[trigger] frames@[j]).ppn,
                keeps_users(old(memory).frames(), memory.frames()),
                keeps_held(old(memory), memory),
                forall|q: int| v <= q < page ==> #[trigger] self.mapping(old(memory), q) is None,
                page - v == READ_AHEAD_PAGES || page == end || self.mapping(
                    old(memory),
                    page as int,
                ) is Some || memory.frames().free.count() == 0,
            decreases end - page,
        {
            if self.page_table.find_pte(memory, VirtPageNum(page)).is_some() {
                break;
            }
            let ghost before = *memory;
            proof {
                before.lemma_wf();
                super::frame_allocator::law_take_some(before.frames().free);
            }
            match memory.take_frame(PageSize::Page4K) {
                None => {
                    break;
                },
                Some(frame) => {
                    proof {
                        super::frame_allocator::law_take_conserves(
                            before.frames().free,
                            PageSize::Page4K,
                            0,
                        );
                        lemma_other_memory(*self, &before, memory);
                        lemma_free_before(old(memory), &before, frame.ppn.0);
                        lemma_users_both(old(memory).frames(), before.frames(), memory.frames());
                        assert forall|i: int| 0 <= i < frames@.len() implies fresh(
                            old(memory),
                            memory,
                            (#[trigger] frames@[i]).ppn.0,
                            1,
                        ) && frames@[i].ppn != frame.ppn by {
                            assert(memory.frames().count(frames@[i].ppn.0)
                                == before.frames().count(frames@[i].ppn.0));
                            lemma_fresh_stays(old(memory), &before, memory, frames@[i].ppn.0, 1);
                        }
                    }
                    frames.push(frame);
                },
            }
            page = page + 1;
        }
        frames
    }

    /// Handles a fault on an address, with the stack pointer at `sp`.
    ///
    /// A page of an area gets its frame; where a file is behind the area, the
    /// caller brings the contents and calls back. A page a little below an
    /// area and the stack pointer makes the area grow.
    #[verifier::spinoff_prover]
    #[verifier::rlimit(40)]
    pub fn handle_page_fault(
        &mut self,
        memory: &mut PhysMemory,
        shared: &mut SharedPages,
        bad_addr: u64,
        sp: u64,
    ) -> (outcome: FaultOutcome)
        requires
            old(self).wf(old(memory)),
            old(shared).wf(),
            groups_ok(old(self).areas()),
        ensures
            final(self).wf(final(memory)),
            final(shared).wf(),
            groups_ok(final(self).areas()),
            final(self).brk() == old(self).brk(),
            final(self).heap_start() == old(self).heap_start(),
            final(self).number() == old(self).number(),
            final(self).keeps_apart(final(memory), old(self), old(memory)),
            old(self).fault_handled(
                old(memory),
                old(shared)@,
                final(self),
                final(memory),
                final(shared)@,
                page_of(bad_addr as int),
                page_of(sp as int),
                outcome,
            ),
    {
        let page = VirtAddr::from(bad_addr).std_floor();
        let ghost s = self.areas();
        let ghost v = page.0 as int;
        assert(v == page_of(bad_addr as int));
        match find_area(&self.areas, page) {
            Some(i) => {
                proof {
                    lemma_holder(s, i as int, v);
                    assert(user_area(s[i as int]));
                    assert(s[i as int].wf());
                }
                let area = self.areas[i];
                if area.map_type == MapType::Guard {
                    return FaultOutcome::Failed;
                }
                if area.is_closed() {
                    return FaultOutcome::Failed;
                }
                if self.page_table.find_pte(memory, page).is_some() {
                    return FaultOutcome::Failed;
                }
                if area.map_type == MapType::Framed {
                    return match self.map_fresh(memory, shared, page.0, area) {
                        Ok(()) => FaultOutcome::Mapped,
                        Err(frame) => FaultOutcome::OutOfFrames(frame),
                    };
                }
                match area.backing_file {
                    None => FaultOutcome::Failed,
                    Some(file) => {
                        let file_page: u64 = file.page_offset + (page.0 - area.start);
                        if area.is_shared {
                            return FaultOutcome::SharedFilePage(file.file, file_page);
                        }
                        if file_page > u64::MAX / PAGE_SIZE {
                            return FaultOutcome::Failed;
                        }
                        let frames = self.take_read_ahead(memory, page.0, area.end);
                        proof {
                            lemma_other_memory(*old(self), old(memory), memory);
                            old(memory).lemma_wf();
                        }
                        if frames.len() == 0 {
                            FaultOutcome::Failed
                        } else {
                            FaultOutcome::FilePages(file.file, file_page * PAGE_SIZE, frames)
                        }
                    },
                }
            },
            None => {
                let stack = VirtAddr::from(sp).std_floor();
                assert(stack.0 as int == page_of(sp as int));
                match find_growing(&self.areas, page.0, stack.0) {
                    None => FaultOutcome::Failed,
                    Some(i) => {
                        proof {
                            lemma_growing(s, v, stack.0 as int, 0);
                            assert(user_area(s[i as int]));
                            assert(s[i as int].wf());
                        }
                        let area = self.areas[i];
                        let bottom: u64 = area.start;
                        let mut larger = area;
                        larger.start = page.0;
                        if let Some(file) = area.backing_file {
                            if file.page_offset > u64::MAX - 0x1_0000_0000 + page.0 {
                                return FaultOutcome::Failed;
                            }
                        }
                        self.areas[i] = larger;
                        if i > 0 && self.areas[i - 1].start == page.0 {
                            self.areas.remove(i - 1);
                        }
                        let ghost mid = *self;
                        proof {
                            lemma_grown(s, v, stack.0 as int, i as int);
                            assert(self.areas() =~= grown(s, i as int, v));
                            assert forall|q: u64| #[trigger] self.resident().contains_key(
                            q) implies self.frame_mapped(memory, q) by {
                                assert(old(self).frame_mapped(old(memory), q));
                            }
                            assert forall|q: int| is_page(q) implies #[trigger] self.mapping(
                                memory,
                                q,
                            ) == old(self).mapping(old(memory), q) by {}
                            assert forall|j: int| 0 <= j < self.areas().len() implies ((
                            #[trigger] self.areas()[j]).shared_group matches Some(g) ==> g
                                < GROUP_LIMIT) by {
                                let k = if i > 0 && s[i - 1].start == v && j >= i - 1 {
                                    j + 1
                                } else {
                                    j
                                };
                                assert(s[k].shared_group matches Some(g) ==> g < GROUP_LIMIT);
                            }
                        }
                        if area.map_type == MapType::File {
                            return FaultOutcome::GrownFile(bottom);
                        }
                        let (reached, frame) = self.fill_range(
                            memory,
                            shared,
                            page.0,
                            bottom,
                            larger,
                        );
                        proof {
                            assert(pages_filled(
                                self,
                                memory,
                                old(self),
                                old(memory),
                                v,
                                reached as int,
                                area,
                            )) by {
                                assert(mid.resident() == old(self).resident());
                                assert forall|q: u64| !(v <= q < reached) implies
                                    #[trigger] self.resident().contains_key(q) == old(self).resident().contains_key(q) && (old(self).resident().contains_key(
                                    q,
                                ) ==> self.resident()[q] == old(self).resident()[q]) by {
                                    assert(self.resident().contains_key(q)
                                        == mid.resident().contains_key(q));
                                }
                                assert forall|q: int| is_page(q) implies #[trigger] self.mapping(
                                    memory,
                                    q,
                                ) == if v <= q < reached {
                                    Some(
                                        (
                                            PageTableEntry {
                                                page: self.resident()[q as u64].ppn,
                                                flags: area.map_perm.pte_flags().installed(),
                                            },
                                            PageSize::Page4K,
                                        ),
                                    )
                                } else {
                                    old(self).mapping(old(memory), q)
                                } by {
                                    assert(mid.mapping(old(memory), q) == old(self).mapping(
                                        old(memory),
                                        q,
                                    ));
                                }
                            }
                        }
                        if reached == bottom {
                            FaultOutcome::Mapped
                        } else {
                            FaultOutcome::OutOfFrames(frame)
                        }
                    },
                }
            },
        }
    }
}

} // verus!
