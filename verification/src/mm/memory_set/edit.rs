//! Areas that come and go as a whole, and pages that are looked up or filled
//! from files.

use vstd::prelude::*;

use crate::mm::address::{PageSize, VirtAddr, VirtPageNum, PAGE_SIZE, VA_LIMIT, VPN_LIMIT};
use crate::mm::area::{
    areas_ok, conflicts, cut, find_area, insert_area, law_cut, lemma_page_at, page_at, Backing,
    MapArea, MapType,
};
use crate::mm::frame_allocator::{keeps_users, FrameTracker};
use crate::mm::page_table::{is_page, lemma_keeps_both};
use crate::mm::phys::{lemma_held_both, lemma_held_self, PhysMemory};
use crate::mm::pte::{MapPermission, PageTableEntry};

use super::{
    first_page, frames_between, frames_in, groups_ok, handed_back, holder, lemma_holder, list_writebacks,
    page_of, pages_filled, range_free, user_area, writebacks, writebacks_of, MemorySet, Released,
    SharedPages, GROUP_LIMIT,
};

verus! {

broadcast use {
    vstd::std_specs::btree::group_btree_axioms,
    vstd::laws_cmp::group_laws_cmp,
    lemma_keeps_both,
    lemma_held_both,
    lemma_held_self,
};

/// The area can be added: it is one of a user, and apart from those there are.
pub open spec fn fits(s: Seq<MapArea>, area: MapArea) -> bool {
    &&& area.wf()
    &&& user_area(area)
    &&& area.shared_group is None
    &&& forall|i: int|
        0 <= i < s.len() ==> !conflicts(#[trigger] s[i], area.start as int, area.end as int)
            && s[i].start != area.start
}

/// `after` is `s` with the area in its place.
pub open spec fn with_area(s: Seq<MapArea>, after: Seq<MapArea>, area: MapArea) -> bool {
    exists|k: int| 0 <= k <= s.len() && after == #[trigger] s.insert(k, area)
}

/// The area was added up to a page, and so far has its frames; that page is its end where all
/// went well.
pub open spec fn ends_early(
    before: &MemorySet,
    memory_before: &PhysMemory,
    after: &MemorySet,
    memory: &PhysMemory,
    area: MapArea,
    whole: bool,
) -> bool {
    exists|reached: u64|
        area.start <= reached <= area.end && (whole <==> reached == area.end)
            && #[trigger] with_area(
            before.areas(),
            after.areas(),
            MapArea { end: reached, ..area },
        ) && pages_filled(
            after,
            memory,
            before,
            memory_before,
            area.start as int,
            reached as int,
            area,
        )
}

/// Unmapping what was mapped leaves every page as it was before.
pub proof fn law_unmap_undoes_map(s: Seq<MapArea>, after: Seq<MapArea>, area: MapArea, v: int)
    requires
        areas_ok(s),
        areas_ok(after),
        fits(s, area),
        with_area(s, after, area),
    ensures
        page_at(cut(after, area.start as int, area.end as int), v) == page_at(s, v),
{
    law_cut(after, area.start as int, area.end as int);
    let k = choose|k: int| 0 <= k <= s.len() && after == #[trigger] s.insert(k, area);
    assert(page_at(cut(after, area.start as int, area.end as int), v) == if area.start <= v
        < area.end {
        None
    } else {
        page_at(after, v)
    });
    if exists|i: int| 0 <= i < s.len() && (#[trigger] s[i]).holds(v) {
        let i = choose|i: int| 0 <= i < s.len() && (#[trigger] s[i]).holds(v);
        let j = if i < k {
            i
        } else {
            i + 1
        };
        assert(!conflicts(s[i], area.start as int, area.end as int));
        assert(after[j] == s[i]);
        lemma_page_at(s, i, v);
        lemma_page_at(after, j, v);
    } else if !area.holds(v) {
        if exists|j: int| 0 <= j < after.len() && (#[trigger] after[j]).holds(v) {
            let j = choose|j: int| 0 <= j < after.len() && (#[trigger] after[j]).holds(v);
            let i = if j < k {
                j
            } else {
                j - 1
            };
            assert(j != k);
            assert(s[i] == after[j]);
        }
    }
}

/// The area that starts at page `v`.
pub open spec fn starting(s: Seq<MapArea>, v: int, i: int) -> Option<int>
    decreases s.len() - i,
{
    if i >= s.len() {
        None
    } else if s[i].start == v {
        Some(i)
    } else {
        starting(s, v, i + 1)
    }
}

/// Where no area starts at a page, none does.
pub proof fn lemma_starting_none(s: Seq<MapArea>, v: int, i: int)
    requires
        0 <= i <= s.len(),
        starting(s, v, i) is None,
    ensures
        forall|k: int| i <= k < s.len() ==> (#[trigger] s[k]).start != v,
    decreases s.len() - i,
{
    if i < s.len() {
        lemma_starting_none(s, v, i + 1);
    }
}

/// Finds the area that starts at page `v`.
pub fn find_start(areas: &Vec<MapArea>, v: u64) -> (found: Option<usize>)
    ensures
        match found {
            None => starting(areas@, v as int, 0) is None,
            Some(i) => starting(areas@, v as int, 0) == Some(i as int) && i < areas@.len()
                && areas@[i as int].start == v,
        },
{
    let mut i: usize = 0;
    while i < areas.len()
        invariant
            i <= areas@.len(),
            starting(areas@, v as int, 0) == starting(areas@, v as int, i as int),
        decreases areas@.len() - i,
    {
        if areas[i].start == v {
            return Some(i);
        }
        i = i + 1;
    }
    None
}

/// The frames of the pages of all areas, in order.
pub open spec fn area_frames(s: Seq<MapArea>, resident: Map<u64, FrameTracker>) -> Seq<
    FrameTracker,
>
    decreases s.len(),
{
    if s.len() == 0 {
        Seq::empty()
    } else {
        area_frames(s.drop_last(), resident) + frames_in(
            resident,
            s.last().start as int,
            s.last().end as int,
        )
    }
}

/// An area of the list holds the page.
pub open spec fn held(s: Seq<MapArea>, v: int) -> bool {
    exists|i: int| 0 <= i < s.len() && (#[trigger] s[i]).holds(v)
}

/// The resident pages that no area of the list holds.
pub open spec fn unheld(s: Seq<MapArea>, resident: Map<u64, FrameTracker>) -> Map<
    u64,
    FrameTracker,
> {
    resident.remove_keys(Set::new(|v: u64| held(s, v as int)))
}

proof fn lemma_held_front(s: Seq<MapArea>, v: int)
    requires
        s.len() > 0,
    ensures
        held(s, v) <==> held(s.drop_last(), v) || s.last().holds(v),
{
    let front = s.drop_last();
    if held(s, v) {
        let i = choose|i: int| 0 <= i < s.len() && (#[trigger] s[i]).holds(v);
        if i < front.len() {
            assert(front[i] == s[i]);
        }
    }
    if held(front, v) {
        let i = choose|i: int| 0 <= i < front.len() && (#[trigger] front[i]).holds(v);
        assert(s[i] == front[i]);
    }
    assert(s[s.len() - 1] == s.last());
}

/// Frames in a range do not change with pages outside it.
pub proof fn lemma_frames_same(
    r: Map<u64, FrameTracker>,
    q: Map<u64, FrameTracker>,
    a: int,
    b: int,
)
    requires
        0 <= a,
        b <= VPN_LIMIT,
        forall|v: u64|
            a <= v < b ==> #[trigger] r.contains_key(v) == q.contains_key(v) && (r.contains_key(v)
                ==> r[v] == q[v]),
    ensures
        frames_in(r, a, b) == frames_in(q, a, b),
    decreases b - a,
{
    if a < b {
        lemma_frames_same(r, q, a, b - 1);
        assert(r.contains_key((b - 1) as u64) == q.contains_key((b - 1) as u64));
    }
}

/// One area alone is written back as in the whole list.
pub proof fn lemma_writebacks_one(area: MapArea, a: int, b: int)
    ensures
        writebacks(seq![area], a, b) == writebacks_of(area, a, b),
{
    let s = seq![area];
    assert(s.drop_last() =~= Seq::<MapArea>::empty());
    assert(writebacks(s.drop_last(), a, b) =~= Seq::<(u64, u64)>::empty());
    assert(writebacks(s, a, b) =~= writebacks_of(area, a, b));
}

impl MemorySet {
    /// Adds an area whose pages get their frames on first use.
    pub fn insert_lazy_area(&mut self, memory: &PhysMemory, area: MapArea)
        requires
            old(self).wf(memory),
            groups_ok(old(self).areas()),
            fits(old(self).areas(), area),
        ensures
            final(self).wf(memory),
            groups_ok(final(self).areas()),
            with_area(old(self).areas(), final(self).areas(), area),
            final(self).resident() == old(self).resident(),
            final(self).table() == old(self).table(),
            final(self).brk() == old(self).brk(),
            final(self).heap_start() == old(self).heap_start(),
            final(self).number() == old(self).number(),
            forall|v: int| #[trigger]
                final(self).page(v) == if area.holds(v) {
                    Some(area.attr(v))
                } else {
                    old(self).page(v)
                },
    {
        let ghost s = self.areas();
        let k: usize = insert_area(&mut self.areas, area);
        proof {
            let u = self.areas();
            assert(u == s.insert(k as int, area));
            assert forall|j: int| 0 <= j < u.len() implies user_area(#[trigger] u[j]) && (
            u[j].shared_group matches Some(g) ==> g < GROUP_LIMIT) by {
                if j < k {
                    assert(u[j] == s[j]);
                } else if j > k {
                    assert(u[j] == s[j - 1]);
                }
            }
            assert forall|v: u64| #[trigger] self.resident().contains_key(v) implies
                self.frame_mapped(memory, v) by {
                assert(old(self).frame_mapped(memory, v));
            }
        }
    }

    /// Adds an area of a file; its pages are read on first use.
    pub fn insert_file_area(
        &mut self,
        memory: &PhysMemory,
        start_va: VirtAddr,
        end_va: VirtAddr,
        permission: MapPermission,
        file: Backing,
        is_shared: bool,
    )
        requires
            old(self).wf(memory),
            groups_ok(old(self).areas()),
            start_va.0 <= end_va.0 < VA_LIMIT,
            fits(
                old(self).areas(),
                file_area(start_va.0 as int, end_va.0 as int, permission, file, is_shared),
            ),
        ensures
            final(self).wf(memory),
            groups_ok(final(self).areas()),
            with_area(
                old(self).areas(),
                final(self).areas(),
                file_area(start_va.0 as int, end_va.0 as int, permission, file, is_shared),
            ),
            final(self).resident() == old(self).resident(),
            final(self).table() == old(self).table(),
            final(self).brk() == old(self).brk(),
            final(self).heap_start() == old(self).heap_start(),
            final(self).number() == old(self).number(),
    {
        let mut area = MapArea::new(
            start_va,
            end_va,
            MapType::File,
            permission,
            PageSize::Page4K,
        );
        area.backing_file = Some(file);
        area.is_shared = is_shared;
        self.insert_lazy_area(memory, area);
    }

    /// Adds pages that nobody may touch.
    pub fn push_guard_area(&mut self, memory: &PhysMemory, guard_start: u64, guard_pages: u64)
        requires
            old(self).wf(memory),
            groups_ok(old(self).areas()),
            guard_start + guard_pages * 4096 < VA_LIMIT,
            fits(old(self).areas(), guard_area(guard_start as int, guard_pages as int)),
        ensures
            final(self).wf(memory),
            groups_ok(final(self).areas()),
            with_area(
                old(self).areas(),
                final(self).areas(),
                guard_area(guard_start as int, guard_pages as int),
            ),
            final(self).resident() == old(self).resident(),
            final(self).table() == old(self).table(),
            final(self).brk() == old(self).brk(),
            final(self).heap_start() == old(self).heap_start(),
            final(self).number() == old(self).number(),
    {
        let area = MapArea::new(
            VirtAddr(guard_start),
            VirtAddr(guard_start + guard_pages * PAGE_SIZE),
            MapType::Guard,
            MapPermission { r: false, w: false, x: false, u: false },
            PageSize::Page4K,
        );
        self.insert_lazy_area(memory, area);
    }

    /// Tells whether an area can be added.
    pub fn has_room_for(&self, memory: &PhysMemory, area: MapArea) -> (yes: bool)
        requires
            self.wf(memory),
            area.wf(),
        ensures
            yes == fits(self.areas(), area),
    {
        if area.page_size != PageSize::Page4K || area.shared_group.is_some() {
            return false;
        }
        match area.map_type {
            MapType::Framed => {
                if area.backing_file.is_some() {
                    return false;
                }
            },
            MapType::File => {},
            MapType::Guard => {},
            _ => {
                return false;
            },
        }
        let mut i: usize = 0;
        while i < self.areas.len()
            invariant
                i <= self.areas@.len(),
                area.wf(),
                user_area(area),
                area.shared_group is None,
                forall|j: int|
                    0 <= j < i ==> !conflicts(
                        #[trigger] self.areas()[j],
                        area.start as int,
                        area.end as int,
                    ) && self.areas()[j].start != area.start,
            decreases self.areas@.len() - i,
        {
            let other = self.areas[i];
            assert(self.areas()[i as int] == other);
            if other.start == area.start || other.start < area.end && other.end > area.start {
                return false;
            }
            i = i + 1;
        }
        true
    }

    /// Adds a framed area and gives its pages their frames.
    ///
    /// Without frames the area ends where they did, and a frame that could not
    /// be mapped is handed back.
    pub fn push(&mut self, memory: &mut PhysMemory, shared: &mut SharedPages, map_area: MapArea)
        -> (done: Result<(), Option<FrameTracker>>)
        requires
            old(self).wf(old(memory)),
            old(shared).wf(),
            groups_ok(old(self).areas()),
            fits(old(self).areas(), map_area),
            map_area.map_type == MapType::Framed,
        ensures
            final(self).wf(final(memory)),
            final(shared).wf(),
            groups_ok(final(self).areas()),
            final(shared)@ == old(shared)@,
            final(self).brk() == old(self).brk(),
            final(self).heap_start() == old(self).heap_start(),
            final(self).number() == old(self).number(),
            final(self).keeps_apart(final(memory), old(self), old(memory)),
            done is Ok ==> with_area(old(self).areas(), final(self).areas(), map_area)
                && pages_filled(
                final(self),
                final(memory),
                old(self),
                old(memory),
                map_area.start as int,
                map_area.end as int,
                map_area,
            ) && forall|v: int| #[trigger]
                final(self).page(v) == if map_area.holds(v) {
                    Some(map_area.attr(v))
                } else {
                    old(self).page(v)
                },
            range_free(old(self), old(memory), map_area.start as int, map_area.end as int)
                && old(memory).frames().free.count() >= frames_between(
                map_area.start as int,
                map_area.end as int,
            )
                ==> done is Ok,
            done is Ok ==> final(memory).frames().free.count() >= old(memory).frames().free.count()
                - frames_between(map_area.start as int, map_area.end as int),
            ends_early(
                old(self),
                old(memory),
                final(self),
                final(memory),
                map_area,
                done is Ok,
            ),
            done is Err ==> handed_back(old(memory), final(memory), done->Err_0),
            keeps_users(old(memory).frames(), final(memory).frames()),
    {
        let (reached, frame) = self.fill_range(
            memory,
            shared,
            map_area.start,
            map_area.end,
            map_area,
        );
        let ghost filled = *self;
        let ghost s = self.areas();
        let mut area = map_area;
        area.end = reached;
        proof {
            assert(area == MapArea { end: reached, ..map_area });
            assert forall|i: int| 0 <= i < s.len() implies !conflicts(
                #[trigger] s[i],
                area.start as int,
                area.end as int,
            ) && s[i].start != area.start by {
                assert(!conflicts(s[i], map_area.start as int, map_area.end as int));
            }
        }
        self.insert_lazy_area(memory, area);
        proof {
            assert(self.mapping(memory, 0) == filled.mapping(memory, 0));
            assert forall|q: int| is_page(q) implies #[trigger] self.mapping(memory, q)
                == filled.mapping(memory, q) by {}
            assert forall|v: u64| !(map_area.start <= v < reached) implies
                #[trigger] self.resident().contains_key(v) == old(self).resident().contains_key(v)
                && (old(self).resident().contains_key(v) ==> self.resident()[v] == old(self).resident()[v]) by {
                assert(filled.resident().contains_key(v) == old(self).resident().contains_key(v));
            }
            assert forall|v: u64| map_area.start <= v < reached implies
                #[trigger] self.resident().contains_key(v) by {
                assert(filled.resident().contains_key(v));
            }
        }
        if reached == map_area.end {
            Ok(())
        } else {
            Err(frame)
        }
    }

    /// Adds a framed area with pages of its own.
    pub fn insert_framed_area(
        &mut self,
        memory: &mut PhysMemory,
        shared: &mut SharedPages,
        start_va: VirtAddr,
        end_va: VirtAddr,
        permission: MapPermission,
    ) -> (done: Result<(), Option<FrameTracker>>)
        requires
            old(self).wf(old(memory)),
            old(shared).wf(),
            groups_ok(old(self).areas()),
            start_va.0 <= end_va.0 < VA_LIMIT,
            fits(
                old(self).areas(),
                framed_area(start_va.0 as int, end_va.0 as int, permission),
            ),
        ensures
            final(self).wf(final(memory)),
            final(shared).wf(),
            groups_ok(final(self).areas()),
            final(shared)@ == old(shared)@,
            final(self).brk() == old(self).brk(),
            final(self).heap_start() == old(self).heap_start(),
            final(self).number() == old(self).number(),
            final(self).keeps_apart(final(memory), old(self), old(memory)),
            ({
                let area = framed_area(start_va.0 as int, end_va.0 as int, permission);
                &&& range_free(old(self), old(memory), area.start as int, area.end as int)
                    && old(memory).frames().free.count() >= frames_between(
                    area.start as int,
                    area.end as int,
                )
                    ==> done is Ok
                &&& done is Ok ==> with_area(old(self).areas(), final(self).areas(), area)
                    && pages_filled(
                    final(self),
                    final(memory),
                    old(self),
                    old(memory),
                    area.start as int,
                    area.end as int,
                    area,
                )
                &&& done is Err ==> handed_back(old(memory), final(memory), done->Err_0)
                &&& keeps_users(old(memory).frames(), final(memory).frames())
                &&& ends_early(
                    old(self),
                    old(memory),
                    final(self),
                    final(memory),
                    area,
                    done is Ok,
                )
            }),
    {
        let area = MapArea::new(
            start_va,
            end_va,
            MapType::Framed,
            permission,
            PageSize::Page4K,
        );
        self.push(memory, shared, area)
    }

    /// Removes the area that starts at a page; returns what it held.
    pub fn remove_area_with_start_vpn(&mut self, memory: &mut PhysMemory, start_vpn: VirtPageNum)
        -> (released: Released)
        requires
            old(self).wf(old(memory)),
            groups_ok(old(self).areas()),
        ensures
            final(self).wf(final(memory)),
            groups_ok(final(self).areas()),
            final(self).brk() == old(self).brk(),
            final(self).heap_start() == old(self).heap_start(),
            final(self).number() == old(self).number(),
            final(self).keeps_apart(final(memory), old(self), old(memory)),
            final(memory).frames() == old(memory).frames(),
            match starting(old(self).areas(), start_vpn.0 as int, 0) {
                None => *final(self) == *old(self) && released.frames@.len() == 0
                    && released.writebacks@.len() == 0,
                Some(i) => {
                    let s = old(self).areas();
                    let a = s[i].start as int;
                    let b = s[i].end as int;
                    &&& final(self).areas() == s.remove(i)
                    &&& released.frames@ == frames_in(old(self).resident(), a, b)
                    &&& released.writebacks@ == writebacks_of(s[i], a, b)
                    &&& final(self).resident() == super::without_range(old(self).resident(), a, b)
                    &&& forall|v: int|
                        is_page(v) ==> #[trigger] final(self).mapping(final(memory), v) == if a
                            <= v < b && old(self).resident().contains_key(v as u64) {
                            None
                        } else {
                            old(self).mapping(old(memory), v)
                        }
                },
            },
    {
        let ghost s = self.areas();
        match find_start(&self.areas, start_vpn.0) {
            None => Released { frames: Vec::new(), writebacks: Vec::new() },
            Some(i) => {
                let area = self.areas[i];
                assert(s[i as int].wf());
                let mut one: Vec<MapArea> = Vec::new();
                one.push(area);
                proof {
                    assert(one@ =~= seq![area]);
                    lemma_writebacks_one(area, area.start as int, area.end as int);
                }
                let pages = list_writebacks(&one, area.start, area.end);
                let frames = self.unmap_range(memory, area.start, area.end);
                let ghost mid = *self;
                self.areas.remove(i);
                proof {
                    let u = self.areas();
                    assert(u == s.remove(i as int));
                    assert forall|j: int| 0 <= j < u.len() implies user_area(#[trigger] u[j])
                        && u[j].wf() && (u[j].shared_group matches Some(g) ==> g < GROUP_LIMIT) by {
                        if j < i {
                            assert(u[j] == s[j]);
                        } else {
                            assert(u[j] == s[j + 1]);
                        }
                    }
                    assert forall|j: int, k: int| 0 <= j < k < u.len() implies (#[trigger] u[j]).start
                        < (#[trigger] u[k]).start && u[j].end <= u[k].start by {
                        let j2 = if j < i {
                            j
                        } else {
                            j + 1
                        };
                        let k2 = if k < i {
                            k
                        } else {
                            k + 1
                        };
                        assert(s[j2].start < s[k2].start && s[j2].end <= s[k2].start);
                    }
                    assert forall|v: u64| #[trigger] self.resident().contains_key(v) implies
                        self.frame_mapped(memory, v) by {
                        assert(mid.frame_mapped(memory, v));
                    }
                    assert forall|v: int| is_page(v) implies #[trigger] self.mapping(memory, v)
                        == mid.mapping(memory, v) by {}
                }
                Released { frames, writebacks: pages }
            },
        }
    }

    /// Removes all areas; returns what they held.
    pub fn recycle_data_pages(&mut self, memory: &mut PhysMemory) -> (released: Released)
        requires
            old(self).wf(old(memory)),
        ensures
            final(self).wf(final(memory)),
            final(self).areas() == Seq::<MapArea>::empty(),
            final(self).resident() == unheld(old(self).areas(), old(self).resident()),
            released.frames@ == area_frames(old(self).areas(), old(self).resident()),
            released.writebacks@ == writebacks(old(self).areas(), 0, VPN_LIMIT as int),
            final(self).brk() == old(self).brk(),
            final(self).heap_start() == old(self).heap_start(),
            final(self).number() == old(self).number(),
            final(self).keeps_apart(final(memory), old(self), old(memory)),
            final(memory).frames() == old(memory).frames(),
            forall|v: int|
                is_page(v) ==> #[trigger] final(self).mapping(final(memory), v) == if held(
                    old(self).areas(),
                    v,
                ) && old(self).resident().contains_key(v as u64) {
                    None
                } else {
                    old(self).mapping(old(memory), v)
                },
    {
        let ghost s = self.areas();
        let ghost r = self.resident();
        let pages = list_writebacks(&self.areas, 0, VPN_LIMIT);
        let mut frames: Vec<FrameTracker> = Vec::new();
        let mut i: usize = 0;
        proof {
            assert(s.take(0) =~= Seq::<MapArea>::empty());
            assert(self.resident() =~= unheld(s.take(0), r));
        }
        while i < self.areas.len()
            invariant
                i <= s.len(),
                self.areas() == s,
                self.wf(memory),
                s == old(self).areas(),
                r == old(self).resident(),
                self.brk() == old(self).brk(),
                self.heap_start() == old(self).heap_start(),
                self.number() == old(self).number(),
                self.keeps_apart(memory, old(self), old(memory)),
                memory.frames() == old(memory).frames(),
                frames@ == area_frames(s.take(i as int), r),
                self.resident() == unheld(s.take(i as int), r),
                forall|v: int|
                    is_page(v) ==> #[trigger] self.mapping(memory, v) == if held(
                        s.take(i as int),
                        v,
                    ) && r.contains_key(v as u64) {
                        None
                    } else {
                        old(self).mapping(old(memory), v)
                    },
            decreases s.len() - i,
        {
            let ghost before = *self;
            let ghost memory_before = *memory;
            let ghost front = s.take(i as int);
            let ghost next = s.take(i + 1);
            let area = self.areas[i];
            proof {
                assert(next.drop_last() =~= front);
                assert(next.last() == area);
                assert(s[i as int].wf());
                assert forall|v: int| #[trigger] held(next, v) == (held(front, v) || area.holds(
                    v,
                )) by {
                    lemma_held_front(next, v);
                }
                assert forall|v: u64| area.start <= v < area.end implies
                    #[trigger] before.resident().contains_key(v) == r.contains_key(v) && (
                before.resident().contains_key(v) ==> before.resident()[v] == r[v]) by {
                    if held(front, v as int) {
                        let k = choose|k: int|
                            0 <= k < front.len() && (#[trigger] front[k]).holds(v as int);
                        assert(s[k] == front[k]);
                        assert(s[k].end <= s[i as int].start);
                    }
                }
                lemma_frames_same(before.resident(), r, area.start as int, area.end as int);
            }
            let mut gone = self.unmap_range(memory, area.start, area.end);
            frames.append(&mut gone);
            proof {
                assert(self.resident() =~= unheld(next, r));
                assert forall|v: int| is_page(v) implies #[trigger] self.mapping(memory, v) == if held(
                    next,
                    v,
                ) && r.contains_key(v as u64) {
                    None
                } else {
                    old(self).mapping(old(memory), v)
                } by {
                    assert(before.mapping(&memory_before, v) == if held(front, v)
                        && r.contains_key(v as u64) {
                        None
                    } else {
                        old(self).mapping(old(memory), v)
                    });
                }
            }
            i = i + 1;
        }
        assert(s.take(s.len() as int) =~= s);
        let ghost mid = *self;
        self.areas = Vec::new();
        proof {
            assert(self.areas() =~= Seq::<MapArea>::empty());
            assert forall|v: u64| #[trigger] self.resident().contains_key(v) implies
                self.frame_mapped(memory, v) by {
                assert(mid.frame_mapped(memory, v));
            }
            assert forall|v: int| is_page(v) implies #[trigger] self.mapping(memory, v)
                == mid.mapping(memory, v) by {}
        }
        Released { frames, writebacks: pages }
    }

    /// Lists the pages of shared files to write back.
    pub fn sync_shared_pages(&self, memory: &PhysMemory) -> (pages: Vec<(u64, u64)>)
        requires
            self.wf(memory),
        ensures
            pages@ == writebacks(self.areas(), 0, VPN_LIMIT as int),
    {
        list_writebacks(&self.areas, 0, VPN_LIMIT)
    }

    /// Returns the entry that maps a page of an area.
    pub fn translate(&self, memory: &PhysMemory, vpn: VirtPageNum) -> (entry: Option<
        PageTableEntry,
    >)
        requires
            self.wf(memory),
            vpn.0 < VPN_LIMIT,
        ensures
            entry == match self.mapping(memory, vpn.0 as int) {
                Some((e, size)) => if self.page(vpn.0 as int) is Some {
                    Some(e)
                } else {
                    None
                },
                None => None,
            },
    {
        match find_area(&self.areas, vpn) {
            None => None,
            Some(_) => self.page_table.translate(memory, vpn),
        }
    }

    /// Tells whether a page is mapped for the user with all that is needed.
    pub fn pte_satisfies(
        &self,
        memory: &PhysMemory,
        vpn: VirtPageNum,
        need_read: bool,
        need_write: bool,
        need_exec: bool,
    ) -> (yes: bool)
        requires
            self.wf(memory),
            vpn.0 < VPN_LIMIT,
        ensures
            yes <==> (self.mapping(memory, vpn.0 as int) matches Some((e, size)) && e.flags.v
                && e.flags.u && (need_read ==> e.flags.r) && (need_write ==> e.flags.w) && (
            need_exec ==> e.flags.x)),
    {
        match self.page_table.translate(memory, vpn) {
            None => false,
            Some(entry) => {
                let flags = entry.flags;
                flags.v && flags.u && (!need_read || flags.r) && (!need_write || flags.w) && (
                !need_exec || flags.x)
            },
        }
    }

    /// Tells whether a fault comes from an access behind the end of a shared file.
    pub fn check_mmap_page_fault(&self, memory: &PhysMemory, bad_addr: u64) -> (yes: bool)
        requires
            self.wf(memory),
        ensures
            ({
                let v = page_of(bad_addr as int);
                yes <==> !(self.mapping(memory, v) matches Some((e, size)) && e.flags.v) && (holder(
                    self.areas(),
                    v,
                ) matches Some(i) && self.areas()[i].map_type == MapType::File
                    && self.areas()[i].is_shared && self.areas()[i].backing_file is Some)
            }),
    {
        let page = VirtAddr::from(bad_addr).std_floor();
        assert(page.0 as int == page_of(bad_addr as int));
        if let Some(entry) = self.page_table.translate(memory, page) {
            if entry.is_valid() {
                return false;
            }
        }
        match find_area(&self.areas, page) {
            None => false,
            Some(i) => {
                proof {
                    lemma_holder(self.areas(), i as int, page.0 as int);
                }
                let area = self.areas[i];
                area.map_type == MapType::File && area.is_shared && area.backing_file.is_some()
            },
        }
    }
}

/// The area of a file.
pub open spec fn file_area(
    start: int,
    end: int,
    perm: MapPermission,
    file: Backing,
    is_shared: bool,
) -> MapArea {
    MapArea {
        map_type: MapType::File,
        is_shared,
        backing_file: Some(file),
        ..framed_area(start, end, perm)
    }
}

/// An area of frames of its own.
pub open spec fn framed_area(start: int, end: int, perm: MapPermission) -> MapArea {
    MapArea {
        start: first_page(start) as u64,
        end: crate::mm::address::pages_to_cover(end) as u64,
        map_type: MapType::Framed,
        map_perm: perm,
        is_shared: false,
        backing_file: None,
        shared_group: None,
        page_size: PageSize::Page4K,
    }
}

/// An area that nobody may touch.
pub open spec fn guard_area(start: int, pages: int) -> MapArea {
    MapArea {
        map_type: MapType::Guard,
        ..framed_area(
            start,
            start + pages * 4096,
            MapPermission { r: false, w: false, x: false, u: false },
        )
    }
}

} // verus!
