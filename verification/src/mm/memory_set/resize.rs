//! Areas whose end moves, and the pieces in which bytes go into their pages.

use vstd::prelude::*;

use crate::mm::address::{pages_to_cover, VirtAddr, PAGE_SIZE, VA_LIMIT, VPN_LIMIT};
use crate::mm::area::{MapArea, MapType};
use crate::mm::frame_allocator::FrameTracker;
use crate::mm::page_table::{is_page, lemma_keeps_both};
use crate::mm::phys::{lemma_held_both, lemma_held_self, PhysMemory};

use super::edit::{find_start, starting};
use super::owned::group_frames;
use super::{
    first_page, frames_between, frames_in, groups_ok, handed_back, pages_filled, range_free, user_area,
    without_range, MemorySet, SharedPages, GROUP_LIMIT,
};

verus! {

broadcast use {
    vstd::std_specs::btree::group_btree_axioms,
    vstd::laws_cmp::group_laws_cmp,
    lemma_keeps_both,
    lemma_held_both,
    lemma_held_self,
};

/// The areas with another end for one of them.
pub open spec fn with_end(s: Seq<MapArea>, i: int, end: int) -> Seq<MapArea> {
    s.update(i, MapArea { end: end as u64, ..s[i] })
}

/// No area behind the one at `i` starts before page `end`.
pub open spec fn room_behind(s: Seq<MapArea>, i: int, end: int) -> bool {
    forall|k: int| i < k < s.len() ==> end <= (#[trigger] s[k]).start
}

impl MemorySet {
    /// An area with another end is still in its place.
    proof fn lemma_end_moved(
        &self,
        before: MemorySet,
        memory: &PhysMemory,
        i: int,
        end: int,
    )
        requires
            before.wf(memory),
            groups_ok(before.areas()),
            0 <= i < before.areas().len(),
            before.areas()[i].start <= end <= VPN_LIMIT,
            room_behind(before.areas(), i, end),
            self.areas() == with_end(before.areas(), i, end),
            self.resident() == before.resident(),
            self.table() == before.table(),
        ensures
            self.wf(memory),
            groups_ok(self.areas()),
            forall|v: int| #[trigger] self.mapping(memory, v) == before.mapping(memory, v),
    {
        let s = before.areas();
        let u = self.areas();
        assert forall|j: int| 0 <= j < u.len() implies user_area(#[trigger] u[j]) && u[j].wf() && (
        u[j].shared_group matches Some(g) ==> g < GROUP_LIMIT) by {
            assert(user_area(s[j]) && s[j].wf());
        }
        assert forall|j: int, k: int| 0 <= j < k < u.len() implies (#[trigger] u[j]).start
            < (#[trigger] u[k]).start && u[j].end <= u[k].start by {
            assert(s[j].start < s[k].start && s[j].end <= s[k].start);
        }
        assert forall|v: u64| #[trigger] self.resident().contains_key(v) implies self.frame_mapped(
            memory,
            v,
        ) by {
            assert(before.frame_mapped(memory, v));
        }
    }

    /// Takes the pages from `new_end` on out of the area that starts at `start`.
    ///
    /// Returns their frames; `None` where no area starts there.
    pub fn shrink_to(&mut self, memory: &mut PhysMemory, start: VirtAddr, new_end: VirtAddr) -> (
    frames: Option<Vec<FrameTracker>>)
        requires
            old(self).wf(old(memory)),
            groups_ok(old(self).areas()),
            start.0 < VA_LIMIT,
            new_end.0 < VA_LIMIT,
            starting(old(self).areas(), first_page(start.0 as int), 0) matches Some(i)
                ==> old(self).areas()[i].start <= pages_to_cover(new_end.0 as int)
                <= old(self).areas()[i].end,
        ensures
            shrunk_to(old(self), old(memory), final(self), final(memory), start, new_end, frames),
    {
        let ghost s = self.areas();
        let end: u64 = new_end.std_ceil().0;
        match find_start(&self.areas, start.std_floor().0) {
            None => None,
            Some(i) => {
                let mut area = self.areas[i];
                assert(s[i as int].wf());
                let frames = self.unmap_range(memory, end, area.end);
                let ghost mid = *self;
                area.end = end;
                self.areas[i] = area;
                proof {
                    assert forall|k: int| i < k < s.len() implies end <= (#[trigger] s[k]).start by {
                        assert(s[i as int].end <= s[k].start);
                    }
                    self.lemma_end_moved(mid, memory, i as int, end as int);
                    assert forall|v: int| is_page(v) implies #[trigger] self.mapping(memory, v)
                        == mid.mapping(memory, v) by {}
                }
                Some(frames)
            },
        }
    }

    /// Gives the framed area that starts at `start` the pages up to `new_end`, with frames.
    ///
    /// `None` where no area starts there. Without frames the area ends where
    /// they did, and a frame that could not be mapped is handed back.
    pub fn append_to(
        &mut self,
        memory: &mut PhysMemory,
        shared: &mut SharedPages,
        start: VirtAddr,
        new_end: VirtAddr,
    ) -> (done: Option<Result<(), Option<FrameTracker>>>)
        requires
            old(self).wf(old(memory)),
            old(shared).wf(),
            groups_ok(old(self).areas()),
            start.0 < VA_LIMIT,
            new_end.0 < VA_LIMIT,
            starting(old(self).areas(), first_page(start.0 as int), 0) matches Some(i) ==> {
                &&& old(self).areas()[i].map_type == MapType::Framed
                &&& old(self).areas()[i].end <= pages_to_cover(new_end.0 as int)
                &&& room_behind(old(self).areas(), i, pages_to_cover(new_end.0 as int))
            },
        ensures
            appended_to(old(self), old(memory), old(shared), final(self), final(memory), final(shared), start, new_end, done),
    {
        let ghost s = self.areas();
        let end: u64 = new_end.std_ceil().0;
        match find_start(&self.areas, start.std_floor().0) {
            None => None,
            Some(i) => {
                let mut area = self.areas[i];
                assert(s[i as int].wf());
                let (reached, frame) = self.fill_range(memory, shared, area.end, end, area);
                let ghost filled = *self;
                let ghost from = area.end;
                area.end = reached;
                self.areas[i] = area;
                proof {
                    self.lemma_end_moved(filled, memory, i as int, reached as int);
                    assert(self.areas() == with_end(s, i as int, reached as int));
                    assert forall|q: int| is_page(q) implies #[trigger] self.mapping(memory, q)
                        == filled.mapping(memory, q) by {}
                    assert forall|v: u64| !(from <= v < reached) implies
                        #[trigger] self.resident().contains_key(v)
                        == old(self).resident().contains_key(v) && (
                    old(self).resident().contains_key(v) ==> self.resident()[v]
                        == old(self).resident()[v]) by {
                        assert(filled.resident().contains_key(v)
                            == old(self).resident().contains_key(v));
                    }
                    assert forall|v: u64| from <= v < reached implies
                        #[trigger] self.resident().contains_key(v) by {
                        assert(filled.resident().contains_key(v));
                    }
                }
                if reached == end {
                    Some(Ok(()))
                } else {
                    Some(Err(frame))
                }
            },
        }
    }
}

/// A piece of bytes that goes into one page.
#[derive(Clone, Copy, Debug, PartialEq, Eq, Structural)]
pub struct Piece {
    /// The page.
    pub page: u64,
    /// The place in the page.
    pub offset: u64,
    /// The first byte of the piece.
    pub from: u64,
    /// The length of the piece.
    pub len: u64,
}

/// Of `len` bytes at address `start`, the piece that goes into the `k`-th page from `first` on.
pub open spec fn piece(first: int, start: int, len: int, k: int) -> Piece {
    let skew = start % 4096;
    let lo = if k == 0 {
        skew
    } else {
        4096 * k
    };
    let hi = if 4096 * (k + 1) < skew + len {
        4096 * (k + 1)
    } else {
        skew + len
    };
    Piece {
        page: (first + k) as u64,
        offset: (lo - 4096 * k) as u64,
        from: (lo - skew) as u64,
        len: (hi - lo) as u64,
    }
}

/// The pieces of `len` bytes at address `start`, for the pages from `first` on.
pub open spec fn pieces(first: int, start: int, len: int) -> Seq<Piece> {
    Seq::new(
        if len <= 0 {
            0
        } else {
            pages_to_cover(start % 4096 + len) as nat
        },
        |k: int| piece(first, start, len, k),
    )
}

impl MapArea {
    /// Lists the pieces in which `len` bytes for address `start_va` go into the area's pages.
    pub fn copy_data(&self, start_va: u64, len: u64) -> (plan: Vec<Piece>)
        requires
            self.wf(),
            self.map_type == MapType::Framed,
            len <= VA_LIMIT,
        ensures
            plan@ == pieces(self.start as int, start_va as int, len as int),
    {
        let mut plan: Vec<Piece> = Vec::new();
        let skew: u64 = start_va % PAGE_SIZE;
        let mut from: u64 = 0;
        let mut page: u64 = 0;
        let mut offset: u64 = skew;
        while from < len
            invariant
                self.wf(),
                len <= VA_LIMIT,
                skew == start_va % 4096,
                from <= len,
                plan@.len() == page,
                from == len ==> page == pieces(self.start as int, start_va as int, len as int).len(),
                from < len ==> skew + from == 4096 * page + offset && offset < 4096,
                from < len ==> offset == if page == 0 {
                    skew as int
                } else {
                    0
                },
                forall|k: int|
                    0 <= k < page ==> #[trigger] plan@[k] == piece(self.start as int, start_va as int, len as int, k),
            decreases len - from,
        {
            let rest: u64 = len - from;
            let room: u64 = PAGE_SIZE - offset;
            let part: u64 = if rest < room {
                rest
            } else {
                room
            };
            plan.push(Piece { page: self.start + page, offset, from, len: part });
            proof {
                assert(plan@[page as int] == piece(self.start as int, start_va as int, len as int, page as int));
            }
            from = from + part;
            offset = 0;
            page = page + 1;
        }
        assert(plan@ =~= pieces(self.start as int, start_va as int, len as int));
        plan
    }
}

/// How an address space is after an area was to end earlier.
pub open spec fn shrunk_to(
    before: &MemorySet,
    memory: &PhysMemory,
    after: &MemorySet,
    memory_after: &PhysMemory,
    start: VirtAddr,
    new_end: VirtAddr,
    frames: Option<Vec<FrameTracker>>,
) -> bool {
    &&& after.wf(memory_after)
    &&& groups_ok(after.areas())
    &&& after.brk() == before.brk()
    &&& after.heap_start() == before.heap_start()
    &&& after.number() == before.number()
    &&& after.keeps_apart(memory_after, before, memory)
    &&& memory_after.frames() == memory.frames()
    &&& match starting(before.areas(), first_page(start.0 as int), 0) {
        None => frames is None && *after == *before && *memory_after == *memory,
        Some(i) => {
            let s = before.areas();
            let a = pages_to_cover(new_end.0 as int);
            let b = s[i].end as int;
            &&& frames is Some
            &&& frames->Some_0@ == frames_in(before.resident(), a, b)
            &&& after.areas() == with_end(s, i, a)
            &&& after.resident() == without_range(before.resident(), a, b)
            &&& forall|v: int|
                is_page(v) ==> #[trigger] after.mapping(memory_after, v) == if a
                    <= v < b && before.resident().contains_key(v as u64) {
                    None
                } else {
                    before.mapping(memory, v)
                }
        },
    }
}

/// How an address space is after an area was to end later.
pub open spec fn appended_to(
    before: &MemorySet,
    memory: &PhysMemory,
    shared: &SharedPages,
    after: &MemorySet,
    memory_after: &PhysMemory,
    shared_after: &SharedPages,
    start: VirtAddr,
    new_end: VirtAddr,
    done: Option<Result<(), Option<FrameTracker>>>,
) -> bool {
    &&& after.wf(memory_after)
    &&& shared_after.wf()
    &&& groups_ok(after.areas())
    &&& after.brk() == before.brk()
    &&& after.heap_start() == before.heap_start()
    &&& after.number() == before.number()
    &&& after.keeps_apart(memory_after, before, memory)
    &&& match starting(before.areas(), first_page(start.0 as int), 0) {
        None => done is None && *after == *before && *memory_after == *memory,
        Some(i) => {
            let area = before.areas()[i];
            let a = area.end as int;
            let b = pages_to_cover(new_end.0 as int);
            &&& done is Some
            &&& area.shared_group is None && range_free(before, memory, a, b)
                && memory.frames().free.count() >= frames_between(a, b) ==> done->Some_0 is Ok
            &&& exists|reached: int|
                a <= reached <= b && (done->Some_0 is Ok <==> reached == b)
                    && after.areas() == #[trigger] with_end(
                    before.areas(),
                    i,
                    reached,
                ) && pages_filled(
                    after,
                    memory_after,
                    before,
                    memory,
                    a,
                    reached,
                    area,
                ) && (area.shared_group matches Some(g) ==> group_frames(
                    after.resident(),
                    memory_after,
                    memory,
                    shared_after@,
                    shared@,
                    g,
                    a,
                    reached,
                ))
            &&& area.shared_group is None ==> shared_after@ == shared@
            &&& done->Some_0 is Err ==> handed_back(
                memory,
                memory_after,
                done->Some_0->Err_0,
            )
        },
    }
}

/// Every byte goes to its place, once: the pieces follow each other without a gap.
pub proof fn law_pieces_follow(first: int, start: int, len: int, k: int)
    requires
        0 <= first <= VPN_LIMIT,
        0 <= start,
        0 < len <= VA_LIMIT,
        0 <= k < pieces(first, start, len).len(),
    ensures
        ({
            let p = pieces(first, start, len)[k];
            &&& p.len > 0
            &&& p.offset + p.len <= 4096
            &&& start % 4096 + p.from == 4096 * (p.page - first) + p.offset
            &&& k == 0 ==> p.from == 0
            &&& k + 1 < pieces(first, start, len).len() ==> pieces(first, start, len)[k + 1].from == p.from
                + p.len
            &&& k + 1 == pieces(first, start, len).len() ==> p.from + p.len == len
        }),
{
}

} // verus!
