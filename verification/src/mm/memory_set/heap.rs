//! The program break: how the heap of an address space grows and shrinks.

use vstd::prelude::*;

use crate::errno::Errno;
use crate::mm::address::{pages_to_cover, PageSize, VirtAddr, PAGE_SIZE, VA_LIMIT, VPN_LIMIT};
use crate::mm::area::{
    any_conflict, any_conflicts, areas_ok, conflicts, extend_area, extended, insert_area,
    lemma_extended, lemma_page_at, max_of, page_at, MapArea, MapType,
};
use crate::mm::frame_allocator::FrameTracker;
use crate::mm::page_table::{is_page, lemma_keeps_both};
use crate::mm::phys::{lemma_held_both, lemma_held_self, PhysMemory};
use crate::mm::pte::MapPermission;

use super::edit::{
    find_start, lemma_frames_same, lemma_starting_none, lemma_writebacks_one, starting,
};
use super::owned::group_frames;
use super::{
    frames_between, frames_in, groups_ok, handed_back, lemma_without_empty, list_writebacks, pages_filled, range_free, user_area,
    user_areas, writebacks_of, MemorySet, Released, SharedPages, GROUP_LIMIT,
};

verus! {

broadcast use {lemma_keeps_both, lemma_held_both, lemma_held_self};

/// The first area from index `i` on that ends at page `from` and starts in the heap.
pub open spec fn heap_top(s: Seq<MapArea>, from: int, heap: int, i: int) -> Option<int>
    decreases s.len() - i,
{
    if i >= s.len() {
        None
    } else if s[i].end == from && s[i].start >= heap {
        Some(i)
    } else {
        heap_top(s, from, heap, i + 1)
    }
}

/// The area that the heap gets where none ends at its top.
pub open spec fn heap_area(from: int, to: int) -> MapArea {
    MapArea {
        start: from as u64,
        end: to as u64,
        map_type: MapType::Framed,
        map_perm: MapPermission { r: true, w: true, x: false, u: true },
        is_shared: false,
        backing_file: None,
        shared_group: None,
        page_size: PageSize::Page4K,
    }
}

/// The area is cut when the heap shrinks from page `from` to page `to`.
pub open spec fn heap_cuts(area: MapArea, from: int, to: int, heap: int) -> bool {
    area.start < from && area.end > to && area.start >= heap
}

/// What is left of the areas when the heap shrinks.
pub open spec fn heap_left(s: Seq<MapArea>, from: int, to: int, heap: int) -> Seq<MapArea>
    decreases s.len(),
{
    if s.len() == 0 {
        Seq::empty()
    } else {
        let front = heap_left(s.drop_last(), from, to, heap);
        let last = s.last();
        if heap_cuts(last, from, to, heap) {
            if last.start < to {
                front.push(MapArea { end: to as u64, ..last })
            } else {
                front
            }
        } else {
            front.push(last)
        }
    }
}

/// Page `v` goes when the heap shrinks.
pub open spec fn heap_drops(s: Seq<MapArea>, from: int, to: int, heap: int, v: int) -> bool {
    v >= to && exists|i: int|
        0 <= i < s.len() && heap_cuts(#[trigger] s[i], from, to, heap) && s[i].holds(v)
}

/// Some area is cut when the heap shrinks.
pub open spec fn heap_found(s: Seq<MapArea>, from: int, to: int, heap: int) -> bool {
    exists|i: int| 0 <= i < s.len() && heap_cuts(#[trigger] s[i], from, to, heap)
}

/// The frames that go when the heap shrinks, in order.
pub open spec fn heap_frames(
    s: Seq<MapArea>,
    resident: Map<u64, FrameTracker>,
    from: int,
    to: int,
    heap: int,
) -> Seq<FrameTracker>
    decreases s.len(),
{
    if s.len() == 0 {
        Seq::empty()
    } else {
        let front = heap_frames(s.drop_last(), resident, from, to, heap);
        let last = s.last();
        if heap_cuts(last, from, to, heap) {
            front + frames_in(resident, max_of(to, last.start as int), last.end as int)
        } else {
            front
        }
    }
}

/// The file pages to write back when the heap shrinks, in order.
pub open spec fn heap_writebacks(s: Seq<MapArea>, from: int, to: int, heap: int) -> Seq<
    (u64, u64),
>
    decreases s.len(),
{
    if s.len() == 0 {
        Seq::empty()
    } else {
        let front = heap_writebacks(s.drop_last(), from, to, heap);
        let last = s.last();
        if heap_cuts(last, from, to, heap) {
            front + writebacks_of(last, max_of(to, last.start as int), last.end as int)
        } else {
            front
        }
    }
}

/// The resident pages that the heap leaves when it shrinks.
pub open spec fn heap_resident(
    s: Seq<MapArea>,
    resident: Map<u64, FrameTracker>,
    from: int,
    to: int,
    heap: int,
) -> Map<u64, FrameTracker> {
    resident.remove_keys(Set::new(|v: u64| heap_drops(s, from, to, heap, v as int)))
}

/// The page at which the heap ends, for a program break at `addr`.
pub open spec fn top_page(addr: int) -> int {
    pages_to_cover(addr % (VA_LIMIT as int))
}

/// The areas without the one that starts at a page.
pub open spec fn without_start(s: Seq<MapArea>, v: int) -> Seq<MapArea> {
    match starting(s, v, 0) {
        Some(k) => s.remove(k),
        None => s,
    }
}

proof fn lemma_heap_left(s: Seq<MapArea>, from: int, to: int, heap: int)
    requires
        user_areas(s),
        0 <= to < from <= VPN_LIMIT,
    ensures
        user_areas(heap_left(s, from, to, heap)),
        forall|v: int| #[trigger]
            page_at(heap_left(s, from, to, heap), v) == if heap_drops(s, from, to, heap, v) {
                None
            } else {
                page_at(s, v)
            },
        s.len() > 0 ==> forall|i: int|
            0 <= i < heap_left(s, from, to, heap).len() ==> (#[trigger] heap_left(
                s,
                from,
                to,
                heap,
            )[i]).end <= s.last().end && heap_left(s, from, to, heap)[i].start <= s.last().start,
    decreases s.len(),
{
    if s.len() == 0 {
        assert(heap_left(s, from, to, heap) =~= s);
    } else {
        let front = s.drop_last();
        let last = s.last();
        assert forall|i: int| 0 <= i < front.len() implies user_area(#[trigger] front[i]) by {
            assert(front[i] == s[i]);
        }
        assert(areas_ok(front));
        assert(user_area(s[s.len() - 1]));
        assert(s[s.len() - 1].wf());
        lemma_heap_left(front, from, to, heap);
        let c = heap_left(front, from, to, heap);
        let u = heap_left(s, from, to, heap);
        assert forall|i: int| 0 <= i < c.len() implies (#[trigger] c[i]).end <= last.start
            && c[i].start < last.start by {
            assert(c[i].end <= front.last().end);
            assert(front.last() == s[s.len() - 2]);
        }
        assert forall|v: int| #[trigger] page_at(u, v) == if heap_drops(s, from, to, heap, v) {
            None
        } else {
            page_at(s, v)
        } by {
            assert(page_at(c, v) == if heap_drops(front, from, to, heap, v) {
                None
            } else {
                page_at(front, v)
            });
            lemma_drops_front(s, from, to, heap, v);
            lemma_page_push(front, last, v);
            assert(s =~= front.push(last));
            if heap_cuts(last, from, to, heap) {
                if last.start < to {
                    lemma_page_push(c, MapArea { end: to as u64, ..last }, v);
                }
            } else {
                lemma_page_push(c, last, v);
            }
        }
    }
}

proof fn lemma_drops_front(s: Seq<MapArea>, from: int, to: int, heap: int, v: int)
    requires
        s.len() > 0,
    ensures
        heap_drops(s, from, to, heap, v) <==> heap_drops(s.drop_last(), from, to, heap, v) || (v
            >= to && heap_cuts(s.last(), from, to, heap) && s.last().holds(v)),
{
    let front = s.drop_last();
    if heap_drops(s, from, to, heap, v) {
        let i = choose|i: int|
            0 <= i < s.len() && heap_cuts(#[trigger] s[i], from, to, heap) && s[i].holds(v);
        if i < front.len() {
            assert(front[i] == s[i]);
        }
    }
    if heap_drops(front, from, to, heap, v) {
        let i = choose|i: int|
            0 <= i < front.len() && heap_cuts(#[trigger] front[i], from, to, heap)
                && front[i].holds(v);
        assert(s[i] == front[i]);
    }
    if heap_cuts(s.last(), from, to, heap) {
        assert(s[s.len() - 1] == s.last());
    }
}

/// The pages of a list with one more area.
proof fn lemma_page_push(s: Seq<MapArea>, area: MapArea, v: int)
    requires
        areas_ok(s.push(area)),
        areas_ok(s),
    ensures
        page_at(s.push(area), v) == if area.holds(v) {
            Some(area.attr(v))
        } else {
            page_at(s, v)
        },
{
    let u = s.push(area);
    if area.holds(v) {
        assert(u[s.len() as int] == area);
        lemma_page_at(u, s.len() as int, v);
    } else if exists|i: int| 0 <= i < s.len() && (#[trigger] s[i]).holds(v) {
        let i = choose|i: int| 0 <= i < s.len() && (#[trigger] s[i]).holds(v);
        assert(u[i] == s[i]);
        lemma_page_at(s, i, v);
        lemma_page_at(u, i, v);
    } else {
        assert forall|i: int| 0 <= i < u.len() implies !(#[trigger] u[i]).holds(v) by {
            if i < s.len() {
                assert(u[i] == s[i]);
            }
        }
    }
}

impl MemorySet {
    /// The heap starts at an address that exists and does not end before it starts.
    pub open spec fn heap_ok(&self) -> bool {
        self.heap_start() <= self.brk() && self.heap_start() < VA_LIMIT
    }

    /// Grows the heap from page `from` to page `to`; every new page gets a frame.
    ///
    /// The area that ends at `from` grows, else a new one is made. Without
    /// frames the heap has grown as far as they reached.
    #[verifier::spinoff_prover]
    #[verifier::rlimit(60)]
    fn grow_heap(
        &mut self,
        memory: &mut PhysMemory,
        shared: &mut SharedPages,
        from: u64,
        to: u64,
    ) -> (outcome: (Result<bool, Errno>, Option<FrameTracker>))
        requires
            old(self).wf(old(memory)),
            old(shared).wf(),
            groups_ok(old(self).areas()),
            old(self).heap_ok(),
            from < to <= VPN_LIMIT,
        ensures
            final(self).wf(final(memory)),
            final(shared).wf(),
            groups_ok(final(self).areas()),
            final(self).brk() == old(self).brk(),
            final(self).heap_start() == old(self).heap_start(),
            final(self).number() == old(self).number(),
            final(self).keeps_apart(final(memory), old(self), old(memory)),
            final(self).heap_ok(),
            outcome.0 is Ok ==> outcome.1 is None,
            old(self).heap_grown(
                old(memory),
                old(shared)@,
                final(self),
                final(memory),
                final(shared)@,
                from as int,
                to as int,
                outcome,
            ),
    {
        let ghost s = self.areas();
        if any_conflict(&self.areas, from, to) {
            return (Err(Errno::ENOMEM), None);
        }
        let heap: u64 = VirtAddr(self.start_brk).std_ceil().0;
        let mut i: usize = 0;
        while i < self.areas.len() && !(self.areas[i].end == from && self.areas[i].start >= heap)
            invariant
                i <= self.areas@.len(),
                heap_top(s, from as int, heap as int, 0) == heap_top(
                    s,
                    from as int,
                    heap as int,
                    i as int,
                ),
                self.areas@ == s,
            decreases self.areas@.len() - i,
        {
            i = i + 1;
        }
        if i < self.areas.len() {
            let area = self.areas[i];
            assert(user_area(s[i as int]));
            if area.map_type != MapType::Framed {
                let mut larger = area;
                larger.end = to;
                extend_area(&mut self.areas, i, larger);
                proof {
                    self.lemma_area_extended(*old(self), memory, i as int, to);
                }
                return (Ok(area.map_type == MapType::File), None);
            }
            let (reached, frame) = self.fill_range(memory, shared, from, to, area);
            let ghost filled = *self;
            let mut larger = area;
            larger.end = reached;
            extend_area(&mut self.areas, i, larger);
            proof {
                self.lemma_area_extended(filled, memory, i as int, reached);
                assert(pages_filled(
                    self,
                    memory,
                    old(self),
                    old(memory),
                    from as int,
                    reached as int,
                    area,
                )) by {
                    lemma_filled_again(
                        &filled,
                        self,
                        memory,
                        old(self),
                        old(memory),
                        from as int,
                        reached as int,
                        area,
                    );
                }
            }
            if reached == to {
                (Ok(false), None)
            } else {
                (Err(Errno::ENOMEM), frame)
            }
        } else {
            let mut area = MapArea::new(
                VirtAddr(from * PAGE_SIZE),
                VirtAddr(to * PAGE_SIZE),
                MapType::Framed,
                MapPermission { r: true, w: true, x: false, u: true },
                PageSize::Page4K,
            );
            assert(area == heap_area(from as int, to as int));
            let (reached, frame) = self.fill_range(memory, shared, from, to, area);
            let ghost filled = *self;
            area.end = reached;
            if reached > from {
                if let Some(k) = find_start(&self.areas, from) {
                    proof {
                        assert(s[k as int].wf());
                        assert(!conflicts(s[k as int], from as int, to as int));
                        lemma_without_empty(s, k as int);
                    }
                    self.areas.remove(k);
                } else {
                    proof {
                        lemma_starting_none(s, from as int, 0);
                    }
                }
                let ghost t = without_start(s, from as int);
                proof {
                    assert(self.areas@ =~= t);
                    assert forall|k: int| 0 <= k < t.len() implies s.contains(#[trigger] t[k]) && !conflicts(
                        t[k],
                        area.start as int,
                        area.end as int,
                    ) && t[k].start != area.start by {
                        let j = match starting(s, from as int, 0) {
                            Some(i) => if k < i {
                                k
                            } else {
                                k + 1
                            },
                            None => k,
                        };
                        assert(t[k] == s[j]);
                        assert(!conflicts(s[j], from as int, to as int));
                        assert(s[j].wf());
                        if let Some(i) = starting(s, from as int, 0) {
                            if j < i {
                                assert(s[j].start < s[i].start);
                            } else {
                                assert(s[i].start < s[j].start);
                            }
                        }
                    }
                }
                let k: usize = insert_area(&mut self.areas, area);
                proof {
                    let u = self.areas();
                    assert forall|j: int| 0 <= j < u.len() implies user_area(#[trigger] u[j])
                        && (u[j].shared_group matches Some(g) ==> g < GROUP_LIMIT) by {
                        if j != k {
                            let x = if j < k {
                                t[j]
                            } else {
                                t[j - 1]
                            };
                            assert(u[j] == x);
                            assert(s.contains(x));
                            let n = choose|n: int| 0 <= n < s.len() && s[n] == x;
                            assert(user_area(s[n]));
                        }
                    }
                    assert forall|v: u64| #[trigger] self.resident().contains_key(v) implies
                        self.frame_mapped(memory, v) by {
                        assert(filled.frame_mapped(memory, v));
                    }
                    assert(u == t.insert(k as int, heap_area(from as int, reached as int)));
                }
            }
            proof {
                assert(pages_filled(
                    self,
                    memory,
                    old(self),
                    old(memory),
                    from as int,
                    reached as int,
                    heap_area(from as int, to as int),
                )) by {
                    lemma_filled_again(
                        &filled,
                        self,
                        memory,
                        old(self),
                        old(memory),
                        from as int,
                        reached as int,
                        heap_area(from as int, to as int),
                    );
                }
            }
            if reached == to {
                (Ok(false), None)
            } else {
                (Err(Errno::ENOMEM), frame)
            }
        }
    }

    /// There are frames enough for the pages from `a` to `b` and their tables.
    pub open spec fn can_fill(&self, memory: &PhysMemory, a: int, b: int) -> bool {
        range_free(self, memory, a, b) && memory.frames().free.count() >= frames_between(a, b)
    }

    /// How the heap grew from page `from` to page `to`, or why not; whether its new pages are
    /// those of a file, which have no frames yet.
    pub open spec fn heap_grown(
        &self,
        memory: &PhysMemory,
        shared: Map<u64, FrameTracker>,
        after: &MemorySet,
        memory_after: &PhysMemory,
        shared_after: Map<u64, FrameTracker>,
        from: int,
        to: int,
        outcome: (Result<bool, Errno>, Option<FrameTracker>),
    ) -> bool {
        let s = self.areas();
        let (done, frame) = outcome;
        let unchanged = after.areas() == s && after.resident() == self.resident() && forall|q: int|
            is_page(q) ==> #[trigger] after.mapping(memory_after, q) == self.mapping(memory, q);
        if any_conflicts(s, from, to) {
            done == Err::<bool, Errno>(Errno::ENOMEM) && unchanged && shared_after == shared && frame
                is None
        } else {
            match heap_top(s, from, top_page(self.heap_start() as int), 0) {
                Some(i) => {
                    if s[i].map_type != MapType::Framed {
                        &&& done == Ok::<bool, Errno>(s[i].map_type == MapType::File)
                        &&& frame is None
                        &&& shared_after == shared
                        &&& after.areas() == extended(s, i, MapArea { end: to as u64, ..s[i] })
                        &&& after.resident() == self.resident()
                        &&& forall|q: int|
                            is_page(q) ==> #[trigger] after.mapping(memory_after, q)
                                == self.mapping(memory, q)
                    } else {
                        &&& s[i].shared_group is None && self.can_fill(memory, from, to)
                            ==> done is Ok
                        &&& s[i].shared_group is None ==> shared_after == shared
                        &&& handed_back(memory, memory_after, frame)
                        &&& exists|reached: int| #[trigger]
                            pages_filled(
                                after,
                                memory_after,
                                self,
                                memory,
                                from,
                                reached,
                                s[i],
                            ) && (s[i].shared_group matches Some(g) ==> group_frames(
                                after.resident(),
                                memory_after,
                                memory,
                                shared_after,
                                shared,
                                g,
                                from,
                                reached,
                            )) && from <= reached <= to && (done == Ok::<bool, Errno>(false) <==> reached
                                == to) && (reached < to ==> done == Err::<bool, Errno>(
                                Errno::ENOMEM,
                            ))
                                && after.areas() == extended(
                                s,
                                i,
                                MapArea { end: reached as u64, ..s[i] },
                            )
                    }
                },
                None => (self.can_fill(memory, from, to) ==> done is Ok) && shared_after == shared
                    && handed_back(memory, memory_after, frame) && exists|reached: int|
                 #[trigger]
                    pages_filled(
                        after,
                        memory_after,
                        self,
                        memory,
                        from,
                        reached,
                        heap_area(from, to),
                    ) && from <= reached <= to && (done == Ok::<bool, Errno>(false) <==> reached
                        == to) && (reached < to ==> done == Err::<bool, Errno>(Errno::ENOMEM)) && (
                    reached == from
                        ==> after.areas() == s) && (reached > from ==> exists|k: int|
                        0 <= k <= without_start(s, from).len() && after.areas()
                            == #[trigger] without_start(s, from).insert(
                            k,
                            heap_area(from, reached),
                        )),
            }
        }
    }

    /// An area that was extended over free pages keeps the address space in order.
    proof fn lemma_area_extended(
        &self,
        before: MemorySet,
        memory: &PhysMemory,
        i: int,
        to: u64,
    )
        requires
            before.wf(memory),
            groups_ok(before.areas()),
            0 <= i < before.areas().len(),
            before.areas()[i].end <= to <= VPN_LIMIT,
            !any_conflicts(before.areas(), before.areas()[i].end as int, to as int),
            self.areas() == extended(
                before.areas(),
                i,
                MapArea { end: to, ..before.areas()[i] },
            ),
            self.resident() == before.resident(),
            self.table() == before.table(),
        ensures
            self.wf(memory),
            groups_ok(self.areas()),
            forall|q: int| #[trigger]
                self.mapping(memory, q) == before.mapping(memory, q),
    {
        let s = before.areas();
        let u = self.areas();
        let larger = MapArea { end: to, ..s[i] };
        assert(s[i].wf() && user_area(s[i]));
        lemma_extended(s, i, larger);
        assert forall|j: int| 0 <= j < u.len() implies user_area(#[trigger] u[j]) && (
        u[j].shared_group matches Some(g) ==> g < GROUP_LIMIT) by {
            if u[j] != larger {
                let k = choose|k: int| 0 <= k < s.len() && s[k] == u[j];
                assert(user_area(s[k]));
            } else {
                assert(s[i].shared_group matches Some(g) ==> g < GROUP_LIMIT);
            }
        }
        assert forall|v: u64| #[trigger] self.resident().contains_key(v) implies self.frame_mapped(
            memory,
            v,
        ) by {
            assert(before.frame_mapped(memory, v));
        }
    }
}

/// What was filled stays so where frames and mappings are the same.
proof fn lemma_filled_again(
    filled: &MemorySet,
    after: &MemorySet,
    memory: &PhysMemory,
    before: &MemorySet,
    memory_before: &PhysMemory,
    a: int,
    b: int,
    area: MapArea,
)
    requires
        pages_filled(filled, memory, before, memory_before, a, b, area),
        after.resident() == filled.resident(),
        after.table() == filled.table(),
    ensures
        pages_filled(after, memory, before, memory_before, a, b, area),
{
    assert forall|q: int| is_page(q) implies #[trigger] after.mapping(memory, q) == filled.mapping(
        memory,
        q,
    ) by {}
    assert forall|v: u64| !(a <= v < b) implies #[trigger] after.resident().contains_key(v)
        == before.resident().contains_key(v) && (before.resident().contains_key(v)
        ==> after.resident()[v] == before.resident()[v]) by {
        assert(filled.resident().contains_key(v) == before.resident().contains_key(v));
    }
    assert forall|v: u64| a <= v < b implies #[trigger] after.resident().contains_key(v) by {
        assert(filled.resident().contains_key(v));
    }
}

impl MemorySet {
    /// How the heap shrank from page `from` to page `to`.
    pub open spec fn heap_shrunk(
        &self,
        memory: &PhysMemory,
        after: &MemorySet,
        memory_after: &PhysMemory,
        from: int,
        to: int,
        released: Released,
    ) -> bool {
        let s = self.areas();
        let heap = top_page(self.heap_start() as int);
        &&& after.areas() == heap_left(s, from, to, heap)
        &&& after.resident() == heap_resident(s, self.resident(), from, to, heap)
        &&& released.frames@ == heap_frames(s, self.resident(), from, to, heap)
        &&& released.writebacks@ == heap_writebacks(s, from, to, heap)
        &&& forall|v: int|
            is_page(v) ==> #[trigger] after.mapping(memory_after, v) == if heap_drops(
                s,
                from,
                to,
                heap,
                v,
            ) && self.resident().contains_key(v as u64) {
                None
            } else {
                self.mapping(memory, v)
            }
        &&& memory_after.frames() == memory.frames()
    }

    /// Shrinks the heap from page `from` to page `to`; says whether an area was cut.
    #[verifier::spinoff_prover]
    #[verifier::rlimit(60)]
    fn shrink_heap(&mut self, memory: &mut PhysMemory, from: u64, to: u64) -> (outcome: (
        bool,
        Released,
    ))
        requires
            old(self).wf(old(memory)),
            groups_ok(old(self).areas()),
            old(self).heap_ok(),
            to < from <= VPN_LIMIT,
        ensures
            final(self).wf(final(memory)),
            groups_ok(final(self).areas()),
            final(self).heap_ok(),
            final(self).brk() == old(self).brk(),
            final(self).heap_start() == old(self).heap_start(),
            final(self).number() == old(self).number(),
            final(self).keeps_apart(final(memory), old(self), old(memory)),
            outcome.0 == heap_found(
                old(self).areas(),
                from as int,
                to as int,
                top_page(old(self).heap_start() as int),
            ),
            old(self).heap_shrunk(
                old(memory),
                final(self),
                final(memory),
                from as int,
                to as int,
                outcome.1,
            ),
    {
        let ghost s = self.areas();
        let heap: u64 = VirtAddr(self.start_brk).std_ceil().0;
        let ghost h = heap as int;
        let ghost f = from as int;
        let ghost t = to as int;
        let ghost r = self.resident();
        let mut frames: Vec<FrameTracker> = Vec::new();
        let mut pages: Vec<(u64, u64)> = Vec::new();
        let mut left: Vec<MapArea> = Vec::new();
        let mut found = false;
        let mut i: usize = 0;
        proof {
            assert(s.take(0) =~= Seq::<MapArea>::empty());
            assert(self.resident() =~= heap_resident(s.take(0), r, f, t, h));
        }
        while i < self.areas.len()
            invariant
                i <= s.len(),
                self.areas() == s,
                self.wf(memory),
                heap == h,
                from == f,
                to == t,
                t < f <= VPN_LIMIT,
                s == old(self).areas(),
                r == old(self).resident(),
                self.brk() == old(self).brk(),
                self.heap_start() == old(self).heap_start(),
                self.number() == old(self).number(),
                self.keeps_apart(memory, old(self), old(memory)),
                memory.frames() == old(memory).frames(),
                left@ == heap_left(s.take(i as int), f, t, h),
                frames@ == heap_frames(s.take(i as int), r, f, t, h),
                pages@ == heap_writebacks(s.take(i as int), f, t, h),
                self.resident() == heap_resident(s.take(i as int), r, f, t, h),
                found == heap_found(s.take(i as int), f, t, h),
                forall|v: int|
                    is_page(v) ==> #[trigger] self.mapping(memory, v) == if heap_drops(
                        s.take(i as int),
                        f,
                        t,
                        h,
                        v,
                    ) && r.contains_key(v as u64) {
                        None
                    } else {
                        old(self).mapping(old(memory), v)
                    },
            decreases s.len() - i,
        {
            let ghost before = *self;
            let ghost memory_before = *memory;
            let ghost front = s.take(i as int);
            let ghost next = s.take(i + 1);
            let area = self.areas[i];
            proof {
                assert(next.drop_last() =~= front);
                assert(next.last() == area);
                assert(s[i as int].wf());
                assert(user_area(s[i as int]));
                assert(heap_found(next, f, t, h) == (heap_found(front, f, t, h) || heap_cuts(
                    area,
                    f,
                    t,
                    h,
                ))) by {
                    lemma_found_front(next, f, t, h);
                }
                assert forall|v: int| #[trigger] heap_drops(next, f, t, h, v) == (heap_drops(
                    front,
                    f,
                    t,
                    h,
                    v,
                ) || (v >= t && heap_cuts(area, f, t, h) && area.holds(v))) by {
                    lemma_drops_front(next, f, t, h, v);
                }
            }
            if area.start < from && area.end > to && area.start >= heap {
                found = true;
                let low: u64 = if to >= area.start {
                    to
                } else {
                    area.start
                };
                let mut one: Vec<MapArea> = Vec::new();
                one.push(area);
                assert(one@ =~= seq![area]);
                proof {
                    lemma_writebacks_one(area, low as int, area.end as int);
                    assert(areas_ok(one@));
                }
                let mut more = list_writebacks(&one, low, area.end);
                pages.append(&mut more);
                let mut gone = self.unmap_range(memory, low, area.end);
                proof {
                    assert forall|v: u64| low <= v < area.end implies #[trigger] before.resident().contains_key(
                    v) == r.contains_key(v) && (before.resident().contains_key(v)
                        ==> before.resident()[v] == r[v]) by {
                        if heap_drops(front, f, t, h, v as int) {
                            let k = choose|k: int|
                                0 <= k < front.len() && heap_cuts(#[trigger] front[k], f, t, h)
                                    && front[k].holds(v as int);
                            assert(s[k] == front[k]);
                            assert(s[k].end <= s[i as int].start);
                        }
                    }
                    lemma_frames_same(before.resident(), r, low as int, area.end as int);
                    assert(self.resident() =~= heap_resident(next, r, f, t, h));
                    assert forall|v: int| is_page(v) implies #[trigger] self.mapping(memory, v)
                        == if heap_drops(next, f, t, h, v) && r.contains_key(v as u64) {
                        None
                    } else {
                        old(self).mapping(old(memory), v)
                    } by {
                        assert(before.mapping(&memory_before, v) == if heap_drops(front, f, t, h, v)
                            && r.contains_key(v as u64) {
                            None
                        } else {
                            old(self).mapping(old(memory), v)
                        });
                    }
                }
                frames.append(&mut gone);
                if area.start < to {
                    let mut smaller = area;
                    smaller.end = to;
                    left.push(smaller);
                }
            } else {
                left.push(area);
            }
            i = i + 1;
        }
        assert(s.take(s.len() as int) =~= s);
        let ghost mid = *self;
        self.areas = left;
        proof {
            lemma_heap_left(s, f, t, h);
            lemma_left_kept(s, f, t, h);
            assert forall|v: u64| #[trigger] self.resident().contains_key(v) implies
                self.frame_mapped(memory, v) by {
                assert(mid.frame_mapped(memory, v));
            }
            assert forall|v: int| is_page(v) implies #[trigger] self.mapping(memory, v)
                == mid.mapping(memory, v) by {}
        }
        (found, Released { frames, writebacks: pages })
    }
}

proof fn lemma_found_front(s: Seq<MapArea>, from: int, to: int, heap: int)
    requires
        s.len() > 0,
    ensures
        heap_found(s, from, to, heap) <==> heap_found(s.drop_last(), from, to, heap) || heap_cuts(
            s.last(),
            from,
            to,
            heap,
        ),
{
    let front = s.drop_last();
    if heap_found(s, from, to, heap) {
        let i = choose|i: int| 0 <= i < s.len() && heap_cuts(#[trigger] s[i], from, to, heap);
        if i < front.len() {
            assert(front[i] == s[i]);
        }
    }
    if heap_found(front, from, to, heap) {
        let i = choose|i: int|
            0 <= i < front.len() && heap_cuts(#[trigger] front[i], from, to, heap);
        assert(s[i] == front[i]);
    }
    if heap_cuts(s.last(), from, to, heap) {
        assert(s[s.len() - 1] == s.last());
    }
}

proof fn lemma_left_kept(s: Seq<MapArea>, from: int, to: int, heap: int)
    requires
        groups_ok(s),
        areas_ok(s),
        0 <= to < from <= VPN_LIMIT,
    ensures
        groups_ok(heap_left(s, from, to, heap)),
    decreases s.len(),
{
    if s.len() > 0 {
        let front = s.drop_last();
        assert forall|i: int| 0 <= i < front.len() implies #[trigger] front[i] == s[i] by {}
        lemma_left_kept(front, from, to, heap);
        assert(s[s.len() - 1] == s.last());
        let c = heap_left(front, from, to, heap);
        let u = heap_left(s, from, to, heap);
        assert forall|i: int| 0 <= i < u.len() implies ((#[trigger] u[i]).shared_group matches Some(
            g,
        ) ==> g < GROUP_LIMIT) by {
            if i < c.len() {
                assert(u[i] == c[i]);
            }
        }
    }
}

impl MemorySet {
    /// Moves the program break; an `addr` of zero only asks for it.
    ///
    /// The heap gets or loses whole pages. What a shrinking heap releases is
    /// handed back, and so is a frame that could not be mapped. Where an area
    /// with a file is at the end of the heap, it grows, and the caller brings the
    /// new pages, from one to another. Of an address only the bits count that an
    /// address has.
    pub fn change_program_brk(
        &mut self,
        memory: &mut PhysMemory,
        shared: &mut SharedPages,
        addr: u64,
    ) -> (outcome: (Result<u64, Errno>, Released, Option<(u64, u64)>))
        requires
            old(self).wf(old(memory)),
            old(shared).wf(),
            groups_ok(old(self).areas()),
            old(self).heap_ok(),
            old(memory).frames().free.count() <= u64::MAX,
        ensures
            break_moved(old(self), old(memory), old(shared), final(self), final(memory), final(shared), addr, outcome),
    {
        let mut released = Released { frames: Vec::new(), writebacks: Vec::new() };
        let old_brk: u64 = self.brk;
        if addr == 0 {
            return (Ok(old_brk), released, None);
        }
        if addr < self.start_brk {
            return (Err(Errno::ENOMEM), released, None);
        }
        let from: u64 = VirtAddr(old_brk % VA_LIMIT).std_ceil().0;
        let to: u64 = VirtAddr(addr % VA_LIMIT).std_ceil().0;
        if from == to {
            self.brk = addr;
            proof {
                self.lemma_brk_moved(*old(self), memory);
            }
            return (Ok(addr), released, None);
        }
        if addr > old_brk {
            if to < from {
                return (Err(Errno::ENOMEM), released, None);
            }
            let pages: u64 = (to - from) / PAGE_SIZE;
            if memory.free_frames() < pages {
                return (Err(Errno::ENOMEM), released, None);
            }
            let (done, frame) = self.grow_heap(memory, shared, from, to);
            match done {
                Ok(files) => {
                    let ghost grown = *self;
                    self.brk = addr;
                    proof {
                        self.lemma_brk_moved(grown, memory);
                        lemma_grown_again(
                            *old(self),
                            *old(memory),
                            old(shared)@,
                            grown,
                            *self,
                            *memory,
                            shared@,
                            from as int,
                            to as int,
                            (done, frame),
                        );
                    }
                    let pages: Option<(u64, u64)> = if files {
                        Some((from, to))
                    } else {
                        None
                    };
                    (Ok(addr), released, pages)
                },
                Err(e) => {
                    if let Some(frame) = frame {
                        released.frames.push(frame);
                        assert(released.frames@ =~= seq![frame]);
                    }
                    (Err(e), released, None)
                },
            }
        } else {
            if to > from {
                return (Ok(addr), released, None);
            }
            let (found, gone) = self.shrink_heap(memory, from, to);
            if found {
                let ghost shrunk = *self;
                self.brk = addr;
                proof {
                    self.lemma_brk_moved(shrunk, memory);
                    assert forall|v: int| is_page(v) implies #[trigger] self.mapping(memory, v)
                        == shrunk.mapping(memory, v) by {}
                }
                (Ok(addr), gone, None)
            } else {
                (Err(Errno::ENOMEM), gone, None)
            }
        }
    }

    proof fn lemma_brk_moved(&self, before: MemorySet, memory: &PhysMemory)
        requires
            before.wf(memory),
            self.areas() == before.areas(),
            self.resident() == before.resident(),
            self.table() == before.table(),
        ensures
            self.wf(memory),
            forall|q: int| #[trigger] self.mapping(memory, q) == before.mapping(memory, q),
    {
        assert forall|v: u64| #[trigger] self.resident().contains_key(v) implies self.frame_mapped(
            memory,
            v,
        ) by {
            assert(before.frame_mapped(memory, v));
        }
    }
}

proof fn lemma_grown_again(
    before: MemorySet,
    memory_before: PhysMemory,
    shared_before: Map<u64, FrameTracker>,
    grown: MemorySet,
    after: MemorySet,
    memory: PhysMemory,
    shared: Map<u64, FrameTracker>,
    from: int,
    to: int,
    done: (Result<bool, Errno>, Option<FrameTracker>),
)
    requires
        before.heap_grown(&memory_before, shared_before, &grown, &memory, shared, from, to, done),
        after.areas() == grown.areas(),
        after.resident() == grown.resident(),
        after.table() == grown.table(),
    ensures
        before.heap_grown(&memory_before, shared_before, &after, &memory, shared, from, to, done),
{
    assert forall|q: int| is_page(q) implies #[trigger] after.mapping(&memory, q) == grown.mapping(
        &memory,
        q,
    ) by {}
    assert forall|reached: int, area: MapArea| #[trigger]
        pages_filled(&grown, &memory, &before, &memory_before, from, reached, area) implies
        pages_filled(&after, &memory, &before, &memory_before, from, reached, area) by {
        lemma_filled_again(
            &grown,
            &after,
            &memory,
            &before,
            &memory_before,
            from,
            reached,
            area,
        );
    }
}

/// How an address space is after the end of its heap was to move.
pub open spec fn break_moved(
    before: &MemorySet,
    memory: &PhysMemory,
    shared: &SharedPages,
    after: &MemorySet,
    memory_after: &PhysMemory,
    shared_after: &SharedPages,
    addr: u64,
    outcome: (Result<u64, Errno>, Released, Option<(u64, u64)>),
) -> bool {
    &&& after.wf(memory_after)
    &&& shared_after.wf()
    &&& groups_ok(after.areas())
    &&& after.heap_ok()
    &&& after.heap_start() == before.heap_start()
    &&& after.number() == before.number()
    &&& after.keeps_apart(memory_after, before, memory)
    &&& {
        let from = top_page(before.brk() as int);
        let to = top_page(addr as int);
        let refused = outcome.0 == Err::<u64, Errno>(Errno::ENOMEM) && after.brk() == before.brk();
        let moved = outcome.0 == Ok::<u64, Errno>(addr) && after.brk() == addr;
        let none = outcome.1.frames@.len() == 0 && outcome.1.writebacks@.len() == 0 && outcome.2
            is None;
        if addr == 0 {
            &&& outcome.0 == Ok::<u64, Errno>(before.brk())
            &&& *after == *before
            &&& *memory_after == *memory
            &&& none
        } else if addr < before.heap_start() || (addr > before.brk() && to < from) {
            &&& refused
            &&& *after == *before
            &&& *memory_after == *memory
            &&& none
        } else if from == to {
            &&& moved
            &&& after.areas() == before.areas()
            &&& after.resident() == before.resident()
            &&& after.table() == before.table()
            &&& *memory_after == *memory
            &&& none
        } else if addr < before.brk() && from < to {
            &&& outcome.0 == Ok::<u64, Errno>(addr)
            &&& *after == *before
            &&& *memory_after == *memory
            &&& none
        } else if from < to {
            if memory.frames().free.count() < (to - from) / 4096 {
                &&& refused
                &&& *after == *before
                &&& none
            } else {
                exists|done: (Result<bool, Errno>, Option<FrameTracker>)| #[trigger]
                    before.heap_grown(
                        memory,
                        shared@,
                        after,
                        memory_after,
                        shared_after@,
                        from,
                        to,
                        done,
                    ) && match done.0 {
                        Ok(files) => {
                            &&& moved
                            &&& outcome.1.frames@.len() == 0
                            &&& outcome.1.writebacks@.len() == 0
                            &&& outcome.2 == if files {
                                Some((from as u64, to as u64))
                            } else {
                                None
                            }
                        },
                        Err(_) => {
                            &&& refused
                            &&& outcome.2 is None
                            &&& outcome.1.writebacks@.len() == 0
                            &&& outcome.1.frames@ == match done.1 {
                                Some(frame) => seq![frame],
                                None => Seq::empty(),
                            }
                        },
                    }
            }
        } else {
            &&& outcome.2 is None
            &&& before.heap_shrunk(
                memory,
                after,
                memory_after,
                from,
                to,
                outcome.1,
            )
            &&& if heap_found(
                before.areas(),
                from,
                to,
                top_page(before.heap_start() as int),
            ) {
                moved
            } else {
                refused
            }
        }
    }
}

/// What leaves the end and the start of the heap alone leaves the heap in order, whatever it does
/// to areas and pages.
pub proof fn law_heap_stays_in_order(before: &MemorySet, after: &MemorySet)
    requires
        before.heap_ok(),
        after.brk() == before.brk(),
        after.heap_start() == before.heap_start(),
    ensures
        after.heap_ok(),
{
}

} // verus!
