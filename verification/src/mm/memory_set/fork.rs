//! Two address spaces that share their pages until one of them writes.
//!
//! A fork gives the child the frames of its parent. A page that the user may
//! write, and that is not meant to be shared, loses the right to be written in
//! both; the first write then gets a copy of the page.

use vstd::prelude::*;

use crate::mm::address::{table_index, PageSize, PhysPageNum, VirtAddr, VirtPageNum, VPN_LIMIT};
use crate::mm::area::{areas_ok, find_area, MapArea, MapType};
use crate::mm::frame_allocator::{keeps_users, law_take_some, lemma_users_both, FrameTracker};
use crate::mm::page_table::{
    apart, disjoint, is_page, keeps_others, law_others_translate_alike, lemma_keeps_both,
    lemma_table_added, lemma_unmapped_is_free, reaches, same_block, MapError, Mapping, PageTable,
};
use crate::mm::phys::{
    fresh, keeps_held, lemma_fresh_stays, lemma_held_both, lemma_held_self, PhysMemory,
};
use crate::mm::pte::{MapPermission, PTEFlags, PageTableEntry};

use super::{
    holder, lemma_holder, lemma_other_memory, page_of, reflagged, user_area, MemorySet,
};

verus! {

broadcast use {
    vstd::std_specs::btree::group_btree_axioms,
    vstd::laws_cmp::group_laws_cmp,
    lemma_keeps_both,
    lemma_users_both,
};

/// What became of a write to a page that may not be written.
#[derive(Clone, Copy)]
pub enum CowOutcome {
    /// The page is not one that is copied on a write.
    NotCow,
    /// There is no frame for the copy.
    OutOfFrames,
    /// The page has a frame of its own: `to`, which is to get what is in `from`.
    ///
    /// The frame that the page had goes once no processor can reach it.
    Copied { from: PhysPageNum, to: PhysPageNum, released: Option<FrameTracker> },
}

/// The permission of a page after a fork: what is not shared cannot be written.
pub open spec fn fork_perm(area: MapArea) -> MapPermission {
    MapPermission { w: area.map_perm.w && area.is_shared, ..area.map_perm }
}

/// A write to the page, mapped as `mapping`, gets a copy of it.
pub open spec fn copies(s: Seq<MapArea>, mapping: Mapping, v: int) -> bool {
    &&& holder(s, v) matches Some(i) && s[i].map_type != MapType::Guard && !s[i].is_shared
        && s[i].map_perm.w
    &&& mapping matches Some((entry, size)) && size == PageSize::Page4K && entry.flags.v
        && !entry.flags.w
}

/// The child of a fork gets page `v`.
pub open spec fn inherited(set: &MemorySet, v: int) -> bool {
    &&& 0 <= v < VPN_LIMIT
    &&& set.resident().contains_key(v as u64)
    &&& holder(set.areas(), v) matches Some(i) && set.areas()[i].map_type != MapType::Guard
}

/// The area of a page of the address space.
pub open spec fn area_of(set: &MemorySet, v: int) -> MapArea {
    set.areas()[holder(set.areas(), v)->Some_0]
}

/// The number of pages that use the frame.
pub open spec fn uses(resident: Map<u64, FrameTracker>, p: u64) -> nat {
    resident.dom().filter(|v: u64| resident[v].ppn.0 == p).len()
}

/// The entry of the page from which signal handlers return.
pub open spec fn trampoline_entry(ppn: PhysPageNum) -> PageTableEntry {
    PageTableEntry {
        page: ppn,
        flags: PTEFlags { r: true, x: true, u: true, ..PTEFlags::none() }.installed(),
    }
}

/// One more page uses its frame once more.
proof fn lemma_uses_insert(r: Map<u64, FrameTracker>, v: u64, frame: FrameTracker, p: u64)
    requires
        r.dom().finite(),
        !r.contains_key(v),
    ensures
        uses(r.insert(v, frame), p) == uses(r, p) + if frame.ppn.0 == p {
            1nat
        } else {
            0nat
        },
{
    let n = r.insert(v, frame);
    let a = r.dom().filter(|q: u64| r[q].ppn.0 == p);
    let b = n.dom().filter(|q: u64| n[q].ppn.0 == p);
    vstd::set_lib::lemma_len_subset(a, r.dom());
    if frame.ppn.0 == p {
        assert(b =~= a.insert(v));
    } else {
        assert(b =~= a);
    }
}

impl MemorySet {
    /// What a write to page `v`, which may not be written, leads to.
    pub open spec fn cow_handled(
        &self,
        memory: &PhysMemory,
        after: &MemorySet,
        memory_after: &PhysMemory,
        v: int,
        outcome: CowOutcome,
    ) -> bool {
        let s = self.areas();
        let mapping = self.mapping(memory, v);
        let taken = memory.frames().free.take(PageSize::Page4K);
        if !copies(s, mapping, v) {
            &&& outcome is NotCow
            &&& *after == *self
            &&& *memory_after == *memory
        } else if taken is None {
            &&& outcome is OutOfFrames
            &&& *after == *self
            &&& memory_after.frames() == memory.frames()
            &&& memory_after.tables() == memory.tables()
        } else {
            let to = PhysPageNum(taken->Some_0.0 as u64);
            &&& outcome == (CowOutcome::Copied {
                from: mapping->Some_0.0.page,
                to,
                released: if self.resident().contains_key(v as u64) {
                    Some(self.resident()[v as u64])
                } else {
                    None
                },
            })
            &&& after.resident() == self.resident().insert(
                v as u64,
                FrameTracker { ppn: to, page_size: PageSize::Page4K },
            )
            &&& fresh(memory, memory_after, to.0, 1)
            &&& memory_after.frames().free == taken->Some_0.1
            &&& memory_after.frames().users == memory.frames().users.insert(to.0, 1)
            &&& forall|q: int|
                is_page(q) ==> #[trigger] after.mapping(memory_after, q) == if q
                    == v {
                    Some(
                        (
                            PageTableEntry {
                                page: to,
                                flags: area_of(
                                    self,
                                    v,
                                ).map_perm.pte_flags().installed(),
                            },
                            PageSize::Page4K,
                        ),
                    )
                } else {
                    self.mapping(memory, q)
                }
        }
    }

    /// Answers a write to a page that may not be written.
    pub fn handle_cow_fault(&mut self, memory: &mut PhysMemory, bad_addr: u64) -> (outcome:
        CowOutcome)
        requires
            old(self).wf(old(memory)),
        ensures
            final(self).wf(final(memory)),
            final(self).areas() == old(self).areas(),
            final(self).brk() == old(self).brk(),
            final(self).heap_start() == old(self).heap_start(),
            final(self).number() == old(self).number(),
            final(self).keeps_apart(final(memory), old(self), old(memory)),
            old(self).cow_handled(
                old(memory),
                final(self),
                final(memory),
                page_of(bad_addr as int),
                outcome,
            ),
    {
        broadcast use {lemma_held_both, lemma_held_self};
        let page = VirtAddr::from(bad_addr).std_floor();
        let ghost s = self.areas();
        let ghost v = page.0 as int;
        assert(v == page_of(bad_addr as int));
        let i: usize = match find_area(&self.areas, page) {
            None => {
                return CowOutcome::NotCow;
            },
            Some(i) => i,
        };
        proof {
            lemma_holder(s, i as int, v);
        }
        let area = self.areas[i];
        if area.map_type == MapType::Guard || area.is_shared || !area.map_perm.w {
            return CowOutcome::NotCow;
        }
        match self.page_table.find_pte(memory, page) {
            None => CowOutcome::NotCow,
            Some((entry, size)) => {
                if size != PageSize::Page4K || !entry.is_valid() || entry.writable() {
                    return CowOutcome::NotCow;
                }
                let from = entry.ppn();
                match memory.take_frame(PageSize::Page4K) {
                    None => CowOutcome::OutOfFrames,
                    Some(frame) => {
                        proof {
                            lemma_other_memory(*old(self), old(memory), memory);
                        }
                        let ghost mid = *memory;
                        self.page_table.set_entry(memory, page, frame.ppn, area.map_perm.flags());
                        let released = self.resident.insert(page.0, frame);
                        proof {
                            lemma_fresh_stays(old(memory), &mid, memory, frame.ppn.0, 1);
                            assert(self.resident() =~= old(self).resident().insert(page.0, frame));
                            assert forall|q: int| is_page(q) implies #[trigger] self.mapping(
                                memory,
                                q,
                            ) == if q == v {
                                Some(
                                    (
                                        PageTableEntry {
                                            page: frame.ppn,
                                            flags: area.map_perm.pte_flags().installed(),
                                        },
                                        PageSize::Page4K,
                                    ),
                                )
                            } else {
                                old(self).mapping(old(memory), q)
                            } by {
                                assert(same_block(q, v, 2) == (q == v));
                                assert(self.page_table.at(memory, q) == self.mapping(memory, q));
                                assert(old(self).mapping(&mid, q) == old(self).mapping(
                                    old(memory),
                                    q,
                                ));
                            }
                            assert forall|q: u64| #[trigger] self.resident().contains_key(
                            q) implies self.frame_mapped(memory, q) by {
                                if q != page.0 {
                                    assert(old(self).frame_mapped(old(memory), q));
                                }
                            }
                        }
                        CowOutcome::Copied { from, to: frame.ppn, released }
                    },
                }
            },
        }
    }
}

/// The state of a fork whose pages below `bound` are done.
#[verifier::opaque]
pub open spec fn forked(
    before: &MemorySet,
    memory_before: &PhysMemory,
    parent: &MemorySet,
    child: &MemorySet,
    memory: &PhysMemory,
    bound: int,
    trampoline: (u64, PhysPageNum),
) -> bool {
    &&& parent.wf(memory)
    &&& child.wf(memory)
    &&& parent.areas() == before.areas()
    &&& parent.resident() == before.resident()
    &&& parent.brk() == before.brk()
    &&& parent.heap_start() == before.heap_start()
    &&& parent.number() == before.number()
    &&& parent.keeps_apart(memory, before, memory_before)
    &&& forall|q: u64| #[trigger]
        child.resident().contains_key(q) <==> inherited(before, q as int) && q < bound
    &&& forall|q: u64| #[trigger]
        child.resident().contains_key(q) ==> child.resident()[q] == before.resident()[q]
    &&& forall|q: int|
        is_page(q) ==> #[trigger] child.mapping(memory, q) == child_mapping(
            before,
            q,
            bound,
            trampoline,
        )
    &&& forall|q: int|
        is_page(q) ==> #[trigger] parent.mapping(memory, q) == parent_mapping(
            before,
            memory_before,
            q,
            bound,
        )
    &&& disjoint(memory.tables(), parent.table().root(), child.table().root())
    &&& forall|p: u64| #[trigger]
        reaches(memory.tables(), child.table().root(), p)
            ==> !memory_before.tables().contains_key(p)
    &&& shared_once(memory_before, memory, child.resident())
}

/// What a fork maps a page of the child to.
pub open spec fn child_mapping(
    before: &MemorySet,
    q: int,
    bound: int,
    trampoline: (u64, PhysPageNum),
) -> Mapping {
    if inherited(before, q) && q < bound {
        Some(
            (
                PageTableEntry {
                    page: before.resident()[q as u64].ppn,
                    flags: fork_perm(area_of(before, q)).pte_flags().installed(),
                },
                PageSize::Page4K,
            ),
        )
    } else if q == trampoline.0 {
        Some((trampoline_entry(trampoline.1), PageSize::Page4K))
    } else {
        None
    }
}

/// What a fork leaves a page of the parent mapped to.
pub open spec fn parent_mapping(
    before: &MemorySet,
    memory_before: &PhysMemory,
    q: int,
    bound: int,
) -> Mapping {
    if inherited(before, q) && q < bound && area_of(before, q).map_perm.w && !area_of(
        before,
        q,
    ).is_shared {
        reflagged(before.mapping(memory_before, q), fork_perm(area_of(before, q)))
    } else {
        before.mapping(memory_before, q)
    }
}

/// Each frame that was in use has one more user for each page of the child that uses it.
pub open spec fn shared_once(
    memory_before: &PhysMemory,
    memory: &PhysMemory,
    resident: Map<u64, FrameTracker>,
) -> bool {
    forall|p: u64|
        #![trigger memory.frames().count(p)]
        #![trigger memory.frames().free.times_free(p as int)]
        memory_before.frames().free.times_free(p as int) == 0 ==> memory.frames().count(p)
            == memory_before.frames().count(p) + uses(resident, p)
            && memory.frames().free.times_free(p as int) == 0
}

/// A change of one address space leaves another one, whose tables are apart, as it was.
///
/// Every page of the other is mapped as before, and the two stay apart.
pub proof fn law_address_spaces_apart(
    set: &MemorySet,
    memory: &PhysMemory,
    before: &MemorySet,
    memory_before: &PhysMemory,
    other: &MemorySet,
)
    requires
        other.wf(memory_before),
        memory.wf(),
        set.keeps_apart(memory, before, memory_before),
        disjoint(memory_before.tables(), before.table().root(), other.table().root()),
    ensures
        other.wf(memory),
        forall|q: int|
            is_page(q) ==> #[trigger] other.mapping(memory, q) == other.mapping(memory_before, q),
        disjoint(memory.tables(), set.table().root(), other.table().root()),
        forall|p: u64| #[trigger]
            reaches(memory.tables(), other.table().root(), p) ==> reaches(
                memory_before.tables(),
                other.table().root(),
                p,
            ),
{
    law_others_translate_alike(
        memory_before.tables(),
        memory.tables(),
        set.table().root(),
        other.table().root(),
    );
    assert forall|q: int| is_page(q) implies #[trigger] other.mapping(memory, q) == other.mapping(
        memory_before,
        q,
    ) by {}
    assert forall|v: u64| #[trigger] other.resident().contains_key(v) implies other.frame_mapped(
        memory,
        v,
    ) by {
        assert(other.frame_mapped(memory_before, v));
        assert(other.mapping(memory, v as int) == other.mapping(memory_before, v as int));
    }
}

proof fn lemma_disjoint_turned(t: crate::mm::phys::Tables, a: u64, b: u64)
    requires
        disjoint(t, a, b),
    ensures
        disjoint(t, b, a),
{
    assert forall|p: u64| #[trigger] reaches(t, b, p) implies !reaches(t, a, p) by {
        if reaches(t, a, p) {
            assert(!reaches(t, b, p));
        }
    }
}

/// What a change of the child's tables leaves of the parent and of the tables before the fork.
proof fn lemma_child_changed(
    memory_before: &PhysMemory,
    parent: &MemorySet,
    child_before: &MemorySet,
    first: &PhysMemory,
    child: &MemorySet,
    memory: &PhysMemory,
)
    requires
        parent.wf(first),
        memory.wf(),
        child.keeps_apart(memory, child_before, first),
        disjoint(first.tables(), parent.table().root(), child_before.table().root()),
        keeps_others(memory_before.tables(), first.tables(), parent.table().root()),
        forall|p: u64| #[trigger]
            reaches(first.tables(), child_before.table().root(), p)
                ==> !memory_before.tables().contains_key(p),
    ensures
        parent.wf(memory),
        forall|q: int|
            is_page(q) ==> #[trigger] parent.mapping(memory, q) == parent.mapping(first, q),
        disjoint(memory.tables(), parent.table().root(), child.table().root()),
        keeps_others(memory_before.tables(), memory.tables(), parent.table().root()),
        forall|p: u64| #[trigger]
            reaches(memory.tables(), child.table().root(), p)
                ==> !memory_before.tables().contains_key(p),
{
    let t = memory_before.tables();
    let m = first.tables();
    let n = memory.tables();
    let a = parent.table().root();
    let b = child.table().root();
    lemma_disjoint_turned(m, a, b);
    law_address_spaces_apart(child, memory, child_before, first, parent);
    lemma_disjoint_turned(n, b, a);
    assert forall|p: u64| #[trigger] reaches(n, b, p) implies !t.contains_key(p) by {
        if t.contains_key(p) {
            assert(m.contains_key(p));
            assert(!reaches(m, b, p));
        }
    }
    assert forall|p: u64| t.contains_key(p) implies #[trigger] n.contains_key(p) && (!reaches(
        t,
        a,
        p,
    ) ==> n[p] == t[p]) by {
        assert(m.contains_key(p));
        assert(!reaches(m, b, p));
        assert(n.contains_key(p));
    }
    assert forall|p: u64| #[trigger] reaches(n, a, p) implies reaches(t, a, p) || !t.contains_key(
        p,
    ) by {
        assert(reaches(m, a, p));
    }
}

/// Frames that are only taken do not change who shares those in use.
proof fn lemma_users_step(
    memory_before: &PhysMemory,
    first: &PhysMemory,
    memory: &PhysMemory,
    resident: Map<u64, FrameTracker>,
)
    requires
        shared_once(memory_before, first, resident),
        keeps_users(first.frames(), memory.frames()),
    ensures
        shared_once(memory_before, memory, resident),
{
    assert forall|p: u64| memory_before.frames().free.times_free(p as int) == 0 implies
        memory.frames().count(p) == memory_before.frames().count(p) + uses(resident, p)
        && #[trigger] memory.frames().free.times_free(p as int) == 0 by {
        assert(first.frames().count(p) == memory_before.frames().count(p) + uses(resident, p));
        assert(memory.frames().count(p) == first.frames().count(p));
    }
}

/// One more page of a fork is done.
proof fn lemma_page_forked(
    before: &MemorySet,
    memory_before: &PhysMemory,
    parent_before: &MemorySet,
    child_before: &MemorySet,
    first: &PhysMemory,
    parent: &MemorySet,
    child: &MemorySet,
    memory: &PhysMemory,
    v: u64,
    trampoline: (u64, PhysPageNum),
)
    requires
        forked(
            before,
            memory_before,
            parent_before,
            child_before,
            first,
            v as int,
            trampoline,
        ),
        inherited(before, v as int),
        parent.wf(memory),
        child.wf(memory),
        parent.areas() == before.areas(),
        parent.resident() == before.resident(),
        parent.brk() == before.brk(),
        parent.heap_start() == before.heap_start(),
        parent.number() == before.number(),
        parent.keeps_apart(memory, before, memory_before),
        child.resident() == child_before.resident().insert(v, before.resident()[v]),
        forall|q: int|
            is_page(q) ==> #[trigger] parent.mapping(memory, q) == if area_of(
                before,
                v as int,
            ).map_perm.w && !area_of(before, v as int).is_shared && q == v {
                reflagged(parent_before.mapping(first, q), fork_perm(area_of(before, v as int)))
            } else {
                parent_before.mapping(first, q)
            },
        forall|q: int|
            is_page(q) ==> #[trigger] child.mapping(memory, q) == if q == v {
                child_mapping(before, q, v + 1, trampoline)
            } else {
                child_before.mapping(first, q)
            },
        disjoint(memory.tables(), parent.table().root(), child.table().root()),
        forall|p: u64| #[trigger]
            reaches(memory.tables(), child.table().root(), p)
                ==> !memory_before.tables().contains_key(p),
        shared_once(memory_before, memory, child.resident()),
    ensures
        forked(before, memory_before, parent, child, memory, v + 1, trampoline),
{
    reveal(forked);
    assert forall|q: int| is_page(q) implies #[trigger] parent.mapping(memory, q) == parent_mapping(
        before,
        memory_before,
        q,
        v + 1,
    ) by {
        assert(parent_before.mapping(first, q) == parent_mapping(
            before,
            memory_before,
            q,
            v as int,
        ));
    }
    assert forall|q: int| is_page(q) implies #[trigger] child.mapping(memory, q) == child_mapping(
        before,
        q,
        v + 1,
        trampoline,
    ) by {
        assert(child_before.mapping(first, q) == child_mapping(before, q, v as int, trampoline));
    }
    assert forall|q: u64| #[trigger] child.resident().contains_key(q) <==> inherited(
        before,
        q as int,
    ) && q < v + 1 by {
        assert(child_before.resident().contains_key(q) <==> inherited(before, q as int) && q < v);
    }
    assert forall|q: u64| #[trigger] child.resident().contains_key(q) implies child.resident()[q]
        == before.resident()[q] by {
        if q != v {
            assert(child_before.resident().contains_key(q));
        }
    }
}

impl MemorySet {
    /// Maps page `v` to a frame that another address space uses too; nothing changes where that fails.
    fn adopt_page(
        &mut self,
        memory: &mut PhysMemory,
        v: u64,
        frame: FrameTracker,
        perm: MapPermission,
    ) -> (done: bool)
        requires
            old(self).wf(old(memory)),
            v < VPN_LIMIT,
            frame.page_size == PageSize::Page4K,
            old(memory).frames().count(frame.ppn.0) < u64::MAX,
        ensures
            final(self).wf(final(memory)),
            final(self).areas() == old(self).areas(),
            final(self).brk() == old(self).brk(),
            final(self).heap_start() == old(self).heap_start(),
            final(self).number() == old(self).number(),
            final(self).keeps_apart(final(memory), old(self), old(memory)),
            !done ==> final(self).resident() == old(self).resident() && keeps_users(
                old(memory).frames(),
                final(memory).frames(),
            ) && forall|q: int|
                is_page(q) ==> #[trigger] final(self).mapping(final(memory), q) == old(self).mapping(old(memory), q),
            done ==> final(self).resident() == old(self).resident().insert(v, frame)
                && forall|q: int|
                is_page(q) ==> #[trigger] final(self).mapping(final(memory), q) == if q == v {
                    Some(
                        (
                            PageTableEntry {
                                page: frame.ppn,
                                flags: perm.pte_flags().installed(),
                            },
                            PageSize::Page4K,
                        ),
                    )
                } else {
                    old(self).mapping(old(memory), q)
                },
            done ==> forall|p: u64|
                #![trigger final(memory).frames().count(p)]
                #![trigger final(memory).frames().free.times_free(p as int)]
                old(memory).frames().free.times_free(p as int) == 0 ==> final(memory).frames().count(p) == old(memory).frames().count(p) + (if p == frame.ppn.0 {
                    1int
                } else {
                    0int
                }) && final(memory).frames().free.times_free(p as int) == 0,
            done ==> final(memory).frames().free.count() >= old(memory).frames().free.count()
                - old(self).tables_missing(old(memory), v as int),
            old(self).mapping(old(memory), v as int) is None && old(memory).frames().free.count()
                >= old(self).tables_missing(old(memory), v as int) ==> done,
    {
        broadcast use {lemma_held_both, lemma_held_self};
        let ghost before = memory.frames();
        match self.place_frame(memory, v, frame, perm) {
            Err(_) => false,
            Ok(()) => {
                let ghost placed = *memory;
                proof {
                    assert(memory.frames().count(frame.ppn.0) == before.count(frame.ppn.0)
                        || memory.frames().count(frame.ppn.0) == 1);
                }
                memory.share_frame(frame.ppn);
                proof {
                    lemma_other_memory(*self, &placed, memory);
                    assert forall|p: u64|
                        #![trigger memory.frames().count(p)]
                        #![trigger memory.frames().free.times_free(p as int)]
                        before.free.times_free(p as int) == 0 implies memory.frames().count(p)
                        == before.count(p) + (if p == frame.ppn.0 {
                        1int
                    } else {
                        0int
                    }) && memory.frames().free.times_free(p as int) == 0 by {
                        assert(placed.frames().count(p) == before.count(p));
                    }
                }
                true
            },
        }
    }

    /// Gives the child page `v` of the parent; tells whether there were frames for the tables.
    #[verifier::spinoff_prover]
    #[verifier::rlimit(100)]
    fn share_page(
        &mut self,
        memory: &mut PhysMemory,
        child: &mut MemorySet,
        v: u64,
        area: MapArea,
        Ghost(before): Ghost<MemorySet>,
        Ghost(memory_before): Ghost<PhysMemory>,
        Ghost(trampoline): Ghost<(u64, PhysPageNum)>,
    ) -> (done: bool)
        requires
            forked(
                &before,
                &memory_before,
                old(self),
                old(child),
                old(memory),
                v as int,
                trampoline,
            ),
            inherited(&before, v as int),
            area == area_of(&before, v as int),
            before.wf(&memory_before),
        ensures
            done ==> forked(
                &before,
                &memory_before,
                final(self),
                final(child),
                final(memory),
                v + 1,
                trampoline,
            ),
            !done ==> forked(
                &before,
                &memory_before,
                final(self),
                final(child),
                final(memory),
                v as int,
                trampoline,
            ),
            final(child).areas() == old(child).areas(),
            final(child).brk() == old(child).brk(),
            final(child).heap_start() == old(child).heap_start(),
            final(child).number() == old(child).number(),
            final(child).table().root() == old(child).table().root(),
            done ==> final(memory).frames().free.count() >= old(memory).frames().free.count()
                - old(child).tables_missing(old(memory), v as int)
                && final(child).resident().dom() == old(child).resident().dom().insert(v),
            v != trampoline.0 && old(memory).frames().free.count() >= old(child).tables_missing(
                old(memory),
                v as int,
            ) && old(memory).frames().count(before.resident()[v].ppn.0) < u64::MAX ==> done,
    {
        let ghost first = *memory;
        proof {
            reveal(forked);
        }
        let frame: FrameTracker = match self.resident.get(&v) {
            Some(frame) => *frame,
            None => {
                return false;
            },
        };
        assert(frame == before.resident()[v]);
        assert(before.frame_mapped(&memory_before, v));
        let mut perm = area.map_perm;
        let private: bool = perm.w && !area.is_shared;
        if private {
            perm.w = false;
        }
        assert(perm == fork_perm(area));
        if memory.users(frame.ppn) == u64::MAX {
            return false;
        }
        assert(child.mapping(memory, v as int) == child_mapping(
            &before,
            v as int,
            v as int,
            trampoline,
        ));
        let done = child.adopt_page(memory, v, frame, perm);
        let ghost placed = *memory;
        let ghost adopted = *child;
        proof {
            lemma_child_changed(
                &memory_before,
                self,
                old(child),
                &first,
                child,
                memory,
            );
        }
        if !done {
            proof {
                assert forall|q: int| is_page(q) implies #[trigger] child.mapping(memory, q)
                    == child_mapping(&before, q, v as int, trampoline) by {
                    assert(old(child).mapping(&first, q) == child_mapping(
                        &before,
                        q,
                        v as int,
                        trampoline,
                    ));
                }
                assert forall|q: int| is_page(q) implies #[trigger] self.mapping(memory, q)
                    == parent_mapping(&before, &memory_before, q, v as int) by {
                    assert(old(self).mapping(&first, q) == parent_mapping(
                        &before,
                        &memory_before,
                        q,
                        v as int,
                    ));
                }
                lemma_users_step(&memory_before, &first, memory, child.resident());
                lemma_held_both(memory_before.contents(), first.contents(), memory.contents());
            }
            return false;
        }
        proof {
            assert(shared_once(&memory_before, memory, child.resident())) by {
                assert forall|p: u64| memory_before.frames().free.times_free(p as int) == 0 implies
                    memory.frames().count(p) == memory_before.frames().count(p) + uses(
                    child.resident(),
                    p,
                ) && #[trigger] memory.frames().free.times_free(p as int) == 0 by {
                    lemma_uses_insert(old(child).resident(), v, frame, p);
                    assert(first.frames().count(p) == memory_before.frames().count(p) + uses(
                        old(child).resident(),
                        p,
                    ));
                }
            }
        }
        if private {
            self.reflag_range(memory, v, v + 1, perm);
            proof {
                law_address_spaces_apart(self, memory, old(self), &placed, child);
            }
        }
        proof {
            lemma_held_self(placed.contents());
            lemma_held_both(memory_before.contents(), first.contents(), placed.contents());
            lemma_held_both(memory_before.contents(), placed.contents(), memory.contents());
            assert(child.resident() == old(child).resident().insert(v, frame));
            assert forall|q: int| is_page(q) implies #[trigger] self.mapping(memory, q) == if private
                && q == v {
                reflagged(old(self).mapping(&first, q), perm)
            } else {
                old(self).mapping(&first, q)
            } by {
                assert(old(self).mapping(&placed, q) == old(self).mapping(&first, q));
                assert(old(self).resident().contains_key(v));
            }
            assert forall|q: int| is_page(q) implies #[trigger] child.mapping(memory, q) == if q
                == v {
                child_mapping(&before, q, v + 1, trampoline)
            } else {
                old(child).mapping(&first, q)
            } by {
                assert(adopted.mapping(&placed, q) == if q == v {
                    child_mapping(&before, q, v + 1, trampoline)
                } else {
                    old(child).mapping(&first, q)
                });
            }
            lemma_page_forked(
                &before,
                &memory_before,
                old(self),
                old(child),
                &first,
                self,
                child,
                memory,
                v,
                trampoline,
            );
        }
        true
    }
}

/// The blocks of `size` pages that pages lie in.
pub open spec fn blocks(pages: Set<u64>, size: u64) -> Set<u64> {
    pages.map(|v: u64| v / size)
}

/// Frames for the tables on the way to pages: one for each block of pages that a table of
/// either level maps.
pub open spec fn tables_for(pages: Set<u64>) -> nat {
    blocks(pages, 512).len() + blocks(pages, 0x4_0000).len()
}

proof fn lemma_blocks_more(pages: Set<u64>, v: u64, size: u64)
    requires
        pages.finite(),
        size > 0,
    ensures
        blocks(pages, size).finite(),
        blocks(pages.insert(v), size).finite(),
        blocks(pages.insert(v), size).len() == blocks(pages, size).len() + if exists|q: u64|
            #[trigger] pages.contains(q) && q / size == v / size {
            0int
        } else {
            1
        },
{
    let f = |q: u64| q / size;
    pages.lemma_map_finite(f);
    pages.lemma_set_map_insert_commute(v, f);
    assert(blocks(pages.insert(v), size) == blocks(pages, size).insert(v / size));
    if exists|q: u64| #[trigger] pages.contains(q) && q / size == v / size {
        let q = choose|q: u64| #[trigger] pages.contains(q) && q / size == v / size;
        assert(f(q) == v / size);
        assert(blocks(pages, size).contains(v / size));
    } else if blocks(pages, size).contains(v / size) {
        let q = choose|q: u64| #[trigger] pages.contains(q) && v / size == f(q);
        assert(pages.contains(q));
    }
}

/// Fewer pages need no more tables.
proof fn lemma_tables_fewer(some: Set<u64>, all: Set<u64>)
    requires
        all.finite(),
        some.subset_of(all),
    ensures
        tables_for(some) <= tables_for(all),
{
    assert forall|size: u64| #[trigger] blocks(some, size).subset_of(blocks(all, size)) by {
        let f = |q: u64| q / size;
        assert forall|b: u64| #[trigger] blocks(some, size).contains(b) implies blocks(
            all,
            size,
        ).contains(b) by {
            let q = choose|q: u64| #[trigger] some.contains(q) && b == f(q);
            assert(all.contains(q) && f(q) == b);
        }
    }
    assert forall|size: u64| #[trigger] blocks(all, size).finite() by {
        all.lemma_map_finite(|q: u64| q / size);
    }
    vstd::set_lib::lemma_len_subset(blocks(some, 512), blocks(all, 512));
    vstd::set_lib::lemma_len_subset(blocks(some, 0x4_0000), blocks(all, 0x4_0000));
}

/// Tables that are missing for a page are those of the blocks that no page with a frame lies in.
proof fn lemma_tables_more(set: &MemorySet, memory: &PhysMemory, v: u64)
    requires
        set.wf(memory),
        v < VPN_LIMIT,
        set.resident().dom().finite(),
    ensures
        set.tables_missing(memory, v as int) + tables_for(set.resident().dom()) <= tables_for(
            set.resident().dom().insert(v),
        ),
{
    let pages = set.resident().dom();
    lemma_blocks_more(pages, v, 512);
    lemma_blocks_more(pages, v, 0x4_0000);
    if exists|q: u64| #[trigger] pages.contains(q) && q / 512 == v / 512 {
        let q = choose|q: u64| #[trigger] pages.contains(q) && q / 512 == v / 512;
        assert(set.frame_mapped(memory, q));
        assert(table_index(q as int, 1) == table_index(v as int, 1));
        assert(table_index(q as int, 0) == table_index(v as int, 0));
    }
    if exists|q: u64| #[trigger] pages.contains(q) && q / 0x4_0000 == v / 0x4_0000 {
        let q = choose|q: u64| #[trigger] pages.contains(q) && q / 0x4_0000 == v / 0x4_0000;
        assert(set.frame_mapped(memory, q));
        assert(table_index(q as int, 0) == table_index(v as int, 0));
    }
}

/// The frames and the free pages are enough for a fork.
///
/// The inherited pages need tables; the root and the tables of the page from
/// which signal handlers return need three.
pub open spec fn fork_owed(set: &MemorySet, memory: &PhysMemory, trampoline: u64) -> bool {
    let n = set.resident().dom().len();
    &&& memory.frames().free.count() >= 3 + tables_for(set.resident().dom())
    &&& !inherited(set, trampoline as int)
    &&& forall|v: u64| #[trigger]
        set.resident().contains_key(v) ==> memory.frames().free.times_free(
            set.resident()[v].ppn.0 as int,
        ) == 0 && memory.frames().count(set.resident()[v].ppn.0) + n < u64::MAX
}

/// The first page of area `i`, or the page behind all.
spec fn next_start(s: Seq<MapArea>, i: int) -> int {
    if i < s.len() {
        s[i].start as int
    } else {
        VPN_LIMIT as int
    }
}

/// No area holds a page between two areas that follow one another.
proof fn lemma_between(s: Seq<MapArea>, i: int, q: int)
    requires
        areas_ok(s),
        0 <= i <= s.len(),
        i > 0 ==> s[i - 1].end <= q,
        q < next_start(s, i),
    ensures
        holder(s, q) is None,
{
    assert forall|k: int| 0 <= k < s.len() implies !(#[trigger] s[k]).holds(q) by {
        assert(s[k].wf());
        if k < i {
            if k < i - 1 {
                assert(s[k].end <= s[i - 1].start);
                assert(s[i - 1].wf());
            }
        } else if k > i {
            assert(s[i].start < s[k].start);
        }
    }
}

/// Pages that the child does not get are done at once.
proof fn lemma_bound_moved(
    before: &MemorySet,
    memory_before: &PhysMemory,
    parent: &MemorySet,
    child: &MemorySet,
    memory: &PhysMemory,
    a: int,
    b: int,
    trampoline: (u64, PhysPageNum),
)
    requires
        forked(before, memory_before, parent, child, memory, a, trampoline),
        a <= b,
        forall|q: int| a <= q < b ==> !#[trigger] inherited(before, q),
    ensures
        forked(before, memory_before, parent, child, memory, b, trampoline),
{
    reveal(forked);
    assert forall|q: int| is_page(q) implies #[trigger] parent.mapping(memory, q) == parent_mapping(
        before,
        memory_before,
        q,
        b,
    ) by {
        assert(parent.mapping(memory, q) == parent_mapping(before, memory_before, q, a));
    }
    assert forall|q: int| is_page(q) implies #[trigger] child.mapping(memory, q) == child_mapping(
        before,
        q,
        b,
        trampoline,
    ) by {
        assert(child.mapping(memory, q) == child_mapping(before, q, a, trampoline));
    }
    assert forall|q: u64| #[trigger] child.resident().contains_key(q) <==> inherited(
        before,
        q as int,
    ) && q < b by {
        assert(child.resident().contains_key(q) <==> inherited(before, q as int) && q < a);
    }
}

/// What stays of the parent during a fork.
proof fn lemma_fork_parent(
    before: &MemorySet,
    memory_before: &PhysMemory,
    parent: &MemorySet,
    child: &MemorySet,
    memory: &PhysMemory,
    bound: int,
    trampoline: (u64, PhysPageNum),
)
    requires
        forked(before, memory_before, parent, child, memory, bound, trampoline),
    ensures
        parent.wf(memory),
        memory.wf(),
        parent.areas() == before.areas(),
        parent.resident() == before.resident(),
        parent.brk() == before.brk(),
        parent.heap_start() == before.heap_start(),
{
    reveal(forked);
}

/// Where a fork is owed, the next page can be shared.
proof fn lemma_fork_frames(
    before: &MemorySet,
    memory_before: &PhysMemory,
    parent: &MemorySet,
    child: &MemorySet,
    memory: &PhysMemory,
    v: u64,
    trampoline: (u64, PhysPageNum),
)
    requires
        forked(before, memory_before, parent, child, memory, v as int, trampoline),
        inherited(before, v as int),
        before.resident().dom().finite(),
        memory.frames().free.count() + tables_for(child.resident().dom()) + 3
            >= memory_before.frames().free.count(),
    ensures
        child.tables_missing(memory, v as int) + tables_for(child.resident().dom()) <= tables_for(
            child.resident().dom().insert(v),
        ),
        fork_owed(before, memory_before, trampoline.0) ==> v != trampoline.0
            && memory.frames().free.count() >= child.tables_missing(memory, v as int) && memory.frames().count(
            before.resident()[v].ppn.0,
        ) < u64::MAX,
{
    reveal(forked);
    let c = child.resident().dom();
    assert(c.subset_of(before.resident().dom())) by {
        assert forall|q: u64| #[trigger] c.contains(q) implies before.resident().dom().contains(
            q,
        ) by {
            assert(child.resident().contains_key(q));
        }
    }
    vstd::set_lib::lemma_len_subset(c, before.resident().dom());
    lemma_tables_more(child, memory, v);
    if fork_owed(before, memory_before, trampoline.0) {
        assert forall|q: u64| #[trigger] c.insert(v).contains(q) implies before.resident().dom().contains(
            q,
        ) by {
            if q != v {
                assert(child.resident().contains_key(q));
            }
        }
        vstd::set_lib::lemma_len_subset(c.insert(v), before.resident().dom());
        lemma_tables_fewer(c.insert(v), before.resident().dom());
        assert(!child.resident().contains_key(v));
        vstd::set_lib::lemma_len_subset(c, c.insert(v));
        let p = before.resident()[v].ppn.0;
        vstd::set_lib::lemma_len_subset(
            c.filter(|q: u64| child.resident()[q].ppn.0 == p),
            c,
        );
        assert(before.resident().contains_key(v));
        assert(memory.frames().count(p) == memory_before.frames().count(p) + uses(
            child.resident(),
            p,
        ));
    }
}

/// The child with its areas is as far as without.
proof fn lemma_same_pages(
    before: &MemorySet,
    memory_before: &PhysMemory,
    parent: &MemorySet,
    filled: &MemorySet,
    child: &MemorySet,
    memory: &PhysMemory,
    trampoline: (u64, PhysPageNum),
)
    requires
        forked(before, memory_before, parent, filled, memory, VPN_LIMIT as int, trampoline),
        child.areas() == parent.areas(),
        child.resident() == filled.resident(),
        child.table() == filled.table(),
    ensures
        forked(before, memory_before, parent, child, memory, VPN_LIMIT as int, trampoline),
{
    reveal(forked);
    assert forall|q: int| is_page(q) implies #[trigger] child.mapping(memory, q) == child_mapping(
        before,
        q,
        VPN_LIMIT as int,
        trampoline,
    ) by {
        assert(filled.mapping(memory, q) == child_mapping(
            before,
            q,
            VPN_LIMIT as int,
            trampoline,
        ));
    }
    assert forall|v: u64| #[trigger] child.resident().contains_key(v) implies child.frame_mapped(
        memory,
        v,
    ) by {
        assert(filled.frame_mapped(memory, v));
    }
}

impl MemorySet {
    /// Maps the page from which signal handlers return.
    pub fn map_user_trampoline(
        &mut self,
        memory: &mut PhysMemory,
        page: VirtPageNum,
        ppn: PhysPageNum,
    ) -> (done: Result<(), MapError>)
        requires
            old(self).wf(old(memory)),
            page.0 < VPN_LIMIT,
        ensures
            final(self).wf(final(memory)),
            final(self).areas() == old(self).areas(),
            final(self).resident() == old(self).resident(),
            final(self).brk() == old(self).brk(),
            final(self).heap_start() == old(self).heap_start(),
            final(self).number() == old(self).number(),
            final(self).keeps_apart(final(memory), old(self), old(memory)),
            keeps_users(old(memory).frames(), final(memory).frames()),
            done is Err ==> forall|q: int|
                is_page(q) ==> #[trigger] final(self).mapping(final(memory), q) == old(self).mapping(old(memory), q),
            done is Ok ==> final(memory).frames().free.count() >= old(memory).frames().free.count()
                - 2 && forall|q: int|
                is_page(q) ==> #[trigger] final(self).mapping(final(memory), q) == if q == page.0 {
                    Some((trampoline_entry(ppn), PageSize::Page4K))
                } else {
                    old(self).mapping(old(memory), q)
                },
            old(self).mapping(old(memory), page.0 as int) is Some ==> done is Err,
            old(self).mapping(old(memory), page.0 as int) is None && old(memory).frames().free.count() >= 2 ==> done is Ok,
    {
        let mut flags = PTEFlags::empty();
        flags.r = true;
        flags.x = true;
        flags.u = true;
        let done = self.page_table.map(memory, page, ppn, flags, PageSize::Page4K);
        proof {
            let v = page.0 as int;
            lemma_unmapped_is_free(old(self).table(), old(memory), v);
            assert forall|q: int| is_page(q) implies same_block(q, v, 2) == (q == v) by {}
            assert forall|q: int| is_page(q) implies #[trigger] self.mapping(memory, q)
                == self.page_table.at(memory, q) by {}
            assert forall|q: u64| #[trigger] self.resident().contains_key(q) implies
                self.frame_mapped(memory, q) by {
                assert(old(self).frame_mapped(old(memory), q));
                assert(self.page_table.at(memory, q as int) == self.mapping(memory, q as int));
            }
        }
        done
    }

    /// Gives the child the pages of all areas of the parent; tells whether all were shared.
    #[verifier::spinoff_prover]
    #[verifier::rlimit(60)]
    fn share_areas(
        &mut self,
        memory: &mut PhysMemory,
        child: &mut MemorySet,
        Ghost(before): Ghost<MemorySet>,
        Ghost(memory_before): Ghost<PhysMemory>,
        Ghost(pair): Ghost<(u64, PhysPageNum)>,
    ) -> (done: bool)
        requires
            forked(&before, &memory_before, old(self), old(child), old(memory), 0, pair),
            before.wf(&memory_before),
            old(memory).frames().free.count() + tables_for(old(child).resident().dom()) + 3
                >= memory_before.frames().free.count(),
        ensures
            final(memory).wf(),
            done ==> forked(
                &before,
                &memory_before,
                final(self),
                final(child),
                final(memory),
                VPN_LIMIT as int,
                pair,
            ),
            !done ==> exists|bound: int| #[trigger]
                forked(
                    &before,
                    &memory_before,
                    final(self),
                    final(child),
                    final(memory),
                    bound,
                    pair,
                ),
            final(child).areas() == old(child).areas(),
            final(child).brk() == old(child).brk(),
            final(child).heap_start() == old(child).heap_start(),
            final(child).number() == old(child).number(),
            fork_owed(&before, &memory_before, pair.0) ==> done,
    {
        let ghost s = before.areas();
        proof {
            lemma_fork_parent(&before, &memory_before, self, child, memory, 0, pair);
        }
        let mut i: usize = 0;
        proof {
            assert forall|q: int| 0 <= q < next_start(s, 0) implies !#[trigger] inherited(
                &before,
                q,
            ) by {
                lemma_between(s, 0, q);
            }
            lemma_bound_moved(
                &before,
                &memory_before,
                self,
                child,
                memory,
                0,
                next_start(s, 0),
                pair,
            );
        }
        while i < self.areas.len()
            invariant
                i <= s.len(),
                self.areas().len() == s.len(),
                s == before.areas(),
                before.wf(&memory_before),
                forked(
                    &before,
                    &memory_before,
                    self,
                    child,
                    memory,
                    next_start(s, i as int),
                    pair,
                ),
                child.areas() == old(child).areas(),
                child.brk() == old(child).brk(),
                child.heap_start() == old(child).heap_start(),
                child.number() == old(child).number(),
                memory.frames().free.count() + tables_for(child.resident().dom()) + 3
                    >= memory_before.frames().free.count(),
            decreases s.len() - i,
        {
            proof {
                lemma_fork_parent(
                    &before,
                    &memory_before,
                    self,
                    child,
                    memory,
                    next_start(s, i as int),
                    pair,
                );
            }
            let area = self.areas[i];
            let mut v: u64 = area.start;
            assert(s[i as int].wf());
            assert(user_area(s[i as int]));
            while v < area.end
                invariant
                    i < s.len(),
                    s == before.areas(),
                    areas_ok(s),
                    area == s[i as int],
                    area.start <= v <= area.end <= VPN_LIMIT,
                    before.wf(&memory_before),
                        forked(&before, &memory_before, self, child, memory, v as int, pair),
                    child.areas() == old(child).areas(),
                    child.brk() == old(child).brk(),
                    child.heap_start() == old(child).heap_start(),
                    child.number() == old(child).number(),
                    memory.frames().free.count() + tables_for(child.resident().dom()) + 3
                    >= memory_before.frames().free.count(),
                decreases area.end - v,
            {
                proof {
                    lemma_fork_parent(&before, &memory_before, self, child, memory, v as int, pair);
                    lemma_holder(s, i as int, v as int);
                }
                if area.map_type != MapType::Guard && self.resident.contains_key(&v) {
                    assert(inherited(&before, v as int));
                    proof {
                        lemma_fork_frames(&before, &memory_before, self, child, memory, v, pair);
                    }
                    let done = self.share_page(
                        memory,
                        child,
                        v,
                        area,
                        Ghost(before),
                        Ghost(memory_before),
                        Ghost(pair),
                    );
                    if !done {
                        proof {
                            lemma_fork_parent(
                                &before,
                                &memory_before,
                                self,
                                child,
                                memory,
                                v as int,
                                pair,
                            );
                        }
                        return false;
                    }
                } else {
                    proof {
                        lemma_bound_moved(
                            &before,
                            &memory_before,
                            self,
                            child,
                            memory,
                            v as int,
                            v + 1,
                            pair,
                        );
                    }
                }
                v = v + 1;
            }
            proof {
                assert(i + 1 < s.len() ==> s[i as int].end <= s[i + 1].start);
                assert forall|q: int| v <= q < next_start(s, i + 1) implies !#[trigger] inherited(
                    &before,
                    q,
                ) by {
                    lemma_between(s, i + 1, q);
                }
                lemma_bound_moved(
                    &before,
                    &memory_before,
                    self,
                    child,
                    memory,
                    v as int,
                    next_start(s, i + 1),
                    pair,
                );
                lemma_fork_parent(
                    &before,
                    &memory_before,
                    self,
                    child,
                    memory,
                    next_start(s, i + 1),
                    pair,
                );
            }
            i = i + 1;
        }
        proof {
            lemma_fork_parent(&before, &memory_before, self, child, memory, VPN_LIMIT as int, pair);
        }
        true
    }

    /// Makes the address space of the child of a fork; what could not be finished is handed back.
    ///
    /// The child has the areas of its parent and, of the pages that have a
    /// frame, the same frames. Its tables are its own.
    #[verifier::spinoff_prover]
    #[verifier::rlimit(60)]
    pub fn from_existed_user(
        &mut self,
        memory: &mut PhysMemory,
        asid: u64,
        trampoline: VirtPageNum,
        trampoline_ppn: PhysPageNum,
    ) -> (outcome: Result<MemorySet, Option<MemorySet>>)
        requires
            old(self).wf(old(memory)),
            trampoline.0 < VPN_LIMIT,
        ensures
            final(memory).wf(),
            outcome matches Ok(child) ==> {
                &&& child.areas() == old(self).areas()
                &&& child.brk() == old(self).brk()
                &&& child.heap_start() == old(self).heap_start()
                &&& child.number() == asid
                &&& forked(
                    old(self),
                    old(memory),
                    final(self),
                    &child,
                    final(memory),
                    VPN_LIMIT as int,
                    (trampoline.0, trampoline_ppn),
                )
            },
            outcome matches Err(Some(child)) ==> (exists|bound: int| #[trigger]
                forked(
                    old(self),
                    old(memory),
                    final(self),
                    &child,
                    final(memory),
                    bound,
                    (trampoline.0, trampoline_ppn),
                )) || (child.wf(final(memory)) && child.resident().dom().is_empty() && *final(self)
                == *old(self) && final(self).wf(final(memory))),
            outcome matches Err(None) ==> *final(self) == *old(self) && final(memory).tables()
                == old(memory).tables() && final(memory).frames() == old(memory).frames(),
            fork_owed(old(self), old(memory), trampoline.0) ==> outcome is Ok,
    {
        broadcast use {lemma_held_both, lemma_held_self};
        let ghost s = self.areas();
        let ghost t0 = memory.tables();
        let ghost pair = (trampoline.0, trampoline_ppn);
        proof {
            memory.lemma_wf();
            law_take_some(memory.frames().free);
        }
        let mut child = match MemorySet::new_bare(memory, asid) {
            None => {
                return Err(None);
            },
            Some(child) => child,
        };
        let ghost bare = *memory;
        let ghost bare_child = child;
        proof {
            lemma_table_added(t0, child.table().root(), self.table().root());
            assert forall|q: int| is_page(q) implies #[trigger] self.mapping(memory, q) == old(self).mapping(old(memory), q) by {}
            assert forall|v: u64| #[trigger] self.resident().contains_key(v) implies
                self.frame_mapped(memory, v) by {
                assert(old(self).frame_mapped(old(memory), v));
            }
        }
        let mapped = child.map_user_trampoline(memory, trampoline, trampoline_ppn);
        proof {
            lemma_child_changed(old(memory), self, &bare_child, &bare, &child, memory);
        }
        if mapped.is_err() {
            assert(child.resident().dom() =~= Set::<u64>::empty());
            return Err(Some(child));
        }
        proof {
            assert forall|p: u64| old(memory).frames().free.times_free(p as int) == 0 implies
                memory.frames().count(p) == old(memory).frames().count(p) + uses(
                child.resident(),
                p,
            ) && #[trigger] memory.frames().free.times_free(p as int) == 0 by {
                assert(child.resident().dom().filter(|v: u64| child.resident()[v].ppn.0 == p)
                    =~= Set::<u64>::empty());
            }
            assert forall|q: int| is_page(q) implies #[trigger] self.mapping(memory, q)
                == parent_mapping(old(self), old(memory), q, 0) by {
                assert(self.mapping(&bare, q) == old(self).mapping(old(memory), q));
            }
            assert forall|q: int| is_page(q) implies #[trigger] child.mapping(memory, q)
                == child_mapping(old(self), q, 0, pair) by {
                assert(bare_child.mapping(&bare, q) is None);
            }
            assert(forked(old(self), old(memory), self, &child, memory, 0, pair)) by {
                reveal(forked);
            }
            assert(child.resident().dom() =~= Set::<u64>::empty());
        }
        if !self.share_areas(memory, &mut child, Ghost(*old(self)), Ghost(*old(memory)), Ghost(pair)) {
            return Err(Some(child));
        }
        proof {
            lemma_fork_parent(
                old(self),
                old(memory),
                self,
                &child,
                memory,
                VPN_LIMIT as int,
                pair,
            );
        }
        let ghost filled = child;
        child.areas = self.areas.clone();
        child.brk = self.brk;
        child.start_brk = self.start_brk;
        proof {
            assert(child.areas() =~= s);
            lemma_same_pages(old(self), old(memory), self, &filled, &child, memory, pair);
        }
        Ok(child)
    }
}

/// After a fork a page that is not shared, and that the user may write, has
/// one frame in both address spaces and can be written in neither; a write in
/// either gets a copy.
pub proof fn law_fork_protects(
    before: &MemorySet,
    memory_before: &PhysMemory,
    parent: &MemorySet,
    child: &MemorySet,
    memory: &PhysMemory,
    trampoline: (u64, PhysPageNum),
    v: int,
)
    requires
        before.wf(memory_before),
        forked(before, memory_before, parent, child, memory, VPN_LIMIT as int, trampoline),
        child.areas() == parent.areas(),
        inherited(before, v),
        area_of(before, v).map_perm.w,
        !area_of(before, v).is_shared,
    ensures
        parent.resident()[v as u64] == child.resident()[v as u64],
        copies(parent.areas(), parent.mapping(memory, v), v),
        copies(child.areas(), child.mapping(memory, v), v),
        parent.mapping(memory, v)->Some_0.0.page == child.mapping(memory, v)->Some_0.0.page,
{
    reveal(forked);
    assert(before.frame_mapped(memory_before, v as u64));
    assert(child.mapping(memory, v) == child_mapping(before, v, VPN_LIMIT as int, trampoline));
    assert(parent.mapping(memory, v) == parent_mapping(
        before,
        memory_before,
        v,
        VPN_LIMIT as int,
    ));
    assert(child.resident().contains_key(v as u64));
}

impl MemorySet {
    /// Links the kernel's half of the address space in.
    pub fn install_kernel_space(&mut self, memory: &mut PhysMemory, kernel: &PageTable)
        requires
            old(self).wf(old(memory)),
            kernel.wf(old(memory)),
            apart(old(memory).tables(), old(self).table().root(), kernel.root()),
            forall|v: u64| #[trigger]
                old(self).resident().contains_key(v) ==> v < VPN_LIMIT / 2,
        ensures
            final(self).wf(final(memory)),
            kernel.wf(final(memory)),
            final(self).areas() == old(self).areas(),
            final(self).resident() == old(self).resident(),
            final(self).brk() == old(self).brk(),
            final(self).heap_start() == old(self).heap_start(),
            final(self).number() == old(self).number(),
            final(memory).frames() == old(memory).frames(),
            forall|q: int|
                is_page(q) ==> #[trigger] final(self).mapping(final(memory), q) == if q < VPN_LIMIT
                    / 2 {
                    old(self).mapping(old(memory), q)
                } else {
                    kernel.at(old(memory), q)
                },
            kernel.same_pages(final(memory), kernel, old(memory)),
            keeps_held(old(memory), final(memory)),
            final(self).table().root() == old(self).table().root(),
            forall|i: int|
                256 <= i < 512 ==> #[trigger] final(memory).tables()[final(self).table().root()][i]
                    == final(memory).tables()[kernel.root()][i],
    {
        self.page_table.share_kernel_half(memory, kernel);
        proof {
            assert forall|q: int| is_page(q) implies #[trigger] self.mapping(memory, q)
                == self.page_table.at(memory, q) by {}
            assert forall|v: u64| #[trigger] self.resident().contains_key(v) implies
                self.frame_mapped(memory, v) by {
                assert(old(self).frame_mapped(old(memory), v));
                assert(self.page_table.at(memory, v as int) == self.mapping(memory, v as int));
            }
        }
    }

    /// Makes a second address space over the tables of a first; it holds none of the frames.
    pub fn share_from_parent(parent: &MemorySet, memory: &PhysMemory, asid: u64) -> (set: MemorySet)
        requires
            parent.wf(memory),
        ensures
            set.wf(memory),
            set.areas() == parent.areas(),
            set.resident() == Map::<u64, FrameTracker>::empty(),
            set.table().root() == parent.table().root(),
            set.table().owned() == Seq::<FrameTracker>::empty(),
            set.brk() == parent.brk(),
            set.heap_start() == parent.heap_start(),
            set.number() == asid,
            forall|q: int| #[trigger] set.mapping(memory, q) == parent.mapping(memory, q),
    {
        let set = MemorySet {
            asid,
            areas: parent.areas.clone(),
            resident: std::collections::BTreeMap::new(),
            page_table: PageTable::alias_of(&parent.page_table),
            brk: parent.brk,
            start_brk: parent.start_brk,
        };
        assert(set.areas() =~= parent.areas());
        assert(set.resident() =~= Map::<u64, FrameTracker>::empty());
        set
    }
}

} // verus!
