//! Memory that address spaces have in common: mapped, forked, and copied on a write.

use vstd::prelude::*;

use crate::mm::address::{PageSize, PhysPageNum, VPN_LIMIT};
use crate::mm::area::{MapArea, MapType};
use crate::mm::frame_allocator::FrameTracker;
use crate::mm::memory_set::fork::{child_mapping, forked, parent_mapping, CowOutcome};
use crate::mm::memory_set::kernel_half::forked_whole;
use crate::mm::memory_set::{lemma_holder, MapRequest, MemorySet};
use crate::mm::page_table::is_page;
use crate::mm::phys::PhysMemory;

verus! {

/// The area has pages that a fork hands on, and page `v` is one of them.
pub open spec fn is_page_of(set: &MemorySet, i: int, v: u64) -> bool {
    &&& 0 <= i < set.areas().len()
    &&& set.areas()[i].start <= v < set.areas()[i].end
    &&& set.areas()[i].map_type != MapType::Guard
    &&& set.resident().contains_key(v)
}

/// After a fork the child has every page of its parent that has a frame: the same frame, with
/// the rights of the page's area. Only the right to write is gone, and only where the area is
/// not shared.
pub proof fn law_child_has_the_rights_of_the_areas(
    before: &MemorySet,
    memory_before: &PhysMemory,
    parent: &MemorySet,
    child: &MemorySet,
    memory: &PhysMemory,
    trampoline: (u64, PhysPageNum),
    i: int,
    v: u64,
)
    requires
        before.wf(memory_before),
        forked(before, memory_before, parent, child, memory, VPN_LIMIT as int, trampoline),
        is_page_of(before, i, v),
    ensures
        child.resident().contains_key(v),
        child.resident()[v] == before.resident()[v],
        child.mapping(memory, v as int) is Some,
        ({
            let perm = before.areas()[i].map_perm;
            let (entry, size) = child.mapping(memory, v as int)->Some_0;
            &&& size == PageSize::Page4K
            &&& entry.page == before.resident()[v].ppn
            &&& entry.flags.v
            &&& entry.flags.r == perm.r
            &&& entry.flags.x == perm.x
            &&& entry.flags.u == perm.u
            &&& entry.flags.w == (perm.w && before.areas()[i].is_shared)
        }),
{
    reveal(forked);
    lemma_holder(before.areas(), i, v as int);
    assert(before.frame_mapped(memory_before, v));
    assert(child.mapping(memory, v as int) == child_mapping(
        before,
        v as int,
        VPN_LIMIT as int,
        trampoline,
    ));
    assert(child.resident().contains_key(v));
}

/// A fork takes nothing from the parent but the right to write pages that are not shared: those
/// have the other rights of their area, and every other page is mapped as it was.
pub proof fn law_parent_loses_only_the_right_to_write(
    before: &MemorySet,
    memory_before: &PhysMemory,
    parent: &MemorySet,
    child: &MemorySet,
    memory: &PhysMemory,
    trampoline: (u64, PhysPageNum),
    i: int,
    v: u64,
)
    requires
        before.wf(memory_before),
        forked(before, memory_before, parent, child, memory, VPN_LIMIT as int, trampoline),
        is_page_of(before, i, v),
    ensures
        parent.areas() == before.areas(),
        parent.resident() == before.resident(),
        parent.mapping(memory, v as int) is Some,
        ({
            let area = before.areas()[i];
            let was = before.mapping(memory_before, v as int)->Some_0.0.flags;
            let (entry, size) = parent.mapping(memory, v as int)->Some_0;
            &&& size == PageSize::Page4K
            &&& entry.page == before.resident()[v].ppn
            &&& entry.flags.v
            &&& area.map_perm.w && !area.is_shared ==> {
                &&& !entry.flags.w
                &&& entry.flags.r == area.map_perm.r
                &&& entry.flags.x == area.map_perm.x
                &&& entry.flags.u == area.map_perm.u
            }
            &&& !area.map_perm.w || area.is_shared ==> parent.mapping(memory, v as int)
                == before.mapping(memory_before, v as int)
            &&& was.r == area.map_perm.r && was.x == area.map_perm.x && was.u == area.map_perm.u
                ==> entry.flags.r == was.r && entry.flags.x == was.x && entry.flags.u == was.u
        }),
{
    reveal(forked);
    lemma_holder(before.areas(), i, v as int);
    assert(before.frame_mapped(memory_before, v));
    assert(parent.mapping(memory, v as int) == parent_mapping(
        before,
        memory_before,
        v as int,
        VPN_LIMIT as int,
    ));
}

/// A page that has no frame, or that no area has, is not mapped in a child; the page from which
/// signal handlers return can be read and run by the user, and not written.
pub proof fn law_child_has_nothing_else(
    before: &MemorySet,
    memory_before: &PhysMemory,
    parent: &MemorySet,
    child: &MemorySet,
    memory: &PhysMemory,
    trampoline: (u64, PhysPageNum),
    v: u64,
)
    requires
        before.wf(memory_before),
        forked(before, memory_before, parent, child, memory, VPN_LIMIT as int, trampoline),
        v < 0x800_0000,
        !before.resident().contains_key(v) || forall|i: int|
            0 <= i < before.areas().len() ==> !(#[trigger] before.areas()[i].start <= v
                < before.areas()[i].end),
    ensures
        !child.resident().contains_key(v),
        v != trampoline.0 ==> child.mapping(memory, v as int) is None,
        v == trampoline.0 ==> {
            &&& child.mapping(memory, v as int) matches Some((entry, size))
            &&& size == PageSize::Page4K
            &&& entry.page == trampoline.1
            &&& entry.flags.v && entry.flags.r && entry.flags.x && entry.flags.u
            &&& !entry.flags.w
        },
        parent.mapping(memory, v as int) == before.mapping(memory_before, v as int),
{
    reveal(forked);
    assert(is_page(v as int));
    assert(child.mapping(memory, v as int) == child_mapping(
        before,
        v as int,
        VPN_LIMIT as int,
        trampoline,
    ));
    assert(parent.mapping(memory, v as int) == parent_mapping(
        before,
        memory_before,
        v as int,
        VPN_LIMIT as int,
    ));
}

/// A process that is forked with the pages of the kernel has, in the half of the user, the same
/// frames with the rights of the areas, and in the half of the kernel what its parent has.
pub proof fn law_forked_process_has_the_rights_of_the_areas(
    before: &MemorySet,
    memory_before: &PhysMemory,
    parent: &MemorySet,
    child: &MemorySet,
    memory: &PhysMemory,
    trampoline: (u64, PhysPageNum),
    i: int,
    v: u64,
)
    requires
        before.wf(memory_before),
        forked_whole(before, memory_before, parent, child, memory, trampoline),
        is_page_of(before, i, v),
        v < 0x400_0000,
    ensures
        child.areas() == before.areas(),
        child.brk() == before.brk(),
        child.heap_start() == before.heap_start(),
        child.resident().contains_key(v),
        child.resident()[v] == before.resident()[v],
        parent.resident()[v] == before.resident()[v],
        child.mapping(memory, v as int) is Some,
        parent.mapping(memory, v as int) is Some,
        ({
            let area = before.areas()[i];
            let (entry, size) = child.mapping(memory, v as int)->Some_0;
            let (own, _) = parent.mapping(memory, v as int)->Some_0;
            &&& size == PageSize::Page4K
            &&& entry.page == before.resident()[v].ppn
            &&& own.page == before.resident()[v].ppn
            &&& entry.flags.v
            &&& entry.flags.r == area.map_perm.r
            &&& entry.flags.x == area.map_perm.x
            &&& entry.flags.u == area.map_perm.u
            &&& entry.flags.w == (area.map_perm.w && area.is_shared)
            &&& area.map_perm.w && !area.is_shared ==> {
                &&& !own.flags.w
                &&& own.flags.r == area.map_perm.r
                &&& own.flags.x == area.map_perm.x
                &&& own.flags.u == area.map_perm.u
            }
            &&& !area.map_perm.w || area.is_shared ==> parent.mapping(memory, v as int)
                == before.mapping(memory_before, v as int)
        }),
        forall|q: int|
            0x400_0000 <= q < 0x800_0000 ==> #[trigger] child.mapping(memory, q) == before.mapping(
                memory_before,
                q,
            ),
{
    lemma_holder(before.areas(), i, v as int);
    assert(before.frame_mapped(memory_before, v));
    assert(child.resident().contains_key(v));
    assert(is_page(v as int));
    assert(child.mapping(memory, v as int) == child_mapping(
        before,
        v as int,
        VPN_LIMIT as int,
        trampoline,
    ));
    assert(parent.mapping(memory, v as int) == parent_mapping(
        before,
        memory_before,
        v as int,
        VPN_LIMIT as int,
    ));
    assert forall|q: int| 0x400_0000 <= q < 0x800_0000 implies #[trigger] child.mapping(memory, q)
        == before.mapping(memory_before, q) by {
        assert(is_page(q));
    }
}

/// A write to a page that is mapped for reading is answered with a copy exactly where an area
/// that is writable and not shared has the page. The copy is mapped with all rights of the area.
pub proof fn law_write_gets_a_copy(
    before: &MemorySet,
    memory_before: &PhysMemory,
    after: &MemorySet,
    memory: &PhysMemory,
    i: int,
    v: u64,
    outcome: CowOutcome,
)
    requires
        before.wf(memory_before),
        before.cow_handled(memory_before, after, memory, v as int, outcome),
        is_page_of(before, i, v),
    ensures
        ({
            let area = before.areas()[i];
            let was = before.mapping(memory_before, v as int)->Some_0.0;
            let private = area.map_perm.w && !area.is_shared;
            &&& !private || was.flags.w ==> outcome is NotCow && *after == *before && *memory
                == *memory_before
            &&& private && !was.flags.w ==> !(outcome is NotCow)
            &&& outcome matches CowOutcome::Copied { from, to, released } ==> {
                &&& from == before.resident()[v].ppn
                &&& released == Some(before.resident()[v])
                &&& after.resident()[v].ppn == to
                &&& memory_before.frames().free.times_free(to.0 as int) == 1
                &&& memory.frames().count(to.0) == 1
                &&& after.mapping(memory, v as int) matches Some((entry, size))
                &&& size == PageSize::Page4K
                &&& entry.page == to
                &&& entry.flags.v
                &&& entry.flags.r == area.map_perm.r
                &&& entry.flags.w == area.map_perm.w
                &&& entry.flags.x == area.map_perm.x
                &&& entry.flags.u == area.map_perm.u
                &&& forall|q: int|
                    0 <= q < 0x800_0000 && q != v ==> #[trigger] after.mapping(memory, q)
                        == before.mapping(memory_before, q)
            }
        }),
{
    lemma_holder(before.areas(), i, v as int);
    assert(before.frame_mapped(memory_before, v));
    assert(is_page(v as int));
    assert forall|q: int| 0 <= q < 0x800_0000 && q != v && outcome is Copied implies
        #[trigger] after.mapping(memory, q) == before.mapping(memory_before, q) by {
        assert(is_page(q));
    }
}

/// A page that gets its frame on first use is mapped to it with all rights of its area, and no
/// other page changes.
pub proof fn law_first_use_gives_the_rights_of_the_area(
    before: &MemorySet,
    memory_before: &PhysMemory,
    shared_before: Map<u64, FrameTracker>,
    after: &MemorySet,
    memory: &PhysMemory,
    shared: Map<u64, FrameTracker>,
    v: u64,
    area: MapArea,
)
    requires
        v < 0x800_0000,
        after.page_filled(memory, shared, before, memory_before, shared_before, v, area),
    ensures
        after.resident().contains_key(v),
        after.mapping(memory, v as int) matches Some((entry, size)) && {
            &&& size == PageSize::Page4K
            &&& entry.page == after.resident()[v].ppn
            &&& entry.flags.v
            &&& entry.flags.r == area.map_perm.r
            &&& entry.flags.w == area.map_perm.w
            &&& entry.flags.x == area.map_perm.x
            &&& entry.flags.u == area.map_perm.u
        },
        forall|q: int|
            0 <= q < 0x800_0000 && q != v ==> #[trigger] after.mapping(memory, q) == before.mapping(
                memory_before,
                q,
            ),
{
    assert(is_page(v as int));
    assert(after.mapping(memory, v as int) is Some);
    assert forall|q: int| 0 <= q < 0x800_0000 && q != v implies #[trigger] after.mapping(memory, q)
        == before.mapping(memory_before, q) by {
        assert(is_page(q));
    }
}

/// The area that a request maps has the pages that its addresses touch, the rights that it asks
/// for, and is shared exactly where the request says so, with a file or without one.
pub proof fn law_mapped_as_asked(request: MapRequest, at: int)
    requires
        0 <= at,
        at + request.length <= 0x80_0000_0000,
        request.addr == 0 || request.addr == at && at + request.length < 0x80_0000_0000,
    ensures
        ({
            let area = request.area_at(at);
            let bits = request.flags.bits;
            &&& area.start == at / 4096
            &&& area.end == (at + request.length + 4095) / 4096
            &&& area.page_size == PageSize::Page4K
            &&& area.is_shared == (bits & 0x01 == 0x01)
            &&& area.map_perm.r == (request.prot.bits % 2 == 1)
            &&& area.map_perm.w == (request.prot.bits / 2 % 2 == 1)
            &&& area.map_perm.x == (request.prot.bits / 4 % 2 == 1)
            &&& area.map_perm.u == (request.prot.bits != 0)
            &&& bits & 0x20 == 0x20 ==> area.map_type == MapType::Framed && area.backing_file is None
            &&& bits & 0x20 == 0x20 && bits & 0x01 == 0x01 ==> area.shared_group == Some(
                request.group,
            )
            &&& bits & 0x20 == 0x20 && bits & 0x01 != 0x01 ==> area.shared_group is None
            &&& bits & 0x20 != 0x20 ==> {
                &&& area.map_type == MapType::File
                &&& area.shared_group is None
                &&& area.backing_file matches Some(file)
                &&& request.file is Some ==> file.file == request.file->Some_0.0 && file.writable
                    == request.file->Some_0.1
                &&& file.page_offset == request.offset / 4096
            }
        }),
{
    if request.addr != 0 {
        assert((request.addr + request.length) % 0x80_0000_0000 == at + request.length);
        assert(request.addr % 0x80_0000_0000 == at);
    }
}

/// Memory that is mapped shared stays shared by parent and child: after it was used and forked,
/// its page is on one frame in both, with the right to write that was asked for, and a write in
/// either gets no copy. Memory that is mapped private can be written in neither, and a write gets
/// a copy.
pub proof fn law_mapping_is_shared_or_copied(
    request: MapRequest,
    at: int,
    set: &MemorySet,
    memory_set: &PhysMemory,
    parent: &MemorySet,
    child: &MemorySet,
    memory: &PhysMemory,
    trampoline: (u64, PhysPageNum),
    i: int,
    v: u64,
)
    requires
        set.wf(memory_set),
        0 <= i < set.areas().len(),
        set.areas()[i] == request.area_at(at),
        set.areas()[i].start <= v < set.areas()[i].end,
        set.resident().contains_key(v),
        set.mapping(memory_set, v as int)->Some_0.0.flags.w == (request.prot.bits / 2 % 2 == 1),
        forked(set, memory_set, parent, child, memory, VPN_LIMIT as int, trampoline),
        child.areas() == set.areas(),
        parent.wf(memory),
        child.wf(memory),
    ensures
        parent.mapping(memory, v as int) is Some,
        child.mapping(memory, v as int) is Some,
        ({
            let mine = parent.mapping(memory, v as int)->Some_0.0;
            let theirs = child.mapping(memory, v as int)->Some_0.0;
            let asked = request.prot.bits / 2 % 2 == 1;
            &&& mine.page == theirs.page
            &&& request.flags.bits & 0x01 == 0x01 ==> {
                &&& mine.flags.w == asked
                &&& theirs.flags.w == asked
                &&& forall|after: &MemorySet, then: &PhysMemory, outcome: CowOutcome| #[trigger]
                    child.cow_handled(memory, after, then, v as int, outcome) ==> outcome is NotCow
                &&& forall|after: &MemorySet, then: &PhysMemory, outcome: CowOutcome| #[trigger]
                    parent.cow_handled(memory, after, then, v as int, outcome) ==> outcome is NotCow
            }
            &&& request.flags.bits & 0x01 != 0x01 ==> !mine.flags.w && !theirs.flags.w
            &&& request.flags.bits & 0x01 != 0x01 && asked ==> {
                &&& forall|after: &MemorySet, then: &PhysMemory, outcome: CowOutcome| #[trigger]
                    child.cow_handled(memory, after, then, v as int, outcome) ==> !(
                    outcome is NotCow)
                &&& forall|after: &MemorySet, then: &PhysMemory, outcome: CowOutcome| #[trigger]
                    parent.cow_handled(memory, after, then, v as int, outcome) ==> !(
                    outcome is NotCow)
            }
        }),
{
    law_child_has_the_rights_of_the_areas(
        set,
        memory_set,
        parent,
        child,
        memory,
        trampoline,
        i,
        v,
    );
    law_parent_loses_only_the_right_to_write(
        set,
        memory_set,
        parent,
        child,
        memory,
        trampoline,
        i,
        v,
    );
    assert(set.frame_mapped(memory_set, v));
    assert forall|after: &MemorySet, then: &PhysMemory, outcome: CowOutcome| #[trigger]
        child.cow_handled(memory, after, then, v as int, outcome) implies (outcome is NotCow) == (
    request.flags.bits & 0x01 == 0x01 || request.prot.bits / 2 % 2 != 1) by {
        law_write_gets_a_copy(child, memory, after, then, i, v, outcome);
    }
    assert forall|after: &MemorySet, then: &PhysMemory, outcome: CowOutcome| #[trigger]
        parent.cow_handled(memory, after, then, v as int, outcome) implies (outcome is NotCow) == (
    request.flags.bits & 0x01 == 0x01 || request.prot.bits / 2 % 2 != 1) by {
        law_write_gets_a_copy(parent, memory, after, then, i, v, outcome);
    }
}

} // verus!
