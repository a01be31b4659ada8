//! What the kernel may touch of a program's memory, and the areas it makes there.

use vstd::prelude::*;

use crate::mm::address::{PhysPageNum, VirtAddr, VirtPageNum};
use crate::mm::area::{areas_ok, Backing, MapArea, MapType};
use crate::mm::frame_allocator::FrameTracker;
use crate::mm::memory_set::access::{first_unready, AccessStep};
use crate::mm::memory_set::edit::{file_area, framed_area, guard_area, unheld, with_area};
use crate::mm::memory_set::pin::{last_before, PinSegment, UserSegment};
use crate::mm::memory_set::user_pin::{faulted, tried, wraps, PinStep, UserPin};
use crate::mm::memory_set::MemorySet;
use crate::mm::phys::PhysMemory;
use crate::mm::pte::MapPermission;
use crate::process::trap_area::trap_area;

verus! {

/// The page is mapped and may be read, or written where it is to be written.
pub open spec fn usable(set: &MemorySet, memory: &PhysMemory, v: int, write: bool) -> bool {
    set.mapping(memory, v) matches Some((entry, size)) && entry.flags.v && (write
        ==> entry.flags.w) && (!write ==> entry.flags.r)
}

/// The first page that cannot be used.
proof fn lemma_first_unready(
    set: &MemorySet,
    memory: &PhysMemory,
    v: int,
    last: int,
    write: bool,
)
    requires
        v <= last + 1,
    ensures
        v <= first_unready(set, memory, v, last, write) <= last + 1,
        forall|q: int|
            v <= q < first_unready(set, memory, v, last, write) ==> #[trigger] usable(
                set,
                memory,
                q,
                write,
            ),
        first_unready(set, memory, v, last, write) <= last ==> !usable(
            set,
            memory,
            first_unready(set, memory, v, last, write),
            write,
        ),
    decreases last + 1 - v,
{
    if v <= last && usable(set, memory, v, write) {
        lemma_first_unready(set, memory, v + 1, last, write);
    }
}

/// A range is ready exactly where an area holds its first page and each page of it can be used.
/// A page that is there and cannot be read is refused to a reader.
pub proof fn law_range_is_ready(
    set: &MemorySet,
    memory: &PhysMemory,
    shared: Map<u64, FrameTracker>,
    after: &MemorySet,
    memory_after: &PhysMemory,
    shared_after: Map<u64, FrameTracker>,
    first: int,
    last: int,
    sp: int,
    write: bool,
    step: AccessStep,
    k: int,
)
    requires
        set.step_taken(
            memory,
            shared,
            after,
            memory_after,
            shared_after,
            first,
            last,
            sp,
            write,
            step,
        ),
        first <= last,
    ensures
        step is Ready ==> forall|q: int|
            first <= q <= last ==> #[trigger] usable(set, memory, q, write),
        step is Ready ==> *after == *set && *memory_after == *memory,
        (forall|i: int| 0 <= i < set.areas().len() ==> !(#[trigger] set.areas()[i]).holds(first))
            ==> step is Refused && *after == *set,
        0 <= k < set.areas().len() && set.areas()[k].start <= first < set.areas()[k].end && (forall|
            q: int,
        |
            first <= q <= last ==> #[trigger] usable(set, memory, q, write)) ==> step is Ready,
{
    lemma_first_unready(set, memory, first, last, write);
    if 0 <= k < set.areas().len() && set.areas()[k].start <= first < set.areas()[k].end {
        assert(set.areas()[k].holds(first));
    }
    let v = first_unready(set, memory, first, last, write);
    if v <= last {
        assert(!usable(set, memory, v, write));
    }
}

/// The last area that starts no later than a page is the one that holds it.
proof fn lemma_last_before(s: Seq<MapArea>, v: int, k: int)
    requires
        areas_ok(s),
        0 <= k < s.len(),
        s[k].start <= v < s[k].end,
    ensures
        last_before(s, v) == Some(k),
    decreases s.len(),
{
    if k < s.len() - 1 {
        assert(s[k].end <= s[s.len() - 1].start);
        let front = s.drop_last();
        assert forall|i: int| 0 <= i < front.len() implies (#[trigger] front[i]).wf() by {
            assert(front[i] == s[i]);
        }
        assert forall|i: int, j: int| 0 <= i < j < front.len() implies (#[trigger] front[i]).start
            < (#[trigger] front[j]).start && front[i].end <= front[j].start by {
            assert(front[i] == s[i] && front[j] == s[j]);
        }
        assert(front[k] == s[k]);
        lemma_last_before(front, v, k);
    }
}

/// What may be done with a byte is what its area and its page let be done.
pub proof fn law_byte_of_an_area(
    set: &MemorySet,
    memory: &PhysMemory,
    va: int,
    end: int,
    write: bool,
    trampoline: (VirtPageNum, PhysPageNum),
    k: int,
)
    requires
        areas_ok(set.areas()),
        0 <= va < end,
        0 <= k < set.areas().len(),
        set.areas()[k].start <= va / 4096 < set.areas()[k].end,
    ensures
        set.segment_at(memory, va, end, write, trampoline) == set.segment_in(
            memory,
            set.areas()[k],
            va,
            end,
            write,
        ),
        set.areas()[k].map_type == MapType::Guard ==> !(set.segment_at(
            memory,
            va,
            end,
            write,
            trampoline,
        ) is NeedsFault),
{
    lemma_last_before(set.areas(), va / 4096, k);
    assert(set.areas()[k].holds(va / 4096));
}

/// Nothing is held of an empty stretch, nor of one below all areas for a writer.
pub proof fn law_nothing_to_hold(
    set: &MemorySet,
    memory: &PhysMemory,
    va: int,
    end: int,
    trampoline: (VirtPageNum, PhysPageNum),
)
    requires
        set.areas().len() == 0,
    ensures
        va >= end ==> set.segment_at(memory, va, end, false, trampoline) == PinSegment::Invalid,
        set.segment_at(memory, va, end, true, trampoline) == PinSegment::Invalid,
        set.mapping(memory, va / 4096) is None ==> set.segment_at(
            memory,
            va,
            end,
            false,
            trampoline,
        ) == PinSegment::Invalid,
{
}

/// A range is tried again at most eight times for pages that are missing, and at most eight times
/// in a row for pages that are on their way; then it is given up.
pub proof fn law_how_often_a_range_is_tried(
    pin: UserPin,
    set: &MemorySet,
    memory: &PhysMemory,
    trampoline: (VirtPageNum, PhysPageNum),
    after: UserPin,
    step: PinStep,
)
    requires
        tried(pin, set, memory, trampoline, after, step),
        pin.tries.faults <= 8,
        pin.tries.retries <= 8,
    ensures
        step is Again ==> after.tries.faults <= 8 && after.tries.retries <= 8,
        step is Again ==> (after.tries.faults == pin.tries.faults + 1 && after.tries.retries == 0
            && after.faulting) || (after.tries.faults == pin.tries.faults && after.tries.retries
            == pin.tries.retries + 1 && after.faulting == pin.faulting),
        step is Again ==> after.start == pin.start && after.len == pin.len && after.write
            == pin.write,
        pin.tries.faults == 8 && pin.tries.retries == 8 ==> !(step is Again),
        pin.start + pin.len > 0xffff_ffff_ffff_ffff ==> step == PinStep::GiveUp(None),
        !(step is Access),
{
}

/// Once all pages are ready the range is tried again; where an access is refused it is given up,
/// and a frame that found no use comes back.
pub proof fn law_after_a_missing_page(
    pin: UserPin,
    access: AccessStep,
    after: UserPin,
    step: PinStep,
)
    requires
        faulted(pin, access, after, step),
    ensures
        access is Ready ==> step is Again && !after.faulting && after.tries == pin.tries,
        access is Refused ==> step == PinStep::GiveUp(None),
        access matches AccessStep::OutOfFrames(frame) ==> step == PinStep::GiveUp(frame),
        access is Mapped || access is Copy || access is File ==> step == PinStep::Access(access)
            && after == pin,
{
}

/// A range that goes past the end of the numbers, or around the end of the address space, is no
/// range.
pub proof fn law_ranges_that_wrap(start: u64, len: u64)
    ensures
        wraps(start, 0) == false,
        len > 0 && start + len - 1 > 0xffff_ffff_ffff_ffff ==> wraps(start, len),
        len > 0 && start + len <= 0x80_0000_0000 ==> !wraps(start, len),
        len > 0 && start < 0x80_0000_0000 && start / 4096 > 0 && start + len - 1 == 0x80_0000_0000
            ==> wraps(start, len),
{
}

/// The area of a stretch of bytes has every page that holds one of them, and no others. Anonymous
/// memory has frames of its own, a guard can be used for nothing, a file is shared as asked.
pub proof fn law_area_of_a_stretch(
    start: int,
    end: int,
    perm: MapPermission,
    file: Backing,
    is_shared: bool,
    pages: int,
)
    requires
        0 <= start < end < 0x80_0000_0000,
        0 < pages < 0x800_0000,
        start + pages * 4096 < 0x80_0000_0000,
    ensures
        ({
            let a = framed_area(start, end, perm);
            let f = file_area(start, end, perm, file, is_shared);
            let g = guard_area(start, pages);
            &&& a.start * 4096 <= start < (a.start + 1) * 4096
            &&& (a.end - 1) * 4096 < end <= a.end * 4096
            &&& a.map_perm == perm && a.map_type == MapType::Framed && !a.is_shared
            &&& a.backing_file is None && a.shared_group is None
            &&& f.start == a.start && f.end == a.end && f.map_perm == perm
            &&& f.map_type == MapType::File && f.is_shared == is_shared && f.backing_file == Some(
                file,
            )
            &&& g.map_type == MapType::Guard
            &&& !g.map_perm.r && !g.map_perm.w && !g.map_perm.x && !g.map_perm.u
            &&& start % 4096 == 0 ==> g.end - g.start == pages && g.start * 4096 == start
        }),
{
}

/// The area in which a thread's registers are kept is the kernel's: it is read and written there,
/// and no program reaches it.
pub proof fn law_area_of_the_registers(at: VirtAddr, size: u64)
    requires
        at.0 + size < 0x80_0000_0000,
        size > 0,
    ensures
        trap_area(at, size).map_perm.r,
        trap_area(at, size).map_perm.w,
        !trap_area(at, size).map_perm.x,
        !trap_area(at, size).map_perm.u,
        trap_area(at, size).map_type == MapType::Framed,
        trap_area(at, size).start == at.0 / 4096,
        trap_area(at, size).end * 4096 >= at.0 + size,
        (trap_area(at, size).end - 1) * 4096 < at.0 + size,
{
}

/// An area that is put in leaves all others as they are.
pub proof fn law_area_is_put_in(s: Seq<MapArea>, after: Seq<MapArea>, area: MapArea, i: int)
    requires
        with_area(s, after, area),
        0 <= i < s.len(),
    ensures
        after.len() == s.len() + 1,
        after.contains(area),
        after.contains(s[i]),
{
    let k = choose|k: int| 0 <= k <= s.len() && after == #[trigger] s.insert(k, area);
    assert(after[k] == area);
    if i < k {
        assert(after[i] == s[i]);
    } else {
        assert(after[i + 1] == s[i]);
    }
}

/// Of an address space that is given up every page of an area loses its frame.
pub proof fn law_frames_of_areas_go(
    s: Seq<MapArea>,
    resident: Map<u64, FrameTracker>,
    k: int,
    v: u64,
)
    requires
        0 <= k < s.len(),
    ensures
        s[k].start <= v < s[k].end ==> !unheld(s, resident).contains_key(v),
        unheld(s, resident).contains_key(v) ==> resident.contains_key(v) && unheld(s, resident)[v]
            == resident[v],
        resident.contains_key(v) && (forall|i: int|
            0 <= i < s.len() ==> !(#[trigger] s[i]).holds(v as int)) ==> unheld(
            s,
            resident,
        ).contains_key(v),
{
    if s[k].start <= v < s[k].end {
        assert(s[k].holds(v as int));
    }
}

/// A range whose pages can all be held is held at once, without another try.
pub proof fn law_range_is_held(
    pin: UserPin,
    set: &MemorySet,
    memory: &PhysMemory,
    trampoline: (VirtPageNum, PhysPageNum),
    after: UserPin,
    step: PinStep,
)
    requires
        tried(pin, set, memory, trampoline, after, step),
        pin.start + pin.len <= 0xffff_ffff_ffff_ffff,
        set.range_whole(
            memory,
            pin.start as int,
            pin.start + pin.len,
            pin.write,
            trampoline,
        ),
    ensures
        step is Pinned,
        after == pin,
{
}

/// Of a range that is to be held the next piece starts where the last one ended, and the range is
/// whole where every piece is held up to its end.
pub proof fn law_pieces_of_a_range(
    set: &MemorySet,
    memory: &PhysMemory,
    cursor: int,
    end: int,
    write: bool,
    trampoline: (VirtPageNum, PhysPageNum),
    segment: UserSegment,
)
    requires
        0 <= cursor < end,
        set.segment_at(memory, cursor % 0x80_0000_0000, end, write, trampoline)
            == PinSegment::Pinned(segment),
        segment.len > 0,
        cursor + segment.len <= 0xffff_ffff_ffff_ffff,
    ensures
        set.range_pinned(memory, cursor, end, write, trampoline).0.len() >= 1,
        set.range_pinned(memory, cursor, end, write, trampoline).0[0] == segment,
        set.range_pinned(memory, cursor, end, write, trampoline).0 == seq![segment]
            + set.range_pinned(memory, cursor + segment.len, end, write, trampoline).0,
        set.range_whole(memory, cursor, end, write, trampoline) <==> set.range_whole(
            memory,
            cursor + segment.len,
            end,
            write,
            trampoline,
        ),
        set.range_whole(memory, end, end, write, trampoline),
{
}

} // verus!
