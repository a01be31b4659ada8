//! Ranges of memory: mapped, unmapped, given up, with other rights, and touched.

use vstd::prelude::*;

use crate::errno::Errno;
use crate::mm::area::{areas_ok, gap, max_of, MapArea, MapType};
use crate::mm::frame_allocator::FrameTracker;
use crate::mm::address::VirtAddr;
use crate::mm::memory_set::edit::starting;
use crate::mm::memory_set::heap::{break_moved, heap_cuts, heap_top};
use crate::mm::memory_set::resize::{appended_to, shrunk_to};
use crate::mm::memory_set::{
    first_holding, frames_in, given_up, growing, grows, lemma_holder, mapped, protected, range_problem, stretched,
    unmapped, unshared, writebacks, writebacks_of, FaultKind, FaultOutcome, MapRequest, MemorySet,
    Released, SharedPages, UserLayout,
};
use crate::mm::mmap::{
    MMapProt, MAP_ANONYMOUS, MAP_FIXED, MAP_PRIVATE, MAP_SHARED, MAP_SHARED_VALIDATE, PROT_EXEC,
    PROT_READ, PROT_WRITE,
};
use crate::mm::phys::PhysMemory;

verus! {

/// Page `v` holds a byte of the range, in an address space of 2^39 bytes.
pub open spec fn touched(start: u64, length: u64, v: int) -> bool {
    &&& (v + 1) * 4096 > start as int % 0x80_0000_0000
    &&& v * 4096 < (start + length) % 0x80_0000_0000
}

/// A frame is that of a page from `a` to `b`.
pub open spec fn frame_of(
    resident: Map<u64, FrameTracker>,
    a: int,
    b: int,
    frame: FrameTracker,
) -> bool {
    exists|v: u64| a <= v < b && #[trigger] resident.contains_key(v) && resident[v] == frame
}

/// The frames of a stretch of pages are the frames of its pages.
proof fn lemma_frames_in(resident: Map<u64, FrameTracker>, a: int, b: int)
    requires
        0 <= a,
        b <= 0x1_0000_0000_0000_0000,
    ensures
        forall|v: u64|
            a <= v < b && #[trigger] resident.contains_key(v) ==> frames_in(
                resident,
                a,
                b,
            ).contains(resident[v]),
        forall|i: int|
            0 <= i < frames_in(resident, a, b).len() ==> frame_of(
                resident,
                a,
                b,
                #[trigger] frames_in(resident, a, b)[i],
            ),
    decreases b - a,
{
    if a < b {
        lemma_frames_in(resident, a, b - 1);
        let front = frames_in(resident, a, b - 1);
        let all = frames_in(resident, a, b);
        assert forall|v: u64|
            a <= v < b && #[trigger] resident.contains_key(v) implies all.contains(resident[v]) by {
            if v == b - 1 {
                assert(all[all.len() - 1] == resident[v]);
            } else {
                assert(front.contains(resident[v]));
                let k = choose|k: int| 0 <= k < front.len() && front[k] == resident[v];
                assert(all[k] == resident[v]);
            }
        }
        assert forall|i: int| 0 <= i < all.len() implies frame_of(
            resident,
            a,
            b,
            #[trigger] all[i],
        ) by {
            if i < front.len() {
                assert(all[i] == front[i]);
                assert(frame_of(resident, a, b - 1, front[i]));
                let v = choose|v: u64|
                    a <= v < b - 1 && #[trigger] resident.contains_key(v) && resident[v]
                        == front[i];
                assert(resident.contains_key(v));
            } else {
                assert(resident.contains_key((b - 1) as u64));
            }
        }
    }
}

/// After a range was unmapped none of its pages is there, has a frame or can be reached. Every
/// other page is as it was.
pub proof fn law_unmapped_pages(
    before: &MemorySet,
    memory: &PhysMemory,
    after: &MemorySet,
    memory_after: &PhysMemory,
    start: u64,
    length: u64,
    released: Released,
    v: u64,
)
    requires
        unmapped(before, memory, after, memory_after, start, length, released),
        v < 0x800_0000,
    ensures
        touched(start, length, v as int) ==> {
            &&& after.page(v as int) is None
            &&& !after.resident().contains_key(v)
            &&& before.resident().contains_key(v) ==> after.mapping(memory_after, v as int) is None
        },
        !touched(start, length, v as int) ==> {
            &&& after.page(v as int) == before.page(v as int)
            &&& after.resident().contains_key(v) <==> before.resident().contains_key(v)
            &&& before.resident().contains_key(v) ==> after.resident()[v] == before.resident()[v]
            &&& after.mapping(memory_after, v as int) == before.mapping(memory, v as int)
        },
{
}

/// The frames of an unmapped range are handed back, all of them and no others.
pub proof fn law_unmapped_frames(
    before: &MemorySet,
    memory: &PhysMemory,
    after: &MemorySet,
    memory_after: &PhysMemory,
    start: u64,
    length: u64,
    released: Released,
)
    requires
        unmapped(before, memory, after, memory_after, start, length, released),
    ensures
        forall|v: u64| #[trigger]
            before.resident().contains_key(v) && touched(start, length, v as int)
                ==> released.frames@.contains(before.resident()[v]),
        forall|i: int|
            0 <= i < released.frames@.len() ==> frame_of(
                before.resident(),
                start as int % 0x80_0000_0000 / 4096,
                ((start + length) % 0x80_0000_0000 + 4095) / 4096,
                #[trigger] released.frames@[i],
            ),
{
    let a = start as int % 0x80_0000_0000 / 4096;
    let b = ((start + length) % 0x80_0000_0000 + 4095) / 4096;
    lemma_frames_in(before.resident(), a, b);
    assert(released.frames@ == frames_in(before.resident(), a, b));
    assert forall|v: u64| #[trigger]
        before.resident().contains_key(v) && touched(
            start,
            length,
            v as int,
        ) implies released.frames@.contains(before.resident()[v]) by {
        assert(a <= v < b);
    }
}

/// The pages of files that lie in a stretch, area by area.
proof fn lemma_writebacks(s: Seq<MapArea>, a: int, b: int, k: int, v: int)
    requires
        0 <= k < s.len(),
        s[k].start <= v < s[k].end,
        a <= v < b,
        s[k].is_shared,
        s[k].map_type != MapType::Guard,
        s[k].backing_file is Some,
    ensures
        writebacks(s, a, b).contains(
            (
                s[k].backing_file->Some_0.file,
                (s[k].backing_file->Some_0.page_offset + (v - s[k].start)) as u64,
            ),
        ),
    decreases s.len(),
{
    let page = (
        s[k].backing_file->Some_0.file,
        (s[k].backing_file->Some_0.page_offset + (v - s[k].start)) as u64,
    );
    let front = writebacks(s.drop_last(), a, b);
    let last = writebacks_of(s.last(), a, b);
    let all = writebacks(s, a, b);
    assert(all == front + last);
    if k == s.len() - 1 {
        let at = v - max_of(a, s[k].start as int);
        assert(last[at] == page);
        assert(all[front.len() + at] == page);
    } else {
        assert(s.drop_last()[k] == s[k]);
        lemma_writebacks(s.drop_last(), a, b, k, v);
        let i = choose|i: int| 0 <= i < front.len() && front[i] == page;
        assert(all[i] == page);
    }
}

/// A page of a file that was shared and is unmapped goes back to its place in the file.
pub proof fn law_unmapped_files(
    before: &MemorySet,
    memory: &PhysMemory,
    after: &MemorySet,
    memory_after: &PhysMemory,
    start: u64,
    length: u64,
    released: Released,
    k: int,
    v: int,
)
    requires
        unmapped(before, memory, after, memory_after, start, length, released),
        0 <= k < before.areas().len(),
        before.areas()[k].start <= v < before.areas()[k].end,
        before.areas()[k].is_shared,
        before.areas()[k].map_type == MapType::File,
        before.areas()[k].backing_file is Some,
        touched(start, length, v),
    ensures
        ({
            let file = before.areas()[k].backing_file->Some_0;
            released.writebacks@.contains(
                (file.file, (file.page_offset + (v - before.areas()[k].start)) as u64),
            )
        }),
{
    let a = start as int % 0x80_0000_0000 / 4096;
    let b = ((start + length) % 0x80_0000_0000 + 4095) / 4096;
    lemma_writebacks(before.areas(), a, b, k, v);
}

/// To give up the contents of a range takes the frames of its pages, and leaves the pages there
/// and all others alone. A range that goes past the end of the numbers is refused.
pub proof fn law_given_up_pages(
    before: &MemorySet,
    memory: &PhysMemory,
    after: &MemorySet,
    memory_after: &PhysMemory,
    start: u64,
    length: u64,
    done: Result<Released, Errno>,
    v: u64,
)
    requires
        given_up(before, memory, after, memory_after, start, length, done),
        v < 0x800_0000,
    ensures
        done is Err <==> start + length > 0xffff_ffff_ffff_ffff,
        done is Err ==> done->Err_0 == Errno::EINVAL && *after == *before,
        after.areas() == before.areas(),
        done is Ok && touched(start, length, v as int) ==> {
            &&& !after.resident().contains_key(v)
            &&& before.resident().contains_key(v) ==> after.mapping(memory_after, v as int) is None
        },
        done is Ok && !touched(start, length, v as int) ==> {
            &&& after.resident().contains_key(v) <==> before.resident().contains_key(v)
            &&& before.resident().contains_key(v) ==> after.resident()[v] == before.resident()[v]
            &&& after.mapping(memory_after, v as int) == before.mapping(memory, v as int)
        },
{
}

/// What a range of areas lacks for new rights.
proof fn lemma_range_problem(s: Seq<MapArea>, a: int, b: int, write: bool, i: int, covered: int)
    requires
        0 <= i,
    ensures
        match range_problem(s, a, b, write, i, covered) {
            None => forall|k: int|
                i <= k < s.len() && (#[trigger] s[k]).start < b && s[k].end > a ==> {
                    &&& s[k].map_type != MapType::Guard
                    &&& write && s[k].is_shared && s[k].backing_file is Some
                        ==> s[k].backing_file->Some_0.writable
                },
            Some(e) => {
                ||| e == Errno::ENOMEM
                ||| e == Errno::EACCES && write && exists|k: int|
                    i <= k < s.len() && (#[trigger] s[k]).start < b && s[k].end > a
                        && s[k].is_shared && s[k].backing_file is Some
                        && !s[k].backing_file->Some_0.writable
            },
        },
    decreases s.len() - i,
{
    if i < s.len() {
        lemma_range_problem(s, a, b, write, i + 1, covered);
        lemma_range_problem(s, a, b, write, i + 1, max_of(covered, s[i].end as int));
    }
}

/// A range gets new rights whole or not at all. Where it gets them, each of its pages may be read,
/// written and executed as bits 1, 2 and 4 say, and reached by the program unless all are clear;
/// nothing else of a page changes, and nothing of the other pages.
pub proof fn law_rights_of_pages(
    before: &MemorySet,
    memory: &PhysMemory,
    after: &MemorySet,
    memory_after: &PhysMemory,
    start: u64,
    length: u64,
    prot: MMapProt,
    done: Result<bool, Errno>,
    v: u64,
)
    requires
        protected(before, memory, after, memory_after, start, length, prot, done),
        before.wf(memory),
        v < 0x800_0000,
    ensures
        done is Err ==> *after == *before && *memory_after == *memory,
        !touched(start, length, v as int) ==> after.page(v as int) == before.page(v as int),
        !touched(start, length, v as int) && before.resident().contains_key(v) ==> after.mapping(
            memory_after,
            v as int,
        ) == before.mapping(memory, v as int),
        done is Ok && length != 0 && touched(start, length, v as int) && before.page(v as int)
            is Some ==> {
            let was = before.page(v as int)->Some_0;
            &&& after.page(v as int) is Some
            &&& after.page(v as int)->Some_0.perm.r == (prot.bits % 2 == 1)
            &&& after.page(v as int)->Some_0.perm.w == (prot.bits / 2 % 2 == 1)
            &&& after.page(v as int)->Some_0.perm.x == (prot.bits / 4 % 2 == 1)
            &&& after.page(v as int)->Some_0.perm.u == (prot.bits != 0)
            &&& after.page(v as int)->Some_0.map_type == was.map_type
            &&& after.page(v as int)->Some_0.shared == was.shared
            &&& after.page(v as int)->Some_0.file == was.file
            &&& after.page(v as int)->Some_0.file_writable == was.file_writable
            &&& after.page(v as int)->Some_0.group == was.group
        },
        done is Ok && length != 0 && touched(start, length, v as int) && before.resident().contains_key(
            v,
        ) ==> {
            let entry = after.mapping(memory_after, v as int)->Some_0.0;
            &&& after.mapping(memory_after, v as int) is Some
            &&& entry.page == before.resident()[v].ppn
            &&& entry.flags.v
            &&& entry.flags.r == (prot.bits % 2 == 1)
            &&& entry.flags.w == (prot.bits / 2 % 2 == 1)
            &&& entry.flags.x == (prot.bits / 4 % 2 == 1)
            &&& entry.flags.u == (prot.bits != 0)
        },
{
    if before.resident().contains_key(v) {
        assert(before.frame_mapped(memory, v));
    }
}

/// New rights are refused for three reasons: the range goes past the end of the numbers; a page
/// of it is not there or may never be used; a right to write is asked for on a shared file that
/// may not be written.
pub proof fn law_rights_refused(
    before: &MemorySet,
    memory: &PhysMemory,
    after: &MemorySet,
    memory_after: &PhysMemory,
    start: u64,
    length: u64,
    prot: MMapProt,
    done: Result<bool, Errno>,
)
    requires
        protected(before, memory, after, memory_after, start, length, prot, done),
    ensures
        length == 0 ==> done == Ok::<bool, Errno>(false),
        done == Err::<bool, Errno>(Errno::EINVAL) <==> length != 0 && start + length
            > 0xffff_ffff_ffff_ffff,
        done matches Err(e) ==> e == Errno::EINVAL || e == Errno::ENOMEM || e == Errno::EACCES,
        done == Err::<bool, Errno>(Errno::EACCES) ==> prot.bits / 2 % 2 == 1 && exists|k: int|
            0 <= k < before.areas().len() && (#[trigger] before.areas()[k]).is_shared
                && before.areas()[k].backing_file is Some
                && !before.areas()[k].backing_file->Some_0.writable,
        done is Ok && length != 0 && prot.bits / 2 % 2 == 1 ==> forall|k: int|
            0 <= k < before.areas().len() && (#[trigger] before.areas()[k]).is_shared
                && before.areas()[k].backing_file is Some && touched(
                start,
                length,
                before.areas()[k].start as int,
            ) && before.areas()[k].start < before.areas()[k].end
                ==> before.areas()[k].backing_file->Some_0.writable,
{
    let s = before.areas();
    let a = start as int % 0x80_0000_0000 / 4096;
    let b = ((start + length) % 0x80_0000_0000 + 4095) / 4096;
    lemma_range_problem(s, a, b, prot.bits / 2 % 2 == 1, 0, a);
}

/// New rights ask for old translations to be thrown away exactly where an area that the range
/// meets loses a right.
pub proof fn law_rights_lost(
    before: &MemorySet,
    memory: &PhysMemory,
    after: &MemorySet,
    memory_after: &PhysMemory,
    start: u64,
    length: u64,
    prot: MMapProt,
    done: Result<bool, Errno>,
    k: int,
)
    requires
        protected(before, memory, after, memory_after, start, length, prot, done),
        done is Ok,
        length != 0,
        0 <= k < before.areas().len(),
        before.areas()[k].start * 4096 < (start + length) % 0x80_0000_0000,
        before.areas()[k].end * 4096 > start as int % 0x80_0000_0000,
        ({
            ||| before.areas()[k].map_perm.r && prot.bits % 2 == 0
            ||| before.areas()[k].map_perm.w && prot.bits / 2 % 2 == 0
            ||| before.areas()[k].map_perm.x && prot.bits / 4 % 2 == 0
            ||| before.areas()[k].map_perm.u && prot.bits == 0
        }),
    ensures
        done == Ok::<bool, Errno>(true),
{
    assert(before.areas()[k].start < ((start + length) % 0x80_0000_0000 + 4095) / 4096);
    assert(before.areas()[k].end > start as int % 0x80_0000_0000 / 4096);
}

/// A range that is to be shared no more keeps its pages, each with its own rights and file.
pub proof fn law_unshared_pages(
    before: &MemorySet,
    memory: &PhysMemory,
    after: &MemorySet,
    start: u64,
    length: u64,
    done: Result<(), Errno>,
    v: u64,
)
    requires
        unshared(before, memory, after, start, length, done),
    ensures
        done is Err || length == 0 ==> after.areas() == before.areas(),
        done == Err::<(), Errno>(Errno::EINVAL) <==> length != 0 && start + length
            > 0xffff_ffff_ffff_ffff,
        !touched(start, length, v as int) ==> after.page(v as int) == before.page(v as int),
        done is Ok && length != 0 && touched(start, length, v as int) && before.page(v as int)
            is Some ==> {
            let was = before.page(v as int)->Some_0;
            &&& after.page(v as int) is Some
            &&& !after.page(v as int)->Some_0.shared
            &&& after.page(v as int)->Some_0.perm == was.perm
            &&& after.page(v as int)->Some_0.map_type == was.map_type
            &&& after.page(v as int)->Some_0.file == was.file
        },
        after.resident() == before.resident(),
        after.table() == before.table(),
{
    lemma_range_problem(
        before.areas(),
        start as int % 0x80_0000_0000 / 4096,
        ((start + length) % 0x80_0000_0000 + 4095) / 4096,
        false,
        0,
        start as int % 0x80_0000_0000 / 4096,
    );
}

/// A gap is the lowest free stretch from a place on: it lies there or higher, below the limit, and
/// where any stretch is free one is found that lies no higher.
pub proof fn law_gap_is_the_lowest(s: Seq<MapArea>, from: int, length: int, limit: int, x: int)
    requires
        areas_ok(s),
        x >= from,
        x + length < limit,
        length > 0,
        forall|i: int|
            0 <= i < s.len() ==> x + length <= (#[trigger] s[i]).start * 4096 || x >= s[i].end
                * 4096,
    ensures
        gap(s, from, length, limit) is Some,
        from <= gap(s, from, length, limit)->Some_0 <= x,
    decreases s.len(),
{
    if s.len() > 0 && from + length > s[0].start * 4096 {
        let rest = s.drop_first();
        assert forall|i: int| 0 <= i < rest.len() implies (#[trigger] rest[i]).wf() && (x + length
            <= rest[i].start * 4096 || x >= rest[i].end * 4096) by {
            assert(rest[i] == s[i + 1]);
        }
        assert forall|i: int, j: int| 0 <= i < j < rest.len() implies (#[trigger] rest[i]).start < (
        #[trigger] rest[j]).start && rest[i].end <= rest[j].start by {
            assert(rest[i] == s[i + 1] && rest[j] == s[j + 1]);
        }
        assert(x >= s[0].end * 4096);
        law_gap_is_the_lowest(rest, max_of(from, s[0].end * 4096), length, limit, x);
    }
}

/// A gap meets no area, byte for byte, and ends at an area or below the limit.
pub proof fn law_gap_meets_nothing(s: Seq<MapArea>, from: int, length: int, limit: int, k: int)
    requires
        areas_ok(s),
        length > 0,
        gap(s, from, length, limit) is Some,
        0 <= k < s.len(),
    ensures
        ({
            let at = gap(s, from, length, limit)->Some_0;
            &&& at >= from
            &&& at + length <= s[k].start * 4096 || at >= s[k].end * 4096
            &&& at + length < limit || exists|i: int|
                0 <= i < s.len() && at + length <= (#[trigger] s[i]).start * 4096
        }),
    decreases s.len(),
{
    if from + length > s[0].start * 4096 {
        let rest = s.drop_first();
        let next = max_of(from, s[0].end * 4096);
        assert forall|i: int| 0 <= i < rest.len() implies (#[trigger] rest[i]).wf() by {
            assert(rest[i] == s[i + 1]);
        }
        assert forall|i: int, j: int| 0 <= i < j < rest.len() implies (#[trigger] rest[i]).start < (
        #[trigger] rest[j]).start && rest[i].end <= rest[j].start by {
            assert(rest[i] == s[i + 1] && rest[j] == s[j + 1]);
        }
        if rest.len() > 0 {
            let j = if k > 0 {
                k - 1
            } else {
                0
            };
            law_gap_meets_nothing(rest, next, length, limit, j);
            let at = gap(s, from, length, limit)->Some_0;
            assert(rest[j] == s[j + 1]);
            if at + length >= limit {
                let i = choose|i: int|
                    0 <= i < rest.len() && at + length <= (#[trigger] rest[i]).start * 4096;
                assert(s[i + 1] == rest[i]);
            }
        }
    } else {
        assert(s[0].start <= s[k].start);
    }
}

/// A mapping is made where it is asked for. Bit 0x20 of its flags says that it has no file, and
/// without that bit one must be given. At a given place that is taken it is refused, unless bit
/// 0x10 says that it takes the place of what is there. Where no place is given, it lies in the
/// upper half of what programs have and meets nothing.
pub proof fn law_place_of_a_mapping(
    before: &MemorySet,
    memory: &PhysMemory,
    after: &MemorySet,
    memory_after: &PhysMemory,
    request: MapRequest,
    layout: UserLayout,
    outcome: (Result<u64, Errno>, Released),
)
    requires
        mapped(before, memory, after, memory_after, request, layout, outcome),
        before.wf(memory),
        layout.wf(),
    ensures
        outcome.0 == Err::<u64, Errno>(Errno::EBADF) <==> request.flags.bits & 0x20 != 0x20
            && request.file is None,
        outcome.0 matches Err(e) ==> e == Errno::EBADF || e == Errno::EEXIST,
        outcome.0 is Ok && request.addr != 0 ==> outcome.0 == Ok::<u64, Errno>(request.addr),
        outcome.0 matches Ok(at) ==> request.addr == 0 && request.length > 0 ==> {
            &&& 2 * at + 1 >= layout.app_base + layout.app_max
            &&& forall|k: int|
                0 <= k < before.areas().len() ==> at + request.length <= (
                #[trigger] before.areas()[k]).start * 4096 || at >= before.areas()[k].end * 4096
        },
        request.addr != 0 && request.flags.bits & 0x10 != 0x10 && (exists|k: int|
            0 <= k < before.areas().len() && touched(
                request.addr,
                request.length,
                (#[trigger] before.areas()[k]).start as int,
            ) && before.areas()[k].start < before.areas()[k].end) ==> outcome.0 is Err,
        request.flags.bits & 0x10 != 0x10 ==> {
            &&& outcome.1.frames@.len() == 0
            &&& after.resident() == before.resident()
        },
{
    let s = before.areas();
    let base = layout.app_base + (layout.app_max - layout.app_base) / 2;
    if request.addr == 0 && request.length > 0 && outcome.0 is Ok {
        assert forall|k: int| 0 <= k < s.len() implies outcome.0->Ok_0 + request.length <= (
        #[trigger] s[k]).start * 4096 || outcome.0->Ok_0 >= s[k].end * 4096 by {
            law_gap_meets_nothing(s, base, request.length as int, layout.app_max as int, k);
        }
        if s.len() > 0 {
            law_gap_meets_nothing(s, base, request.length as int, layout.app_max as int, 0);
        }
    }
    if request.addr != 0 && request.flags.bits & 0x10 != 0x10 && (exists|k: int|
        0 <= k < s.len() && touched(
            request.addr,
            request.length,
            (#[trigger] s[k]).start as int,
        ) && s[k].start < s[k].end) {
        let k = choose|k: int|
            0 <= k < s.len() && touched(
                request.addr,
                request.length,
                (#[trigger] s[k]).start as int,
            ) && s[k].start < s[k].end;
        assert(s[k].start < ((request.addr + request.length) % 0x80_0000_0000 + 4095) / 4096);
        assert(request.addr as int % 0x80_0000_0000 / 4096 < s[k].end);
        assert(request.collides(s));
    }
}

/// The pages of a new mapping are as asked for, from its place on, and all others are as they
/// were.
pub proof fn law_pages_of_a_mapping(
    before: &MemorySet,
    memory: &PhysMemory,
    after: &MemorySet,
    memory_after: &PhysMemory,
    request: MapRequest,
    layout: UserLayout,
    outcome: (Result<u64, Errno>, Released),
    v: int,
)
    requires
        mapped(before, memory, after, memory_after, request, layout, outcome),
        outcome.0 is Ok,
        outcome.0->Ok_0 + request.length < 0x80_0000_0000,
        0 <= v < 0x800_0000,
    ensures
        !touched(outcome.0->Ok_0, request.length, v) ==> after.page(v) == before.page(v),
        touched(outcome.0->Ok_0, request.length, v) ==> {
            let page = after.page(v)->Some_0;
            &&& after.page(v) is Some
            &&& page.shared == (request.flags.bits & 0x01 == 0x01)
            &&& page.perm.r == (request.prot.bits % 2 == 1)
            &&& page.perm.w == (request.prot.bits / 2 % 2 == 1)
            &&& page.perm.x == (request.prot.bits / 4 % 2 == 1)
            &&& page.perm.u == (request.prot.bits != 0)
            &&& request.flags.bits & 0x20 == 0x20 ==> page.file is None && page.map_type
                == MapType::Framed
            &&& request.flags.bits & 0x20 != 0x20 ==> page.map_type == MapType::File && page.file
                == Some(
                (
                    request.file->Some_0.0,
                    request.offset as int / 4096 + (v - outcome.0->Ok_0 as int / 4096),
                ),
            )
            &&& request.flags.bits & 0x20 != 0x20 ==> page.file_writable
                == request.file->Some_0.1
        },
{
}

/// A mapping grows where it is only as far as nothing is behind it; it stays at its address, and
/// nothing of what it holds changes.
pub proof fn law_stretched_in_place(
    before: &MemorySet,
    memory: &PhysMemory,
    after: &MemorySet,
    old_addr: u64,
    old_size: u64,
    new_size: u64,
    done: Result<u64, Errno>,
    k: int,
)
    requires
        stretched(before, memory, after, old_addr, old_size, new_size, done),
        old_size < new_size,
        0 <= k < before.areas().len(),
    ensures
        done matches Ok(at) ==> at == old_addr,
        done matches Err(e) ==> e == Errno::ENOMEM && after.areas() == before.areas(),
        before.areas()[k].start * 4096 < old_addr + new_size && before.areas()[k].end * 4096
            > old_addr + old_size && (old_addr + old_size) % 4096 == 0 ==> done is Err,
        after.resident() == before.resident(),
        after.table() == before.table(),
        after.brk() == before.brk(),
        after.heap_start() == before.heap_start(),
{
}

/// The end of the heap is told where no place is given, and never goes below the heap's start.
/// Where it moves, it moves to the place that was asked for; where it does not, it stays.
pub proof fn law_end_of_the_heap(
    before: &MemorySet,
    memory: &PhysMemory,
    shared: &SharedPages,
    after: &MemorySet,
    memory_after: &PhysMemory,
    shared_after: &SharedPages,
    addr: u64,
    outcome: (Result<u64, Errno>, Released, Option<(u64, u64)>),
)
    requires
        break_moved(before, memory, shared, after, memory_after, shared_after, addr, outcome),
        before.heap_ok(),
    ensures
        after.heap_start() == before.heap_start(),
        after.heap_start() <= after.brk(),
        addr == 0 ==> outcome.0 == Ok::<u64, Errno>(before.brk()) && after.brk() == before.brk(),
        addr != 0 && addr < before.heap_start() ==> outcome.0 == Err::<u64, Errno>(Errno::ENOMEM)
            && *after == *before,
        outcome.0 matches Ok(at) ==> addr != 0 ==> at == addr,
        outcome.0 matches Ok(at) ==> addr != 0 && addr < 0x80_0000_0000 && before.brk()
            < 0x80_0000_0000 ==> after.brk() == addr,
        outcome.0 matches Err(e) ==> e == Errno::ENOMEM && after.brk() == before.brk(),
{
}

/// Pages that a heap without areas gains may be read and written and not executed.
pub proof fn law_pages_of_the_heap(
    before: &MemorySet,
    memory: &PhysMemory,
    shared: &SharedPages,
    after: &MemorySet,
    memory_after: &PhysMemory,
    shared_after: &SharedPages,
    addr: u64,
    outcome: (Result<u64, Errno>, Released, Option<(u64, u64)>),
    v: int,
)
    requires
        break_moved(before, memory, shared, after, memory_after, shared_after, addr, outcome),
        before.wf(memory),
        before.heap_start() <= before.brk() < addr < 0x80_0000_0000,
        outcome.0 is Ok,
        forall|k: int|
            0 <= k < before.areas().len() ==> (#[trigger] before.areas()[k]).start
                < before.areas()[k].end <= before.heap_start() / 4096,
        before.brk() <= v * 4096 < addr,
    ensures
        after.mapping(memory_after, v) is Some,
        after.mapping(memory_after, v)->Some_0.0.flags.r,
        after.mapping(memory_after, v)->Some_0.0.flags.w,
        after.mapping(memory_after, v)->Some_0.0.flags.u,
        !after.mapping(memory_after, v)->Some_0.0.flags.x,
        after.mapping(memory_after, v)->Some_0.0.flags.v,
        after.resident().contains_key(v as u64),
        after.mapping(memory_after, v)->Some_0.0.page == after.resident()[v as u64].ppn,
{
    let from = (before.brk() as int % 0x80_0000_0000 + 4095) / 4096;
    let heap = (before.heap_start() as int % 0x80_0000_0000 + 4095) / 4096;
    lemma_no_heap(before.areas(), from, heap, 0);
}

/// An area that ends at the end of the heap and starts in it has no pages, where all areas end at
/// the start of the heap.
proof fn lemma_no_heap(s: Seq<MapArea>, from: int, heap: int, i: int)
    requires
        0 <= i,
        from >= heap,
        forall|k: int| 0 <= k < s.len() ==> (#[trigger] s[k]).start < s[k].end <= heap,
    ensures
        heap_top(s, from, heap, i) is None,
    decreases s.len() - i,
{
    if i < s.len() {
        lemma_no_heap(s, from, heap, i + 1);
    }
}

/// Area `k` may grow down to page `v`: it is not kept off, it is at most 32 pages above, as is the
/// stack pointer, and the area before it does not reach the page.
pub open spec fn near(s: Seq<MapArea>, v: int, sp: int, k: int) -> bool {
    &&& s[k].map_type != MapType::Guard
    &&& 0 < s[k].start - v <= 32
    &&& 0 <= sp - v <= 32
    &&& k > 0 ==> s[k - 1].end <= v
}

/// Which area grows down to a page.
proof fn lemma_growing(s: Seq<MapArea>, v: int, sp: int, i: int)
    requires
        0 <= i,
    ensures
        match growing(s, v, sp, i) {
            Some(k) => i <= k < s.len() && near(s, v, sp, k),
            None => forall|k: int| i <= k < s.len() ==> !#[trigger] near(s, v, sp, k),
        },
    decreases s.len() - i,
{
    if i < s.len() {
        lemma_growing(s, v, sp, i + 1);
        assert(grows(s, v, sp, i) == near(s, v, sp, i));
    }
}

/// A page of no area is brought in only below an area that is not kept off, where both the area
/// and the stack pointer are at most 32 pages above it.
pub proof fn law_stack_grows_down(set: &MemorySet, memory: &PhysMemory, v: int, sp: int)
    requires
        forall|k: int| 0 <= k < set.areas().len() ==> !(#[trigger] set.areas()[k]).holds(v),
    ensures
        match set.fault_kind(memory, v, sp) {
            FaultKind::Refuse => forall|k: int|
                0 <= k < set.areas().len() ==> !#[trigger] near(set.areas(), v, sp, k),
            FaultKind::Grow(k) => {
                &&& 0 <= k < set.areas().len()
                &&& near(set.areas(), v, sp, k)
                &&& set.areas()[k].map_type != MapType::File
            },
            FaultKind::GrowFile(k) => {
                &&& 0 <= k < set.areas().len()
                &&& near(set.areas(), v, sp, k)
                &&& set.areas()[k].map_type == MapType::File
            },
            _ => false,
        },
{
    lemma_growing(set.areas(), v, sp, 0);
}

/// A page of an area that is not mapped is brought in where the program may read, write or
/// execute it, in the way of its area; it is refused where the area is kept off, where the program
/// may do nothing with it, and where it is mapped already.
pub proof fn law_page_of_an_area(set: &MemorySet, memory: &PhysMemory, k: int, v: int, sp: int)
    requires
        areas_ok(set.areas()),
        0 <= k < set.areas().len(),
        set.areas()[k].start <= v < set.areas()[k].end,
    ensures
        ({
            let area = set.areas()[k];
            let usable = area.map_type != MapType::Guard && area.map_perm.u && (area.map_perm.r
                || area.map_perm.w || area.map_perm.x) && set.mapping(memory, v) is None;
            match set.fault_kind(memory, v, sp) {
                FaultKind::Refuse => !usable || area.map_type != MapType::Framed
                    && area.backing_file is None,
                FaultKind::Frame(i) => i == k && usable && area.map_type == MapType::Framed,
                FaultKind::SharedFile(i) => i == k && usable && area.map_type != MapType::Framed
                    && area.backing_file is Some && area.is_shared,
                FaultKind::PrivateFile(i) => i == k && usable && area.map_type != MapType::Framed
                    && area.backing_file is Some && !area.is_shared,
                _ => false,
            }
        }),
{
    assert(set.areas()[k].holds(v));
    lemma_holder(set.areas(), k, v);
}

/// A page of a shared file is brought from the place of the file that it stands for. Of a file
/// that is not shared at most 64 pages are read at once, from that place on and no further than
/// the area goes, each into a frame of its own.
pub proof fn law_page_of_a_file(
    set: &MemorySet,
    memory: &PhysMemory,
    shared: Map<u64, FrameTracker>,
    after: &MemorySet,
    memory_after: &PhysMemory,
    shared_after: Map<u64, FrameTracker>,
    k: int,
    v: int,
    sp: int,
    outcome: FaultOutcome,
)
    requires
        set.wf(memory),
        set.fault_handled(memory, shared, after, memory_after, shared_after, v, sp, outcome),
        0 <= k < set.areas().len(),
        set.areas()[k].start <= v < set.areas()[k].end,
    ensures
        outcome matches FaultOutcome::SharedFilePage(file, page) ==> {
            let backing = set.areas()[k].backing_file->Some_0;
            &&& set.areas()[k].is_shared
            &&& file == backing.file
            &&& page == backing.page_offset + (v - set.areas()[k].start)
        },
        outcome matches FaultOutcome::FilePages(file, at, frames) ==> {
            let backing = set.areas()[k].backing_file->Some_0;
            &&& !set.areas()[k].is_shared
            &&& file == backing.file
            &&& at == (backing.page_offset + (v - set.areas()[k].start)) * 4096
            &&& 1 <= frames@.len() <= 64
            &&& v + frames@.len() <= set.areas()[k].end
            &&& forall|i: int, j: int|
                0 <= i < j < frames@.len() ==> (#[trigger] frames@[i]).ppn != (
                #[trigger] frames@[j]).ppn
        },
        !(outcome is GrownFile),
{
    law_page_of_an_area(set, memory, k, v, sp);
    assert(set.areas()[k].wf());
}

/// How a program asks for memory: to read is 1, to write 2, to execute 4; shared is 1, of its own
/// 2, at its place 0x10, and without a file 0x20.
pub proof fn law_bits_of_a_request()
    ensures
        PROT_READ == 1 && PROT_WRITE == 2 && PROT_EXEC == 4,
        MAP_SHARED == 0x01 && MAP_PRIVATE == 0x02 && MAP_SHARED_VALIDATE == 0x03,
        MAP_FIXED == 0x10 && MAP_ANONYMOUS == 0x20,
{
}

/// The area that starts at a page.
proof fn lemma_starting(s: Seq<MapArea>, v: int, i: int, k: int)
    requires
        areas_ok(s),
        0 <= i <= k < s.len(),
        s[k].start == v,
    ensures
        starting(s, v, i) == Some(k),
    decreases k - i,
{
    if i < k {
        assert(s[i].start < s[k].start);
        lemma_starting(s, v, i + 1, k);
    }
}

/// An area that ends earlier loses the frames of the pages behind its new end, and nothing else
/// changes: not its start, its rights, nor any other area.
pub proof fn law_area_ends_earlier(
    before: &MemorySet,
    memory: &PhysMemory,
    after: &MemorySet,
    memory_after: &PhysMemory,
    start: VirtAddr,
    new_end: VirtAddr,
    frames: Option<Vec<FrameTracker>>,
    k: int,
    i: int,
    v: u64,
)
    requires
        shrunk_to(before, memory, after, memory_after, start, new_end, frames),
        before.wf(memory),
        0 <= k < before.areas().len(),
        before.areas()[k].start == start.0 / 4096,
        0 <= i < before.areas().len(),
        v < 0x800_0000,
        new_end.0 < 0x80_0000_0000,
    ensures
        frames is Some,
        after.areas().len() == before.areas().len(),
        after.areas()[k].start == before.areas()[k].start,
        after.areas()[k].map_perm == before.areas()[k].map_perm,
        after.areas()[k].map_type == before.areas()[k].map_type,
        after.areas()[k].end * 4096 >= new_end.0,
        (after.areas()[k].end - 1) * 4096 < new_end.0,
        i != k ==> after.areas()[i] == before.areas()[i],
        new_end.0 <= v * 4096 && v < before.areas()[k].end ==> !after.resident().contains_key(v),
        new_end.0 <= v * 4096 && v < before.areas()[k].end && before.resident().contains_key(v)
            ==> after.mapping(memory_after, v as int) is None && frames->Some_0@.contains(
            before.resident()[v],
        ),
        v * 4096 < new_end.0 || v >= before.areas()[k].end ==> after.mapping(
            memory_after,
            v as int,
        ) == before.mapping(memory, v as int) && (after.resident().contains_key(v)
            <==> before.resident().contains_key(v)),
{
    let s = before.areas();
    lemma_starting(s, start.0 as int / 4096, 0, k);
    let a = (new_end.0 + 4095) / 4096;
    let b = s[k].end as int;
    lemma_frames_in(before.resident(), a, b);
    assert(s[k].wf());
}

/// An area that ends later has frames for all its new pages, with its own rights, where there are
/// enough; otherwise it ends where they did not suffice.
pub proof fn law_area_ends_later(
    before: &MemorySet,
    memory: &PhysMemory,
    shared: &SharedPages,
    after: &MemorySet,
    memory_after: &PhysMemory,
    shared_after: &SharedPages,
    start: VirtAddr,
    new_end: VirtAddr,
    k: int,
    i: int,
    v: u64,
)
    requires
        appended_to(
            before,
            memory,
            shared,
            after,
            memory_after,
            shared_after,
            start,
            new_end,
            Some(Ok(())),
        ),
        before.wf(memory),
        0 <= k < before.areas().len(),
        before.areas()[k].start == start.0 / 4096,
        0 <= i < before.areas().len(),
        v < 0x800_0000,
        new_end.0 < 0x80_0000_0000,
    ensures
        after.areas().len() == before.areas().len(),
        after.areas()[k].start == before.areas()[k].start,
        after.areas()[k].map_perm == before.areas()[k].map_perm,
        after.areas()[k].end * 4096 >= new_end.0,
        (after.areas()[k].end - 1) * 4096 < new_end.0,
        i != k ==> after.areas()[i] == before.areas()[i],
        before.areas()[k].end <= v && v * 4096 < new_end.0 ==> {
            let entry = after.mapping(memory_after, v as int)->Some_0.0;
            &&& after.resident().contains_key(v)
            &&& after.mapping(memory_after, v as int) is Some
            &&& entry.page == after.resident()[v].ppn
            &&& entry.flags.v
            &&& entry.flags.r == before.areas()[k].map_perm.r
            &&& entry.flags.w == before.areas()[k].map_perm.w
            &&& entry.flags.x == before.areas()[k].map_perm.x
            &&& entry.flags.u == before.areas()[k].map_perm.u
        },
        v < before.areas()[k].end || v * 4096 >= new_end.0 ==> after.mapping(memory_after, v as int)
            == before.mapping(memory, v as int),
{
    lemma_starting(before.areas(), start.0 as int / 4096, 0, k);
}

/// Which area holds a range whole.
proof fn lemma_first_holding(s: Seq<MapArea>, start: int, length: int, i: int)
    requires
        0 <= i,
    ensures
        first_holding(s, start, length, i) matches Some(k) ==> i <= k < s.len() && s[k].start * 4096
            <= start && start + length <= s[k].end * 4096 && s[k].map_type == MapType::Framed,
    decreases s.len() - i,
{
    if i < s.len() {
        lemma_first_holding(s, start, length, i + 1);
    }
}

/// A mapping that has grown starts at its address and has every page of its new size, with the
/// rights that it had, and it was there before.
pub proof fn law_stretched_mapping(
    before: &MemorySet,
    memory: &PhysMemory,
    after: &MemorySet,
    old_addr: u64,
    old_size: u64,
    new_size: u64,
    at: u64,
)
    requires
        stretched(before, memory, after, old_addr, old_size, new_size, Ok(at)),
        before.wf(memory),
        old_size < new_size,
        old_addr + new_size < 0x80_0000_0000,
    ensures
        exists|i: int, k: int|
            0 <= i < after.areas().len() && 0 <= k < before.areas().len() && (
            #[trigger] after.areas()[i]).start == old_addr / 4096 && (after.areas()[i].end - 1)
                * 4096 < old_addr + new_size <= after.areas()[i].end * 4096
                && after.areas()[i].map_perm == (#[trigger] before.areas()[k]).map_perm
                && after.areas()[i].map_type == before.areas()[k].map_type
                && after.areas()[i].is_shared == before.areas()[k].is_shared
                && before.areas()[k].start * 4096 <= old_addr && old_addr + old_size
                <= before.areas()[k].end * 4096,
{
    let s = before.areas();
    lemma_first_holding(s, old_addr as int, old_size as int, 0);
    let k = first_holding(s, old_addr as int, old_size as int, 0)->Some_0;
    let end = (old_addr + new_size + 4095) / 4096;
    let area = s[k].part(old_addr as int / 4096, end);
    assert(after.areas()[k] == area);
    assert(after.areas()[k].start == old_addr / 4096);
}

/// The frames of a range that is given up are handed back, and its pages of shared files are
/// written to them.
pub proof fn law_given_up_frames(
    before: &MemorySet,
    memory: &PhysMemory,
    after: &MemorySet,
    memory_after: &PhysMemory,
    start: u64,
    length: u64,
    released: Released,
    v: u64,
    k: int,
)
    requires
        given_up(before, memory, after, memory_after, start, length, Ok(released)),
        touched(start, length, v as int),
        0 <= k < before.areas().len(),
    ensures
        before.resident().contains_key(v) ==> released.frames@.contains(before.resident()[v]),
        before.areas()[k].start <= v < before.areas()[k].end && before.areas()[k].is_shared
            && before.areas()[k].map_type == MapType::File && before.areas()[k].backing_file is Some
            ==> released.writebacks@.contains(
            (
                before.areas()[k].backing_file->Some_0.file,
                (before.areas()[k].backing_file->Some_0.page_offset + (v
                    - before.areas()[k].start)) as u64,
            ),
        ),
{
    let a = start as int % 0x80_0000_0000 / 4096;
    let b = ((start + length) % 0x80_0000_0000 + 4095) / 4096;
    lemma_frames_in(before.resident(), a, b);
    if before.areas()[k].start <= v < before.areas()[k].end && before.areas()[k].is_shared
        && before.areas()[k].map_type == MapType::File && before.areas()[k].backing_file is Some {
        lemma_writebacks(before.areas(), a, b, k, v as int);
    }
}

/// Where the end of the heap moves down, the pages of the heap behind it lose their frames and
/// every page before it stays.
pub proof fn law_heap_gets_smaller(
    before: &MemorySet,
    memory: &PhysMemory,
    shared: &SharedPages,
    after: &MemorySet,
    memory_after: &PhysMemory,
    shared_after: &SharedPages,
    addr: u64,
    outcome: (Result<u64, Errno>, Released, Option<(u64, u64)>),
    k: int,
    v: u64,
)
    requires
        break_moved(before, memory, shared, after, memory_after, shared_after, addr, outcome),
        before.heap_start() <= addr < before.brk() < 0x80_0000_0000,
        addr != 0,
        (addr + 4095) / 4096 < (before.brk() + 4095) / 4096,
        0 <= k < before.areas().len(),
        before.areas()[k].start * 4096 >= before.heap_start(),
        before.areas()[k].start * 4096 < before.brk(),
        before.areas()[k].end * 4096 >= addr + 4096,
        v < 0x800_0000,
    ensures
        outcome.0 == Ok::<u64, Errno>(addr),
        after.brk() == addr,
        before.areas()[k].start <= v < before.areas()[k].end && v * 4096 >= addr
            ==> !after.resident().contains_key(v) && (before.resident().contains_key(v)
            ==> after.mapping(memory_after, v as int) is None),
        v * 4096 < addr ==> after.mapping(memory_after, v as int) == before.mapping(
            memory,
            v as int,
        ) && (after.resident().contains_key(v) <==> before.resident().contains_key(v)),
{
    let s = before.areas();
    let from = (before.brk() as int % 0x80_0000_0000 + 4095) / 4096;
    let to = (addr as int % 0x80_0000_0000 + 4095) / 4096;
    let heap = (before.heap_start() as int % 0x80_0000_0000 + 4095) / 4096;
    assert(heap_cuts(s[k], from, to, heap));
    if s[k].start <= v < s[k].end {
        assert(s[k].holds(v as int));
    }
}

} // verus!
