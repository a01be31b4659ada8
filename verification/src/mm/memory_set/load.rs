//! The address space of a program that was just loaded.
//!
//! From low to high lie the parts of the program, those of its interpreter,
//! the stack and the heap, with pages between them that nobody may touch.

use vstd::prelude::*;

use crate::mm::address::{
    pages_to_cover, PageSize, PhysPageNum, VirtAddr, VirtPageNum, PAGE_SIZE, VA_LIMIT, VPN_LIMIT,
};
use crate::mm::area::{any_conflict, any_conflicts, conflicts, MapArea, MapType, PageAttr};
use crate::mm::elf::{
    interp_plan, main_plan, parse_elf, parse_interp, plan_interp, plan_main, ImageLayout, LoadError,
    LoadPlan, LoadSegment, Plan, GUARD_PAGES,
};
use crate::mm::frame_allocator::{law_take_some, lemma_users_both, FrameTracker};
use crate::mm::page_table::{
    child, grandchild, is_page, keeps_others, lemma_keeps_both, reaches, Mapping,
};
use crate::mm::phys::{keeps_held, blank_table, lemma_held_both, lemma_held_self, PhysMemory, Tables};
use crate::mm::pte::{MapPermission, PageTableEntry};

use super::edit::{find_start, fits, framed_area, guard_area, lemma_starting_none, with_area};
use super::fork::trampoline_entry;
use super::resize::{law_pieces_follow, pieces, Piece};
use super::owned::{
    all_own, keeps_own, lemma_all_own_none, lemma_keeps_own_both, lemma_keeps_own_filled,
    lemma_keeps_own_self, lemma_keeps_own_taken, lemma_own_reached,
};
use super::{frames_between, groups_ok, pages_filled, user_area, MemorySet, SharedPages};

verus! {

broadcast use {
    vstd::std_specs::btree::group_btree_axioms,
    vstd::laws_cmp::group_laws_cmp,
    lemma_keeps_both,
    lemma_held_both,
    lemma_held_self,
    lemma_keeps_own_both,
    lemma_keeps_own_self,
};

/// The tables of `root` are new ones, and all others are as they were.
pub open spec fn fresh_tables(t: Tables, n: Tables, root: u64) -> bool {
    &&& forall|p: u64|
        #![trigger n.contains_key(p)]
        #![trigger n[p]]
        t.contains_key(p) ==> n.contains_key(p) && n[p] == t[p]
    &&& forall|p: u64| #[trigger] reaches(n, root, p) ==> !t.contains_key(p)
}

/// Tables stay new when only they change.
proof fn lemma_fresh_kept(t: Tables, m: Tables, n: Tables, root: u64)
    requires
        fresh_tables(t, m, root),
        keeps_others(m, n, root),
    ensures
        fresh_tables(t, n, root),
{
    assert forall|p: u64| t.contains_key(p) implies #[trigger] n.contains_key(p) && n[p] == t[p] by {
        assert(m.contains_key(p));
        assert(!reaches(m, root, p));
    }
    assert forall|p: u64| #[trigger] reaches(n, root, p) implies !t.contains_key(p) by {
        if t.contains_key(p) {
            assert(m.contains_key(p));
        }
    }
}

/// A root without links is a table of its own.
proof fn lemma_fresh_root(t: Tables, root: u64)
    requires
        !t.contains_key(root),
    ensures
        fresh_tables(t, t.insert(root, blank_table()), root),
{
    let n = t.insert(root, blank_table());
    assert forall|p: u64| #[trigger] reaches(n, root, p) implies !t.contains_key(p) by {
        assert forall|i: int| 0 <= i < 512 implies #[trigger] child(n, root, i) is None by {}
        assert forall|i: int, j: int| 0 <= i < 512 && 0 <= j < 512 implies #[trigger] grandchild(
            n,
            root,
            i,
            j,
        ) is None by {
            assert(child(n, root, i) is None);
        }
    }
}

/// A part of an address space, and whether its pages have frames from the start.
pub struct Part {
    pub area: MapArea,
    pub filled: bool,
}

/// What the parts say of page `v`; the last that holds it counts.
pub open spec fn part_page(parts: Seq<Part>, v: int) -> Option<PageAttr>
    decreases parts.len(),
{
    if parts.len() == 0 {
        None
    } else if parts.last().area.holds(v) {
        Some(parts.last().area.attr(v))
    } else {
        part_page(parts.drop_last(), v)
    }
}

/// The rights of page `v` where it has a frame from the start.
pub open spec fn part_perm(parts: Seq<Part>, v: int) -> Option<MapPermission>
    decreases parts.len(),
{
    if parts.len() == 0 {
        None
    } else if parts.last().area.holds(v) {
        if parts.last().filled {
            Some(parts.last().area.map_perm)
        } else {
            None
        }
    } else {
        part_perm(parts.drop_last(), v)
    }
}

/// What page `q` is mapped to, for a page table with the frames of the parts.
pub open spec fn part_mapping(
    parts: Seq<Part>,
    resident: Map<u64, FrameTracker>,
    trampoline: (VirtPageNum, PhysPageNum),
    q: int,
) -> Mapping {
    match part_perm(parts, q) {
        Some(perm) => Some(
            (
                PageTableEntry {
                    page: resident[q as u64].ppn,
                    flags: perm.pte_flags().installed(),
                },
                PageSize::Page4K,
            ),
        ),
        None => if q == trampoline.0.0 {
            Some((trampoline_entry(trampoline.1), PageSize::Page4K))
        } else {
            None
        },
    }
}

/// Two areas can be there together: no page is in both, and they do not start at the same one.
pub open spec fn compatible(a: MapArea, b: MapArea) -> bool {
    !conflicts(a, b.start as int, b.end as int) && a.start != b.start
}

/// Any two parts can be there together.
pub open spec fn apart(parts: Seq<Part>) -> bool {
    forall|i: int, j: int|
        0 <= i < j < parts.len() ==> compatible(
            (#[trigger] parts[i]).area,
            (#[trigger] parts[j]).area,
        )
}

/// The area is that of a part.
pub open spec fn is_part(parts: Seq<Part>, area: MapArea) -> bool {
    exists|k: int| 0 <= k < parts.len() && (#[trigger] parts[k]).area == area
}

/// A page belongs to a part that has frames from the start.
pub open spec fn in_the_way(parts: Seq<Part>, v: int) -> bool {
    exists|k: int|
        0 <= k < parts.len() && (#[trigger] parts[k]).filled && parts[k].area.holds(v)
}

/// Frames that are enough for a part, with tables.
pub open spec fn frames_for_part(part: Part) -> int {
    if part.filled {
        frames_between(part.area.start as int, part.area.end as int)
    } else {
        0
    }
}

/// Frames that are enough for all parts.
pub open spec fn frames_for(parts: Seq<Part>) -> int
    decreases parts.len(),
{
    if parts.len() == 0 {
        0
    } else {
        frames_for(parts.drop_last()) + frames_for_part(parts.last())
    }
}

/// Areas end behind their start.
pub open spec fn parts_wf(parts: Seq<Part>) -> bool {
    forall|k: int| 0 <= k < parts.len() ==> (#[trigger] parts[k]).area.start <= parts[k].area.end
}

proof fn lemma_frames_join(a: Seq<Part>, b: Seq<Part>)
    ensures
        frames_for(a + b) == frames_for(a) + frames_for(b),
    decreases b.len(),
{
    if b.len() == 0 {
        assert(a + b =~= a);
    } else {
        lemma_frames_join(a, b.drop_last());
        assert((a + b).drop_last() =~= a + b.drop_last());
    }
}

proof fn lemma_frames_push(a: Seq<Part>, part: Part)
    ensures
        frames_for(a.push(part)) == frames_for(a) + frames_for_part(part),
{
    assert(a.push(part).drop_last() =~= a);
}

/// What holds of all parts holds of the first of them.
proof fn lemma_first_parts(all: Seq<Part>, n: int, v: int)
    requires
        0 <= n <= all.len(),
        parts_wf(all),
    ensures
        apart(all) ==> apart(all.take(n)),
        in_the_way(all.take(n), v) ==> in_the_way(all, v),
        0 <= frames_for(all.take(n)) <= frames_for(all),
    decreases all.len() - n,
{
    let first = all.take(n);
    if in_the_way(first, v) {
        let k = choose|k: int|
            0 <= k < first.len() && (#[trigger] first[k]).filled && first[k].area.holds(v);
        assert(all[k] == first[k]);
    }
    if apart(all) {
        lemma_apart_take(all, n);
    }
    lemma_frames_not_negative(first);
    if n < all.len() {
        lemma_first_parts(all, n + 1, v);
        assert(all.take(n + 1).drop_last() =~= first);
        assert(all[n].area.start <= all[n].area.end);
    } else {
        assert(first =~= all);
    }
}

/// The first of parts that are apart are apart.
proof fn lemma_apart_take(all: Seq<Part>, n: int)
    requires
        0 <= n <= all.len(),
        apart(all),
    ensures
        apart(all.take(n)),
{
    let first = all.take(n);
    assert forall|i: int, j: int| 0 <= i < j < first.len() implies compatible(
        (#[trigger] first[i]).area,
        (#[trigger] first[j]).area,
    ) by {
        assert(compatible(all[i].area, all[j].area));
    }
}

proof fn lemma_frames_not_negative(parts: Seq<Part>)
    requires
        parts_wf(parts),
    ensures
        frames_for(parts) >= 0,
    decreases parts.len(),
{
    if parts.len() > 0 {
        lemma_frames_not_negative(parts.drop_last());
        assert(parts[parts.len() - 1].area.start <= parts.last().area.end);
    }
}

/// Parts of which the last is not in any page of another stay apart.
proof fn lemma_apart_push(parts: Seq<Part>, part: Part)
    ensures
        apart(parts.push(part)) <==> apart(parts) && forall|k: int|
            0 <= k < parts.len() ==> compatible((#[trigger] parts[k]).area, part.area),
{
    let all = parts.push(part);
    if apart(all) {
        assert forall|i: int, j: int| 0 <= i < j < parts.len() implies compatible(
            (#[trigger] parts[i]).area,
            (#[trigger] parts[j]).area,
        ) by {
            assert(compatible(all[i].area, all[j].area));
        }
        assert forall|k: int| 0 <= k < parts.len() implies compatible(
            (#[trigger] parts[k]).area,
            part.area,
        ) by {
            assert(compatible(all[k].area, all[parts.len() as int].area));
        }
    }
}

/// The address space consists of the parts, and of the page from which signal handlers return.
pub open spec fn assembled(
    set: &MemorySet,
    memory: &PhysMemory,
    parts: Seq<Part>,
    trampoline: (VirtPageNum, PhysPageNum),
) -> bool {
    &&& set.wf(memory)
    &&& groups_ok(set.areas())
    &&& apart(parts)
    &&& forall|i: int|
        0 <= i < set.areas().len() ==> is_part(parts, #[trigger] set.areas()[i])
    &&& forall|k: int| 0 <= k < parts.len() ==> set.areas().contains((#[trigger] parts[k]).area)
    &&& forall|v: int| #[trigger] set.page(v) == part_page(parts, v)
    &&& forall|v: u64| #[trigger]
        set.resident().contains_key(v) <==> part_perm(parts, v as int) is Some
    &&& forall|q: int|
        is_page(q) ==> #[trigger] set.mapping(memory, q) == part_mapping(
            parts,
            set.resident(),
            trampoline,
            q,
        )
}

proof fn lemma_part_push(parts: Seq<Part>, part: Part, v: int)
    ensures
        part_page(parts.push(part), v) == if part.area.holds(v) {
            Some(part.area.attr(v))
        } else {
            part_page(parts, v)
        },
        part_perm(parts.push(part), v) == if part.area.holds(v) {
            if part.filled {
                Some(part.area.map_perm)
            } else {
                None
            }
        } else {
            part_perm(parts, v)
        },
{
    assert(parts.push(part).drop_last() =~= parts);
}

/// An area more goes with a part more.
proof fn lemma_parts_grow(s: Seq<MapArea>, u: Seq<MapArea>, parts: Seq<Part>, part: Part)
    requires
        forall|i: int| 0 <= i < s.len() ==> is_part(parts, #[trigger] s[i]),
        forall|k: int| 0 <= k < parts.len() ==> s.contains((#[trigger] parts[k]).area),
        with_area(s, u, part.area),
    ensures
        forall|i: int| 0 <= i < u.len() ==> is_part(parts.push(part), #[trigger] u[i]),
        forall|k: int|
            0 <= k < parts.push(part).len() ==> u.contains((#[trigger] parts.push(part)[k]).area),
{
    let all = parts.push(part);
    let k0 = choose|k: int| 0 <= k <= s.len() && u == #[trigger] s.insert(k, part.area);
    assert forall|i: int| 0 <= i < u.len() implies is_part(all, #[trigger] u[i]) by {
        if i == k0 {
            assert(all[parts.len() as int].area == u[i]);
        } else {
            let j = if i < k0 {
                i
            } else {
                i - 1
            };
            assert(u[i] == s[j]);
            assert(is_part(parts, s[j]));
            let k = choose|k: int| 0 <= k < parts.len() && (#[trigger] parts[k]).area == s[j];
            assert(all[k] == parts[k]);
        }
    }
    assert forall|k: int| 0 <= k < all.len() implies u.contains((#[trigger] all[k]).area) by {
        if k < parts.len() {
            assert(s.contains(parts[k].area));
            let i = choose|i: int| 0 <= i < s.len() && s[i] == parts[k].area;
            if i < k0 {
                assert(u[i] == s[i]);
            } else {
                assert(u[i + 1] == s[i]);
            }
        } else {
            assert(u[k0] == part.area);
        }
    }
}

/// A page with a frame from the start is in a part.
proof fn lemma_perm_page(parts: Seq<Part>, v: int)
    ensures
        part_perm(parts, v) is Some ==> part_page(parts, v) is Some,
    decreases parts.len(),
{
    if parts.len() > 0 && !parts.last().area.holds(v) {
        lemma_perm_page(parts.drop_last(), v);
    }
}

/// The parts that the segments of a plan make.
pub open spec fn segment_parts(s: Seq<LoadSegment>) -> Seq<Part> {
    Seq::new(
        s.len(),
        |i: int|
            Part {
                area: framed_area(s[i].start as int, s[i].end as int, s[i].perm),
                filled: true,
            },
    )
}

/// Pages that nobody may touch, from page `v` on.
pub open spec fn guard_part(v: int) -> Part {
    Part { area: guard_area(v * 4096, GUARD_PAGES as int), filled: false }
}

/// The rights of stack and heap.
pub open spec fn data_perm() -> MapPermission {
    MapPermission { r: true, w: true, x: false, u: true }
}

/// The page behind the program and its interpreter.
pub open spec fn code_end(main: Plan, interp: Option<Plan>) -> int {
    match interp {
        Some(plan) => if plan.end_page > main.end_page {
            plan.end_page
        } else {
            main.end_page
        },
        None => main.end_page,
    }
}

/// The parts of the program and its interpreter.
pub open spec fn code_parts(main: Plan, interp: Option<Plan>) -> Seq<Part> {
    match interp {
        Some(plan) => segment_parts(main.segments).push(guard_part(main.end_page))
            + segment_parts(plan.segments),
        None => segment_parts(main.segments),
    }
}

/// The guard below the stack is there already: that of an interpreter without parts.
pub open spec fn guard_is_there(main: Plan, interp: Option<Plan>) -> bool {
    interp is Some && code_end(main, interp) == main.end_page
}

/// The parts up to the pages below the stack.
pub open spec fn low_parts(main: Plan, interp: Option<Plan>) -> Seq<Part> {
    if guard_is_there(main, interp) {
        code_parts(main, interp)
    } else {
        code_parts(main, interp).push(guard_part(code_end(main, interp)))
    }
}

/// The address behind the stack.
pub open spec fn stack_top(main: Plan, interp: Option<Plan>, layout: ImageLayout) -> int {
    (code_end(main, interp) + GUARD_PAGES) * 4096 + layout.stack_size
}

/// The address at which the heap starts.
pub open spec fn heap_bottom(main: Plan, interp: Option<Plan>, layout: ImageLayout) -> int {
    stack_top(main, interp, layout) + GUARD_PAGES * 4096
}

/// The stack, the pages above it that nobody may touch, and the heap, which is empty.
pub open spec fn data_parts(bottom: int, top: int) -> Seq<Part> {
    let heap = top + GUARD_PAGES * 4096;
    seq![
        Part { area: framed_area(bottom, top, data_perm()), filled: false },
        guard_part(top / 4096),
        Part { area: framed_area(heap, heap, data_perm()), filled: true },
    ]
}

/// All parts of the address space of a program.
pub open spec fn image_parts(main: Plan, interp: Option<Plan>, layout: ImageLayout) -> Seq<Part> {
    low_parts(main, interp) + data_parts(
        (code_end(main, interp) + GUARD_PAGES) * 4096,
        stack_top(main, interp, layout),
    )
}

/// What a process needs to know of its program.
#[derive(Clone, Copy)]
pub struct LoadedImage {
    /// Where the heap starts.
    pub heap_bottom: u64,
    /// The address behind the stack.
    pub stack_top: u64,
    /// The first instruction to run: that of the interpreter where there is one.
    pub final_entry: u64,
    /// The first instruction of the program itself.
    pub main_entry: u64,
    /// The address of the program headers, or zero.
    pub phdr_addr: u64,
    /// The number of program headers.
    pub phnum: u64,
    /// The bytes of a program header.
    pub phent: u64,
    /// Where the interpreter was mapped.
    pub interp_base: Option<u64>,
}

/// What a process needs to know of a program with these plans.
pub open spec fn loaded(main: Plan, interp: Option<Plan>, layout: ImageLayout) -> LoadedImage {
    LoadedImage {
        heap_bottom: heap_bottom(main, interp, layout) as u64,
        stack_top: stack_top(main, interp, layout) as u64,
        final_entry: match interp {
            Some(plan) => plan.entry,
            None => main.entry,
        } as u64,
        main_entry: main.entry as u64,
        phdr_addr: main.phdr_addr as u64,
        phnum: main.ph_count as u64,
        phent: main.ph_entry_size as u64,
        interp_base: match interp {
            Some(plan) => Some(plan.bias as u64),
            None => None,
        },
    }
}

/// The bytes that are to be copied from the files into the pages of an address space.
pub struct Copies {
    /// Those from the file of the program.
    pub main: Vec<Piece>,
    /// Those from the file of its interpreter.
    pub interp: Vec<Piece>,
}

/// Pieces of bytes that start at a place of a file.
pub open spec fn shifted(s: Seq<Piece>, by: int) -> Seq<Piece> {
    s.map_values(|p: Piece| Piece { from: (p.from + by) as u64, ..p })
}

/// The bytes of one part: from its place in the file to its address.
pub open spec fn segment_copies(segment: LoadSegment) -> Seq<Piece> {
    shifted(
        pieces(segment.start as int / 4096, segment.start as int, segment.file_size as int),
        segment.offset as int,
    )
}

/// The bytes of all parts, one part after the other.
pub open spec fn copies_of(s: Seq<LoadSegment>) -> Seq<Piece>
    decreases s.len(),
{
    if s.len() == 0 {
        Seq::empty()
    } else {
        copies_of(s.drop_last()) + segment_copies(s.last())
    }
}

/// The copies are those that the plans ask for.
pub open spec fn copies_owed(copies: Copies, main: Plan, interp: Option<Plan>) -> bool {
    &&& copies.main@ == copies_of(main.segments)
    &&& copies.interp@ == match interp {
        Some(plan) => copies_of(plan.segments),
        None => Seq::empty(),
    }
}

/// Lists the bytes to copy for the parts of a plan.
fn list_copies(plan: &LoadPlan) -> (copies: Vec<Piece>)
    requires
        plan.wf(),
    ensures
        copies@ == copies_of(plan.segments@),
{
    let ghost s = plan.segments@;
    let mut copies: Vec<Piece> = Vec::new();
    let mut i: usize = 0;
    assert(s.take(0) =~= Seq::<LoadSegment>::empty());
    while i < plan.segments.len()
        invariant
            plan.wf(),
            s == plan.segments@,
            i <= s.len(),
            copies@ == copies_of(s.take(i as int)),
        decreases s.len() - i,
    {
        assert(s.take(i + 1).drop_last() =~= s.take(i as int));
        let segment = plan.segments[i];
        assert(segment.wf());
        let area = MapArea::new(
            VirtAddr(segment.start),
            VirtAddr(segment.end),
            MapType::Framed,
            segment.perm,
            PageSize::Page4K,
        );
        let places = area.copy_data(segment.start, segment.file_size);
        let ghost had = copies@;
        let ghost owed = segment_copies(segment);
        let mut k: usize = 0;
        assert(had + owed.take(0) =~= had);
        while k < places.len()
            invariant
                segment.wf(),
                k <= places@.len(),
                places@ == pieces(
                    segment.start as int / 4096,
                    segment.start as int,
                    segment.file_size as int,
                ),
                owed == segment_copies(segment),
                copies@ == had + owed.take(k as int),
            decreases places@.len() - k,
        {
            let p = places[k];
            proof {
                law_pieces_follow(
                    segment.start as int / 4096,
                    segment.start as int,
                    segment.file_size as int,
                    k as int,
                );
                lemma_piece_inside(segment.start as int, segment.file_size as int, k as int);
            }
            copies.push(
                Piece { page: p.page, offset: p.offset, from: segment.offset + p.from, len: p.len },
            );
            assert(owed[k as int] == copies@.last());
            assert(owed.take(k + 1) =~= owed.take(k as int).push(owed[k as int]));
            assert(copies@ =~= had + owed.take(k + 1));
            k = k + 1;
        }
        assert(owed.take(owed.len() as int) =~= owed);
        i = i + 1;
    }
    assert(s.take(s.len() as int) =~= s);
    copies
}

/// A piece lies within the bytes that it is of.
proof fn lemma_piece_inside(start: int, len: int, k: int)
    requires
        0 <= start < VA_LIMIT,
        0 <= len <= VA_LIMIT,
        0 <= k < pieces(start / 4096, start, len).len(),
    ensures
        ({
            let p = pieces(start / 4096, start, len)[k];
            &&& p.from + p.len <= len
            &&& start / 4096 <= p.page < pages_to_cover(start + len)
        }),
{
}

/// A page of a part has a frame from the start where the part got frames.
pub proof fn lemma_part_filled(parts: Seq<Part>, i: int, v: int)
    requires
        apart(parts),
        0 <= i < parts.len(),
        parts[i].area.holds(v),
    ensures
        part_perm(parts, v) == if parts[i].filled {
            Some(parts[i].area.map_perm)
        } else {
            None
        },
    decreases parts.len(),
{
    let front = parts.drop_last();
    if i < parts.len() - 1 {
        assert(compatible(parts[i].area, parts[parts.len() - 1].area));
        assert forall|a: int, b: int| 0 <= a < b < front.len() implies compatible(
            (#[trigger] front[a]).area,
            (#[trigger] front[b]).area,
        ) by {
            assert(compatible(parts[a].area, parts[b].area));
        }
        lemma_part_filled(front, i, v);
    }
}

/// The bytes of a part of a program go into pages that have frames, at places that are in
/// the page, and come from the part's bytes in the file.
pub proof fn law_copies_land(
    set: &MemorySet,
    memory: &PhysMemory,
    parts: Seq<Part>,
    trampoline: (VirtPageNum, PhysPageNum),
    segment: LoadSegment,
    i: int,
    k: int,
)
    requires
        assembled(set, memory, parts, trampoline),
        segment.wf(),
        0 <= i < parts.len(),
        parts[i] == segment_parts(seq![segment])[0],
        0 <= k < segment_copies(segment).len(),
    ensures
        ({
            let copy = segment_copies(segment)[k];
            &&& set.resident().contains_key(copy.page)
            &&& copy.offset + copy.len <= 4096
            &&& copy.len > 0
            &&& segment.offset <= copy.from
            &&& copy.from + copy.len <= segment.offset + segment.file_size
            &&& copy.page * 4096 + copy.offset - segment.start == copy.from - segment.offset
        }),
{
    let start = segment.start as int;
    let len = segment.file_size as int;
    law_pieces_follow(start / 4096, start, len, k);
    lemma_piece_inside(start, len, k);
    let copy = segment_copies(segment)[k];
    lemma_part_filled(parts, i, copy.page as int);
    assert(part_perm(parts, copy.page as int) is Some);
}

/// An area whose pages were filled, as far as there were frames, has them for itself.
proof fn lemma_part_own(
    before: &MemorySet,
    memory_before: &PhysMemory,
    after: &MemorySet,
    memory: &PhysMemory,
    area: MapArea,
)
    requires
        memory_before.wf(),
        keeps_held(memory_before, memory),
        area.shared_group is None,
        exists|reached: u64|
            area.start <= reached <= area.end && #[trigger] with_area(
                before.areas(),
                after.areas(),
                MapArea { end: reached, ..area },
            ) && pages_filled(
                after,
                memory,
                before,
                memory_before,
                area.start as int,
                reached as int,
                area,
            ),
    ensures
        keeps_own(before, memory_before, after, memory),
{
    let reached = choose|reached: u64|
        area.start <= reached <= area.end && #[trigger] with_area(
            before.areas(),
            after.areas(),
            MapArea { end: reached, ..area },
        ) && pages_filled(
            after,
            memory,
            before,
            memory_before,
            area.start as int,
            reached as int,
            area,
        );
    lemma_keeps_own_filled(
        before,
        memory_before,
        after,
        memory,
        area.start as int,
        reached as int,
    );
}

proof fn lemma_own_carried(
    before: &MemorySet,
    set: &MemorySet,
    memory: &PhysMemory,
    first: &PhysMemory,
)
    requires
        all_own(before, memory, first),
        set.resident() == before.resident(),
    ensures
        all_own(set, memory, first),
{
}

impl MemorySet {
    /// Adds a part; where it fails the address space is only good to be taken down.
    #[verifier::spinoff_prover]
    #[verifier::rlimit(40)]
    fn add_part(
        &mut self,
        memory: &mut PhysMemory,
        shared: &mut SharedPages,
        area: MapArea,
        filled: bool,
        Ghost(parts): Ghost<Seq<Part>>,
        trampoline: (VirtPageNum, PhysPageNum),
    ) -> (done: Result<(), LoadError>)
        requires
            assembled(old(self), old(memory), parts, trampoline),
            old(shared).wf(),
            area.wf(),
            user_area(area),
            area.shared_group is None,
            filled ==> area.map_type == MapType::Framed,
        ensures
            final(self).wf(final(memory)),
            groups_ok(final(self).areas()),
            final(shared).wf(),
            final(self).brk() == old(self).brk(),
            final(self).heap_start() == old(self).heap_start(),
            final(self).number() == old(self).number(),
            final(self).keeps_apart(final(memory), old(self), old(memory)),
            keeps_own(old(self), old(memory), final(self), final(memory)),
            done is Ok ==> assembled(
                final(self),
                final(memory),
                parts.push(Part { area, filled }),
                trampoline,
            ),
            done is Ok ==> final(memory).frames().free.count() >= old(memory).frames().free.count()
                - frames_for_part(Part { area, filled }),
            match done {
                Ok(()) => true,
                Err(LoadError::Overlap) => !apart(parts.push(Part { area, filled })),
                Err(LoadError::OutOfFrames) => filled && (area.holds(trampoline.0.0 as int)
                    || old(memory).frames().free.count() < frames_between(
                    area.start as int,
                    area.end as int,
                )),
                Err(_) => false,
            },
    {
        let ghost s = self.areas();
        let ghost part = Part { area, filled };
        if any_conflict(&self.areas, area.start, area.end) {
            proof {
                let i = choose|i: int|
                    0 <= i < s.len() && conflicts(#[trigger] s[i], area.start as int, area.end as int);
                assert(is_part(parts, s[i]));
                lemma_apart_push(parts, part);
            }
            return Err(LoadError::Overlap);
        }
        if let Some(i) = find_start(&self.areas, area.start) {
            proof {
                assert(is_part(parts, s[i as int]));
                lemma_apart_push(parts, part);
            }
            return Err(LoadError::Overlap);
        }
        proof {
            lemma_starting_none(s, area.start as int, 0);
            assert(fits(s, area)) by {
                assert forall|i: int| 0 <= i < s.len() implies !conflicts(
                    #[trigger] s[i],
                    area.start as int,
                    area.end as int,
                ) && s[i].start != area.start by {
                    if conflicts(s[i], area.start as int, area.end as int) {
                        assert(any_conflicts(s, area.start as int, area.end as int));
                    }
                }
            }
            assert forall|v: int| area.holds(v) implies #[trigger] part_page(parts, v) is None by {
                assert(self.page(v) == part_page(parts, v));
                if self.page(v) is Some {
                    let i = choose|i: int| 0 <= i < s.len() && (#[trigger] s[i]).holds(v);
                    assert(!conflicts(s[i], area.start as int, area.end as int));
                }
            }
        }
        proof {
            assert(apart(parts.push(part))) by {
                lemma_apart_push(parts, part);
                assert forall|k: int| 0 <= k < parts.len() implies compatible(
                    (#[trigger] parts[k]).area,
                    area,
                ) by {
                    assert(s.contains(parts[k].area));
                    let i = choose|i: int| 0 <= i < s.len() && s[i] == parts[k].area;
                    assert(!conflicts(s[i], area.start as int, area.end as int));
                    assert(s[i].start != area.start);
                }
            }
            if filled && !area.holds(trampoline.0.0 as int) {
                assert forall|q: int| area.start <= q < area.end implies #[trigger] self.mapping(
                    memory,
                    q,
                ) is None by {
                    assert(is_page(q));
                    assert(part_page(parts, q) is None);
                    lemma_perm_page(parts, q);
                }
            }
        }
        if filled {
            let pushed = self.push(memory, shared, area);
            proof {
                lemma_part_own(old(self), old(memory), self, memory, area);
            }
            match pushed {
                Err(_) => {
                    return Err(LoadError::OutOfFrames);
                },
                Ok(()) => {},
            }
            proof {
                assert forall|v: u64| #[trigger] self.resident().contains_key(v) <==> part_perm(
                    parts.push(part),
                    v as int,
                ) is Some by {
                    lemma_part_push(parts, part, v as int);
                    assert(old(self).resident().contains_key(v) <==> part_perm(
                        parts,
                        v as int,
                    ) is Some);
                }
                assert forall|q: int| is_page(q) implies #[trigger] self.mapping(memory, q)
                    == part_mapping(parts.push(part), self.resident(), trampoline, q) by {
                    lemma_part_push(parts, part, q);
                    lemma_perm_page(parts, q);
                    assert(old(self).mapping(old(memory), q) == part_mapping(
                        parts,
                        old(self).resident(),
                        trampoline,
                        q,
                    ));
                    assert(old(self).resident().contains_key(q as u64) <==> part_perm(
                        parts,
                        q,
                    ) is Some);
                    if !area.holds(q) {
                        assert(self.resident().contains_key(q as u64) == old(self).resident().contains_key(q as u64));
                    }
                }
            }
        } else {
            self.insert_lazy_area(memory, area);
            proof {
                lemma_keeps_own_taken(old(self), old(memory), self, memory);
                assert forall|v: u64| #[trigger] self.resident().contains_key(v) <==> part_perm(
                    parts.push(part),
                    v as int,
                ) is Some by {
                    lemma_part_push(parts, part, v as int);
                    lemma_perm_page(parts, v as int);
                    assert(old(self).resident().contains_key(v) <==> part_perm(
                        parts,
                        v as int,
                    ) is Some);
                }
                assert forall|q: int| is_page(q) implies #[trigger] self.mapping(memory, q)
                    == part_mapping(parts.push(part), self.resident(), trampoline, q) by {
                    lemma_part_push(parts, part, q);
                    lemma_perm_page(parts, q);
                    assert(old(self).mapping(old(memory), q) == part_mapping(
                        parts,
                        old(self).resident(),
                        trampoline,
                        q,
                    ));
                }
            }
        }
        proof {
            lemma_parts_grow(s, self.areas(), parts, part);
            assert forall|v: int| #[trigger] self.page(v) == part_page(parts.push(part), v) by {
                lemma_part_push(parts, part, v);
                assert(old(self).page(v) == part_page(parts, v));
            }
        }
        Ok(())
    }
}

impl MemorySet {
    /// Adds the parts of a plan.
    fn add_segments(
        &mut self,
        memory: &mut PhysMemory,
        shared: &mut SharedPages,
        segments: &Vec<LoadSegment>,
        Ghost(parts): Ghost<Seq<Part>>,
        trampoline: (VirtPageNum, PhysPageNum),
    ) -> (done: Result<(), LoadError>)
        requires
            assembled(old(self), old(memory), parts, trampoline),
            old(shared).wf(),
            forall|i: int|
                0 <= i < segments@.len() ==> (#[trigger] segments@[i]).wf(),
        ensures
            final(self).wf(final(memory)),
            groups_ok(final(self).areas()),
            final(shared).wf(),
            final(self).brk() == old(self).brk(),
            final(self).heap_start() == old(self).heap_start(),
            final(self).number() == old(self).number(),
            final(self).keeps_apart(final(memory), old(self), old(memory)),
            keeps_own(old(self), old(memory), final(self), final(memory)),
            added(
                done,
                final(self),
                final(memory),
                old(memory),
                parts,
                segment_parts(segments@),
                trampoline,
            ),
    {
        let mut i: usize = 0;
        let ghost all = segment_parts(segments@);
        assert(parts + segment_parts(segments@.take(0)) =~= parts);
        assert(all.take(0) =~= Seq::<Part>::empty());
        assert(parts_wf(all)) by {
            assert forall|k: int| 0 <= k < all.len() implies (#[trigger] all[k]).area.start
                <= all[k].area.end by {
                assert(segments@[k].wf());
            }
        }
        while i < segments.len()
            invariant
                i <= segments@.len(),
                all == segment_parts(segments@),
                parts_wf(all),
                memory.frames().free.count() >= old(memory).frames().free.count() - frames_for(
                    all.take(i as int),
                ),
                assembled(
                    self,
                    memory,
                    parts + segment_parts(segments@.take(i as int)),
                    trampoline,
                ),
                shared.wf(),
                self.brk() == old(self).brk(),
                self.heap_start() == old(self).heap_start(),
                self.number() == old(self).number(),
                self.keeps_apart(memory, old(self), old(memory)),
                keeps_own(old(self), old(memory), self, memory),
                forall|k: int|
                    0 <= k < segments@.len() ==> (#[trigger] segments@[k]).wf(),
            decreases segments@.len() - i,
        {
            let segment = segments[i];
            let ghost had = parts + segment_parts(segments@.take(i as int));
            assert(segments@[i as int].wf());
            let area = MapArea::new(
                VirtAddr(segment.start),
                VirtAddr(segment.end),
                MapType::Framed,
                segment.perm,
                PageSize::Page4K,
            );
            let ghost part = Part { area, filled: true };
            proof {
                assert(area == framed_area(
                    segment.start as int,
                    segment.end as int,
                    segment.perm,
                ));
                assert(all[i as int] == part);
                assert(had.push(part) =~= parts + segment_parts(segments@.take(i + 1)));
                assert(all.take(i + 1) =~= all.take(i as int).push(part));
                lemma_frames_push(all.take(i as int), part);
                lemma_first_parts(all, i + 1, trampoline.0.0 as int);
                if apart(parts + all) {
                    lemma_apart_take(parts + all, parts.len() + i + 1);
                    assert((parts + all).take(parts.len() + i + 1) =~= had.push(part));
                }
            }
            if let Err(e) = self.add_part(memory, shared, area, true, Ghost(had), trampoline) {
                return Err(e);
            }
            i = i + 1;
        }
        assert(segments@.take(segments@.len() as int) =~= segments@);
        assert(all.take(segments@.len() as int) =~= all);
        Ok(())
    }

    /// Adds pages that nobody may touch, from page `v` on.
    fn add_guard(
        &mut self,
        memory: &mut PhysMemory,
        shared: &mut SharedPages,
        v: u64,
        Ghost(parts): Ghost<Seq<Part>>,
        trampoline: (VirtPageNum, PhysPageNum),
    ) -> (done: Result<(), LoadError>)
        requires
            assembled(old(self), old(memory), parts, trampoline),
            old(shared).wf(),
            v + GUARD_PAGES < VPN_LIMIT,
        ensures
            final(self).wf(final(memory)),
            groups_ok(final(self).areas()),
            final(shared).wf(),
            final(self).brk() == old(self).brk(),
            final(self).heap_start() == old(self).heap_start(),
            final(self).number() == old(self).number(),
            final(self).keeps_apart(final(memory), old(self), old(memory)),
            keeps_own(old(self), old(memory), final(self), final(memory)),
            match done {
                Ok(()) => assembled(
                    final(self),
                    final(memory),
                    parts.push(guard_part(v as int)),
                    trampoline,
                ) && final(memory).frames().free.count() >= old(memory).frames().free.count(),
                Err(LoadError::Overlap) => !apart(parts.push(guard_part(v as int))),
                Err(_) => false,
            },
    {
        let area = MapArea::new(
            VirtAddr(v * PAGE_SIZE),
            VirtAddr((v + GUARD_PAGES) * PAGE_SIZE),
            MapType::Guard,
            MapPermission { r: false, w: false, x: false, u: false },
            PageSize::Page4K,
        );
        assert(area == guard_part(v as int).area);
        self.add_part(memory, shared, area, false, Ghost(parts), trampoline)
    }

    /// Adds the parts of a program and its interpreter.
    #[verifier::spinoff_prover]
    #[verifier::rlimit(40)]
    fn add_code(
        &mut self,
        memory: &mut PhysMemory,
        shared: &mut SharedPages,
        main: &LoadPlan,
        interp: Option<&LoadPlan>,
        trampoline: (VirtPageNum, PhysPageNum),
    ) -> (done: Result<(), LoadError>)
        requires
            assembled(old(self), old(memory), Seq::empty(), trampoline),
            old(shared).wf(),
            main.wf(),
            interp matches Some(plan) ==> plan.wf(),
            interp is Some ==> main.end_page + GUARD_PAGES < VPN_LIMIT,
        ensures
            final(self).wf(final(memory)),
            groups_ok(final(self).areas()),
            final(shared).wf(),
            final(self).brk() == old(self).brk(),
            final(self).heap_start() == old(self).heap_start(),
            final(self).number() == old(self).number(),
            final(self).keeps_apart(final(memory), old(self), old(memory)),
            keeps_own(old(self), old(memory), final(self), final(memory)),
            added(
                done,
                final(self),
                final(memory),
                old(memory),
                Seq::empty(),
                code_parts(main@, view_of(interp)),
                trampoline,
            ),
    {
        let ghost none = Seq::<Part>::empty();
        let ghost first = segment_parts(main.segments@);
        let ghost page = trampoline.0.0 as int;
        assert(none + first =~= first);
        match interp {
            None => {
                assert(none + code_parts(main@, None) =~= first);
                self.add_segments(memory, shared, &main.segments, Ghost(none), trampoline)
            },
            Some(plan) => {
                let ghost guard = guard_part(main.end_page as int);
                let ghost second = first.push(guard);
                let ghost third = segment_parts(plan.segments@);
                let ghost code = second + third;
                proof {
                    assert(none + code =~= code);
                    lemma_segments_wf(main.segments@);
                    lemma_segments_wf(plan.segments@);
                    assert(parts_wf(code)) by {
                        assert forall|k: int| 0 <= k < code.len() implies (#[trigger] code[k]).area.start
                            <= code[k].area.end by {
                            if k < first.len() {
                                assert(code[k] == first[k]);
                            } else if k > first.len() {
                                assert(code[k] == third[k - second.len()]);
                            }
                        }
                    }
                    lemma_first_parts(code, first.len() as int, page);
                    assert(code.take(first.len() as int) =~= first);
                    lemma_first_parts(code, second.len() as int, page);
                    assert(code.take(second.len() as int) =~= second);
                    lemma_frames_push(first, guard);
                    lemma_frames_join(second, third);
                    if in_the_way(third, page) {
                        let k = choose|k: int|
                            0 <= k < third.len() && (#[trigger] third[k]).filled
                                && third[k].area.holds(page);
                        assert(code[second.len() + k] == third[k]);
                    }
                }
                if let Err(e) = self.add_segments(
                    memory,
                    shared,
                    &main.segments,
                    Ghost(none),
                    trampoline,
                ) {
                    return Err(e);
                }
                if let Err(e) = self.add_guard(
                    memory,
                    shared,
                    main.end_page,
                    Ghost(first),
                    trampoline,
                ) {
                    return Err(e);
                }
                self.add_segments(memory, shared, &plan.segments, Ghost(second), trampoline)
            },
        }
    }

    /// Adds the stack, the pages above it and the heap.
    #[verifier::spinoff_prover]
    #[verifier::rlimit(40)]
    fn add_data(
        &mut self,
        memory: &mut PhysMemory,
        shared: &mut SharedPages,
        bottom: u64,
        top: u64,
        Ghost(parts): Ghost<Seq<Part>>,
        trampoline: (VirtPageNum, PhysPageNum),
    ) -> (done: Result<(), LoadError>)
        requires
            assembled(old(self), old(memory), parts, trampoline),
            old(shared).wf(),
            bottom <= top,
            bottom % 4096 == 0,
            top % 4096 == 0,
            top + GUARD_PAGES * 4096 < VA_LIMIT,
        ensures
            final(self).wf(final(memory)),
            groups_ok(final(self).areas()),
            final(shared).wf(),
            final(self).brk() == old(self).brk(),
            final(self).heap_start() == old(self).heap_start(),
            final(self).number() == old(self).number(),
            final(self).keeps_apart(final(memory), old(self), old(memory)),
            keeps_own(old(self), old(memory), final(self), final(memory)),
            added(
                done,
                final(self),
                final(memory),
                old(memory),
                parts,
                data_parts(bottom as int, top as int),
                trampoline,
            ),
    {
        let heap: u64 = top + GUARD_PAGES * PAGE_SIZE;
        let ghost more = data_parts(bottom as int, top as int);
        let ghost all = parts + more;
        let ghost with_stack = parts.push(more[0]);
        let ghost with_guard = with_stack.push(more[1]);
        proof {
            assert(all =~= with_guard.push(more[2]));
            assert(all.take((parts.len() + 1) as int) =~= with_stack);
            assert(all.take((parts.len() + 2) as int) =~= with_guard);
            if apart(all) {
                lemma_apart_take(all, (parts.len() + 1) as int);
                lemma_apart_take(all, (parts.len() + 2) as int);
            }
            let none = Seq::<Part>::empty();
            assert(more =~= none.push(more[0]).push(more[1]).push(more[2]));
            lemma_frames_push(none, more[0]);
            lemma_frames_push(none.push(more[0]), more[1]);
            lemma_frames_push(none.push(more[0]).push(more[1]), more[2]);
            assert(frames_for(more) == 0);
            assert(more[2].area.start == more[2].area.end);
        }
        let perm = MapPermission { r: true, w: true, x: false, u: true };
        let stack = MapArea::new(
            VirtAddr(bottom),
            VirtAddr(top),
            MapType::Framed,
            perm,
            PageSize::Page4K,
        );
        assert(stack == more[0].area);
        if let Err(e) = self.add_part(memory, shared, stack, false, Ghost(parts), trampoline) {
            return Err(e);
        }
        if let Err(e) = self.add_guard(
            memory,
            shared,
            top / PAGE_SIZE,
            Ghost(with_stack),
            trampoline,
        ) {
            return Err(e);
        }
        let heap_area = MapArea::new(
            VirtAddr(heap),
            VirtAddr(heap),
            MapType::Framed,
            perm,
            PageSize::Page4K,
        );
        assert(heap_area == more[2].area);
        self.add_part(memory, shared, heap_area, true, Ghost(with_guard), trampoline)
    }

    /// Makes an address space with nothing but the page from which signal handlers return.
    fn start_image(
        memory: &mut PhysMemory,
        asid: u64,
        trampoline: (VirtPageNum, PhysPageNum),
    ) -> (started: Result<MemorySet, Option<MemorySet>>)
        requires
            old(memory).wf(),
            trampoline.0.0 < VPN_LIMIT,
        ensures
            final(memory).wf(),
            match started {
                Ok(set) => assembled(&set, final(memory), Seq::empty(), trampoline) && fresh_tables(
                    old(memory).tables(),
                    final(memory).tables(),
                    set.table().root(),
                ) && set.number() == asid && final(memory).frames().free.count()
                    >= old(memory).frames().free.count() - 3 && all_own(
                    &set,
                    final(memory),
                    old(memory),
                ),
                Err(set) => old(memory).frames().free.count() < 3 && match set {
                    Some(set) => set.wf(final(memory)) && fresh_tables(
                        old(memory).tables(),
                        final(memory).tables(),
                        set.table().root(),
                    ) && all_own(&set, final(memory), old(memory)),
                    None => final(memory).tables() == old(memory).tables(),
                },
            },
            keeps_held(old(memory), final(memory)),
    {
        proof {
            memory.lemma_wf();
            law_take_some(memory.frames().free);
        }
        let mut set = match MemorySet::new_bare(memory, asid) {
            None => {
                return Err(None);
            },
            Some(set) => set,
        };
        let ghost bare = set;
        let ghost bare_memory = *memory;
        assert(bare.mapping(&bare_memory, trampoline.0.0 as int) is None);
        let mapped: bool = set.map_user_trampoline(memory, trampoline.0, trampoline.1).is_ok();
        proof {
            let root = set.table().root();
            lemma_fresh_root(old(memory).tables(), root);
            lemma_fresh_kept(old(memory).tables(), bare_memory.tables(), memory.tables(), root);
            lemma_users_both(old(memory).frames(), bare_memory.frames(), memory.frames());
            lemma_all_own_none(&set, memory, old(memory));
        }
        if !mapped {
            return Err(Some(set));
        }
        proof {
            let parts = Seq::<Part>::empty();
            assert forall|q: int| is_page(q) implies #[trigger] set.mapping(memory, q)
                == part_mapping(parts, set.resident(), trampoline, q) by {
                assert(bare.mapping(&bare_memory, q) is None);
            }
            assert forall|v: int| #[trigger] set.page(v) == part_page(parts, v) by {}
        }
        Ok(set)
    }

    /// Builds the address space of a program; one that could not be finished is handed back.
    #[verifier::spinoff_prover]
    #[verifier::rlimit(60)]
    pub fn build_image(
        memory: &mut PhysMemory,
        shared: &mut SharedPages,
        asid: u64,
        trampoline: (VirtPageNum, PhysPageNum),
        main: &LoadPlan,
        interp: Option<&LoadPlan>,
        layout: ImageLayout,
    ) -> (built: Result<(MemorySet, LoadedImage, Copies), (LoadError, Option<MemorySet>)>)
        requires
            old(memory).wf(),
            old(shared).wf(),
            main.wf(),
            interp matches Some(plan) ==> plan.wf(),
            trampoline.0.0 < VPN_LIMIT,
            layout.stack_size % 4096 == 0,
        ensures
            final(memory).wf(),
            final(shared).wf(),
            keeps_held(old(memory), final(memory)),
            built_as(
                built,
                old(memory),
                final(memory),
                main@,
                view_of(interp),
                layout,
                trampoline,
                asid,
            ),
    {
        let ghost plan = view_of(interp);
        let end: u64 = match interp {
            Some(plan) => if plan.end_page > main.end_page {
                plan.end_page
            } else {
                main.end_page
            },
            None => main.end_page,
        };
        proof {
            assert(end == code_end(main@, plan));
        }
        let bottom: u64 = (end + GUARD_PAGES) * PAGE_SIZE;
        if bottom >= VA_LIMIT || layout.stack_size >= VA_LIMIT - bottom || GUARD_PAGES * PAGE_SIZE
            >= VA_LIMIT - bottom - layout.stack_size {
            return Err((LoadError::OutOfRange, None));
        }
        let top: u64 = bottom + layout.stack_size;
        let heap: u64 = top + GUARD_PAGES * PAGE_SIZE;
        let ghost all = image_parts(main@, plan, layout);
        let ghost page = trampoline.0.0 as int;
        let ghost count = memory.frames().free.count();
        let ghost code = code_parts(main@, plan);
        let ghost low = low_parts(main@, plan);
        let ghost data = data_parts(bottom as int, top as int);
        let ghost none = Seq::<Part>::empty();
        proof {
            assert(all =~= low + data);
            assert(none + code =~= code);
            lemma_image_parts_wf(*main, interp, layout);
            lemma_frames_push(code, guard_part(end as int));
            lemma_frames_join(low, data);
            lemma_first_parts(all, code.len() as int, page);
            assert(all.take(code.len() as int) =~= code);
            lemma_first_parts(all, low.len() as int, page);
            assert(all.take(low.len() as int) =~= low);
            if in_the_way(data, page) {
                let k = choose|k: int|
                    0 <= k < data.len() && (#[trigger] data[k]).filled && data[k].area.holds(page);
                assert(all[low.len() + k] == data[k]);
            }
        }
        let mut set = match MemorySet::start_image(memory, asid, trampoline) {
            Err(set) => {
                return Err((LoadError::OutOfFrames, set));
            },
            Ok(set) => set,
        };
        let ghost started = *memory;
        let ghost begun = set;
        let ghost root = set.table().root();
        if let Err(e) = set.add_code(memory, shared, main, interp, trampoline) {
            proof {
                lemma_fresh_kept(old(memory).tables(), started.tables(), memory.tables(), root);
                lemma_own_reached(&begun, &started, &set, memory, old(memory));
            }
            return Err((e, Some(set)));
        }
        if !(interp.is_some() && end == main.end_page) {
            if let Err(e) = set.add_guard(memory, shared, end, Ghost(code), trampoline) {
                proof {
                    lemma_fresh_kept(old(memory).tables(), started.tables(), memory.tables(), root);
                    lemma_own_reached(&begun, &started, &set, memory, old(memory));
                }
                return Err((e, Some(set)));
            }
        }
        assert(assembled(&set, memory, low, trampoline));
        assert(memory.frames().free.count() >= count - 3 - frames_for(low));
        if let Err(e) = set.add_data(memory, shared, bottom, top, Ghost(low), trampoline) {
            proof {
                lemma_fresh_kept(old(memory).tables(), started.tables(), memory.tables(), root);
                lemma_own_reached(&begun, &started, &set, memory, old(memory));
            }
            return Err((e, Some(set)));
        }
        let ghost finished = set;
        proof {
            lemma_own_reached(&begun, &started, &set, memory, old(memory));
        }
        set.brk = heap;
        set.start_brk = heap;
        proof {
            lemma_own_carried(&finished, &set, memory, old(memory));
            assert(assembled(&finished, memory, all, trampoline));
            finished.lemma_break_set(set, memory, all, trampoline);
            lemma_fresh_kept(old(memory).tables(), started.tables(), memory.tables(), root);
        }
        let image = LoadedImage {
            heap_bottom: heap,
            stack_top: top,
            final_entry: match interp {
                Some(plan) => plan.entry,
                None => main.entry,
            },
            main_entry: main.entry,
            phdr_addr: main.phdr_addr,
            phnum: main.ph_count as u64,
            phent: main.ph_entry_size as u64,
            interp_base: match interp {
                Some(plan) => Some(plan.bias),
                None => None,
            },
        };
        let copies = Copies {
            main: list_copies(main),
            interp: match interp {
                Some(plan) => list_copies(plan),
                None => Vec::new(),
            },
        };
        Ok((set, image, copies))
    }

    /// The parts do not change with the program break.
    proof fn lemma_break_set(
        self,
        set: MemorySet,
        memory: &PhysMemory,
        parts: Seq<Part>,
        trampoline: (VirtPageNum, PhysPageNum),
    )
        requires
            assembled(&self, memory, parts, trampoline),
            set.areas() == self.areas(),
            set.resident() == self.resident(),
            set.table() == self.table(),
        ensures
            assembled(&set, memory, parts, trampoline),
    {
        assert forall|v: u64| #[trigger] set.resident().contains_key(v) implies set.frame_mapped(
            memory,
            v,
        ) by {
            assert(self.frame_mapped(memory, v));
        }
        assert forall|q: int| is_page(q) implies #[trigger] set.mapping(memory, q) == part_mapping(
            parts,
            set.resident(),
            trampoline,
            q,
        ) by {
            assert(self.mapping(memory, q) == part_mapping(
                parts,
                self.resident(),
                trampoline,
                q,
            ));
        }
        assert forall|v: int| #[trigger] set.page(v) == part_page(parts, v) by {
            assert(self.page(v) == part_page(parts, v));
        }
        assert forall|v: u64| #[trigger] set.resident().contains_key(v) <==> part_perm(
            parts,
            v as int,
        ) is Some by {
            assert(self.resident().contains_key(v) <==> part_perm(parts, v as int) is Some);
        }
    }
}

/// What a plan says, where there is one.
pub open spec fn view_of(plan: Option<&LoadPlan>) -> Option<Plan> {
    match plan {
        Some(plan) => Some(plan@),
        None => None,
    }
}

/// Parts were added, or there was no place or no frame for one of them.
pub open spec fn added(
    done: Result<(), LoadError>,
    set: &MemorySet,
    memory: &PhysMemory,
    before: &PhysMemory,
    parts: Seq<Part>,
    more: Seq<Part>,
    trampoline: (VirtPageNum, PhysPageNum),
) -> bool {
    match done {
        Ok(()) => assembled(set, memory, parts + more, trampoline) && memory.frames().free.count()
            >= before.frames().free.count() - frames_for(more),
        Err(LoadError::Overlap) => !apart(parts + more),
        Err(LoadError::OutOfFrames) => in_the_way(more, trampoline.0.0 as int)
            || before.frames().free.count() < frames_for(more),
        Err(_) => false,
    }
}

/// The parts of segments end behind their start.
proof fn lemma_segments_wf(s: Seq<LoadSegment>)
    requires
        forall|i: int| 0 <= i < s.len() ==> (#[trigger] s[i]).wf(),
    ensures
        parts_wf(segment_parts(s)),
{
    let parts = segment_parts(s);
    assert forall|k: int| 0 <= k < parts.len() implies (#[trigger] parts[k]).area.start
        <= parts[k].area.end by {
        assert(s[k].wf());
    }
}

/// The parts of an image end behind their start.
proof fn lemma_image_parts_wf(main: LoadPlan, interp: Option<&LoadPlan>, layout: ImageLayout)
    requires
        main.wf(),
        interp matches Some(plan) ==> plan.wf(),
        heap_bottom(main@, view_of(interp), layout) < VA_LIMIT,
    ensures
        parts_wf(image_parts(main@, view_of(interp), layout)),
{
    let plan = view_of(interp);
    let all = image_parts(main@, plan, layout);
    let first = segment_parts(main.segments@);
    let low = low_parts(main@, plan);
    let data = data_parts(
        (code_end(main@, plan) + GUARD_PAGES) * 4096,
        stack_top(main@, plan, layout),
    );
    assert forall|k: int| 0 <= k < all.len() implies (#[trigger] all[k]).area.start
        <= all[k].area.end by {
        if k < first.len() {
            assert(all[k] == first[k]);
            assert(main.segments@[k].wf());
        } else if k >= low.len() {
            assert(all[k] == data[k - low.len()]);
        } else if let Some(p) = interp {
            let j = k - first.len() - 1;
            if 0 <= j < p.segments@.len() {
                assert(all[k] == segment_parts(p.segments@)[j]);
                assert(p.segments@[j].wf());
            }
        }
    }
}

/// What comes of building the address space of a program.
///
/// It succeeds where it lies among the user's addresses, no two parts meet,
/// the page from which signal handlers return is in none of the parts that
/// get frames, and there are frames enough.
pub open spec fn built_as(
    built: Result<(MemorySet, LoadedImage, Copies), (LoadError, Option<MemorySet>)>,
    before: &PhysMemory,
    after: &PhysMemory,
    main: Plan,
    interp: Option<Plan>,
    layout: ImageLayout,
    trampoline: (VirtPageNum, PhysPageNum),
    asid: u64,
) -> bool {
    let parts = image_parts(main, interp, layout);
    match built {
        Ok((set, image, copies)) => {
            &&& assembled(&set, after, parts, trampoline)
            &&& all_own(&set, after, before)
            &&& copies_owed(copies, main, interp)
            &&& fresh_tables(before.tables(), after.tables(), set.table().root())
            &&& after.frames().free.count() >= before.frames().free.count() - 3 - frames_for(parts)
            &&& image == loaded(main, interp, layout)
            &&& set.number() == asid
            &&& set.brk() == image.heap_bottom
            &&& set.heap_start() == image.heap_bottom
            &&& heap_bottom(main, interp, layout) < VA_LIMIT
        },
        Err((e, set)) => {
            &&& match set {
                Some(set) => set.wf(after) && fresh_tables(
                    before.tables(),
                    after.tables(),
                    set.table().root(),
                ) && all_own(&set, after, before),
                None => after.tables() == before.tables(),
            }
            &&& e == LoadError::OutOfRange <==> heap_bottom(main, interp, layout) >= VA_LIMIT
            &&& match e {
                LoadError::OutOfRange => true,
                LoadError::Overlap => !apart(parts),
                LoadError::OutOfFrames => in_the_way(parts, trampoline.0.0 as int)
                    || before.frames().free.count() < 3 + frames_for(parts),
                _ => false,
            }
        },
    }
}

/// How a program and its interpreter are mapped, or what is wrong with them.
///
/// The second file counts only where the program names an interpreter.
pub open spec fn image_plans(
    data: Seq<u8>,
    interp_data: Option<Seq<u8>>,
    layout: ImageLayout,
) -> Result<(Plan, Option<Plan>), LoadError> {
    match main_plan(data, layout) {
        Err(e) => Err(e),
        Ok(main) => match (main.interp, interp_data) {
            (Some(_), Some(b)) => match interp_plan(b, main.end_page) {
                Err(e) => Err(e),
                Ok(interp) => Ok((main, Some(interp))),
            },
            _ => Ok((main, None)),
        },
    }
}

/// What comes of building the address space of a program from files.
pub open spec fn built_from(
    built: Result<(MemorySet, LoadedImage, Copies), (LoadError, Option<MemorySet>)>,
    before: &PhysMemory,
    after: &PhysMemory,
    plans: Result<(Plan, Option<Plan>), LoadError>,
    layout: ImageLayout,
    trampoline: (VirtPageNum, PhysPageNum),
    asid: u64,
) -> bool {
    match plans {
        Err(e) => built is Err && built->Err_0.0 == e && built->Err_0.1 is None && after.tables()
            == before.tables(),
        Ok((main, interp)) => built_as(
            built,
            before,
            after,
            main,
            interp,
            layout,
            trampoline,
            asid,
        ),
    }
}

impl MemorySet {
    /// Builds the address space of a program from its file.
    pub fn from_elf(
        memory: &mut PhysMemory,
        shared: &mut SharedPages,
        asid: u64,
        trampoline: (VirtPageNum, PhysPageNum),
        elf_data: &Vec<u8>,
        layout: ImageLayout,
    ) -> (built: Result<(MemorySet, LoadedImage, Copies), (LoadError, Option<MemorySet>)>)
        requires
            old(memory).wf(),
            old(shared).wf(),
            trampoline.0.0 < VPN_LIMIT,
            layout.stack_size % 4096 == 0,
        ensures
            final(memory).wf(),
            final(shared).wf(),
            keeps_held(old(memory), final(memory)),
            built_from(
                built,
                old(memory),
                final(memory),
                image_plans(elf_data@, None, layout),
                layout,
                trampoline,
                asid,
            ),
    {
        MemorySet::from_elf_with_interp_loader(
            memory,
            shared,
            asid,
            trampoline,
            elf_data,
            None,
            layout,
        )
    }

    /// Builds the address space of a program from its file and that of its interpreter.
    ///
    /// The second counts only where the program names an interpreter.
    pub fn from_elf_with_interp_loader(
        memory: &mut PhysMemory,
        shared: &mut SharedPages,
        asid: u64,
        trampoline: (VirtPageNum, PhysPageNum),
        elf_data: &Vec<u8>,
        interp_data: Option<&Vec<u8>>,
        layout: ImageLayout,
    ) -> (built: Result<(MemorySet, LoadedImage, Copies), (LoadError, Option<MemorySet>)>)
        requires
            old(memory).wf(),
            old(shared).wf(),
            trampoline.0.0 < VPN_LIMIT,
            layout.stack_size % 4096 == 0,
        ensures
            final(memory).wf(),
            final(shared).wf(),
            keeps_held(old(memory), final(memory)),
            built_from(
                built,
                old(memory),
                final(memory),
                image_plans(
                    elf_data@,
                    match interp_data {
                        Some(data) => Some(data@),
                        None => None,
                    },
                    layout,
                ),
                layout,
                trampoline,
                asid,
            ),
    {
        let image = match parse_elf(elf_data) {
            Err(e) => {
                return Err((e, None));
            },
            Ok(image) => image,
        };
        let main = match plan_main(&image, layout) {
            Err(e) => {
                return Err((e, None));
            },
            Ok(plan) => plan,
        };
        let file: Option<&Vec<u8>> = if main.interp.is_some() {
            interp_data
        } else {
            None
        };
        match file {
            None => MemorySet::build_image(
                memory,
                shared,
                asid,
                trampoline,
                &main,
                None,
                layout,
            ),
            Some(data) => {
                let interp_image = match parse_interp(data) {
                    Err(e) => {
                        return Err((e, None));
                    },
                    Ok(image) => image,
                };
                let interp = match plan_interp(&interp_image, main.end_page) {
                    Err(e) => {
                        return Err((e, None));
                    },
                    Ok(plan) => plan,
                };
                MemorySet::build_image(
                    memory,
                    shared,
                    asid,
                    trampoline,
                    &main,
                    Some(&interp),
                    layout,
                )
            },
        }
    }
}

} // verus!
