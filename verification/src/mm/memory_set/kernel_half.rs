//! Address spaces with the kernel's half: every process sees the kernel at the same addresses.

use vstd::prelude::*;

use crate::mm::address::{pages_to_cover, PhysPageNum, VirtPageNum, VA_LIMIT, VPN_LIMIT};
use crate::mm::elf::{
    end_of, lemma_shown, shown_beside, ImageLayout, LoadError, LoadSegment, Plan, GUARD_PAGES,
};
use crate::mm::page_table::{
    apart, child, disjoint, grandchild, is_page, is_tree, lemma_reached_is_table,
    lemma_same_tables, reaches, walk, PageTable,
};
use crate::mm::phys::{keeps_held, lemma_held_both, PhysMemory, Tables};

use super::fork::{
    child_mapping, fork_owed, forked, inherited, parent_mapping, shared_once,
};
use super::load::{
    assembled, copies_owed, fresh_tables, heap_bottom, image_parts, image_plans, is_part, loaded,
    part_mapping, part_page, part_perm, segment_parts, Copies, LoadedImage, Part,
};
use super::owned::{all_own, lemma_own_kept};
use super::{groups_ok, MemorySet, SharedPages};

verus! {

/// Roots with no table in common can share the upper half of one.
proof fn lemma_disjoint_apart(t: Tables, user: u64, kernel: u64)
    requires
        disjoint(t, user, kernel),
    ensures
        apart(t, user, kernel),
{
    assert(reaches(t, user, user));
    assert(reaches(t, kernel, kernel));
    assert forall|k: int| 0 <= k < 512 && #[trigger] child(t, kernel, k) is Some implies child(
        t,
        kernel,
        k,
    ) != Some(user) by {
        assert(reaches(t, kernel, child(t, kernel, k)->Some_0));
    }
    assert forall|k: int, l: int|
        0 <= k < 512 && 0 <= l < 512 && #[trigger] grandchild(t, kernel, k, l) is Some implies
        grandchild(t, kernel, k, l) != Some(user) by {
        assert(reaches(t, kernel, grandchild(t, kernel, k, l)->Some_0));
    }
    assert forall|i: int, k: int|
        0 <= i < 256 && 256 <= k < 512 && #[trigger] child(t, user, i) is Some implies child(
        t,
        user,
        i,
    ) != #[trigger] child(t, kernel, k) by {
        assert(reaches(t, user, child(t, user, i)->Some_0));
    }
    assert forall|i: int, k: int, l: int|
        0 <= i < 256 && 256 <= k < 512 && 0 <= l < 512 && #[trigger] child(t, user, i) is Some
            implies child(t, user, i) != #[trigger] grandchild(t, kernel, k, l) by {
        assert(reaches(t, user, child(t, user, i)->Some_0));
    }
    assert forall|i: int, j: int, k: int|
        0 <= i < 256 && 0 <= j < 512 && 256 <= k < 512 && #[trigger] grandchild(t, user, i, j)
            is Some implies grandchild(t, user, i, j) != #[trigger] child(t, kernel, k) by {
        assert(reaches(t, user, grandchild(t, user, i, j)->Some_0));
    }
    assert forall|i: int, j: int, k: int, l: int|
        0 <= i < 256 && 0 <= j < 512 && 256 <= k < 512 && 0 <= l < 512 && #[trigger] grandchild(
            t,
            user,
            i,
            j,
        ) is Some implies grandchild(t, user, i, j) != #[trigger] grandchild(t, kernel, k, l) by {
        assert(reaches(t, user, grandchild(t, user, i, j)->Some_0));
    }
}

/// New tables leave those of another root as they were, and can share its upper half.
proof fn lemma_fresh_apart(t: Tables, n: Tables, root: u64, kernel: u64)
    requires
        is_tree(t, kernel),
        fresh_tables(t, n, root),
    ensures
        is_tree(n, kernel),
        forall|q: int| is_page(q) ==> #[trigger] walk(n, kernel, q) == walk(t, kernel, q),
        apart(n, root, kernel),
{
    assert forall|p: u64| reaches(t, kernel, p) implies #[trigger] n.contains_key(p) && n[p]
        == t[p] by {
        lemma_reached_is_table(t, kernel, p);
    }
    lemma_same_tables(t, n, kernel);
    assert forall|p: u64| #[trigger] reaches(n, root, p) implies !reaches(n, kernel, p) by {
        if reaches(n, kernel, p) {
            assert(reaches(t, kernel, p));
            lemma_reached_is_table(t, kernel, p);
        }
    }
    lemma_disjoint_apart(n, root, kernel);
}

/// The pages with frames lie in the user's half.
pub open spec fn below_kernel(set: &MemorySet) -> bool {
    forall|v: u64| #[trigger] set.resident().contains_key(v) ==> v < VPN_LIMIT / 2
}

/// The child has what a fork gives it in the user's half, and what its parent had in the
/// kernel's half.
pub open spec fn forked_whole(
    before: &MemorySet,
    memory_before: &PhysMemory,
    parent: &MemorySet,
    child: &MemorySet,
    memory: &PhysMemory,
    trampoline: (u64, PhysPageNum),
) -> bool {
    &&& parent.wf(memory)
    &&& child.wf(memory)
    &&& parent.areas() == before.areas()
    &&& parent.resident() == before.resident()
    &&& parent.brk() == before.brk()
    &&& parent.heap_start() == before.heap_start()
    &&& parent.number() == before.number()
    &&& child.areas() == before.areas()
    &&& child.brk() == before.brk()
    &&& child.heap_start() == before.heap_start()
    &&& forall|q: u64| #[trigger]
        child.resident().contains_key(q) <==> inherited(before, q as int)
    &&& forall|q: u64| #[trigger]
        child.resident().contains_key(q) ==> child.resident()[q] == before.resident()[q]
    &&& forall|q: int|
        is_page(q) ==> #[trigger] child.mapping(memory, q) == if q < VPN_LIMIT / 2 {
            child_mapping(before, q, VPN_LIMIT as int, trampoline)
        } else {
            before.mapping(memory_before, q)
        }
    &&& forall|q: int|
        is_page(q) ==> #[trigger] parent.mapping(memory, q) == parent_mapping(
            before,
            memory_before,
            q,
            VPN_LIMIT as int,
        )
    &&& forall|i: int|
        256 <= i < 512 ==> #[trigger] memory.tables()[child.table().root()][i]
            == memory.tables()[parent.table().root()][i]
    &&& shared_once(memory_before, memory, child.resident())
    &&& keeps_held(memory_before, memory)
}

/// The parts are there in the user's half, and the kernel in its own.
pub open spec fn assembled_whole(
    set: &MemorySet,
    memory: &PhysMemory,
    parts: Seq<Part>,
    trampoline: (VirtPageNum, PhysPageNum),
    kernel: &PageTable,
    memory_before: &PhysMemory,
) -> bool {
    &&& set.wf(memory)
    &&& groups_ok(set.areas())
    &&& super::load::apart(parts)
    &&& forall|i: int|
        0 <= i < set.areas().len() ==> is_part(parts, #[trigger] set.areas()[i])
    &&& forall|k: int| 0 <= k < parts.len() ==> set.areas().contains((#[trigger] parts[k]).area)
    &&& forall|v: int| #[trigger] set.page(v) == part_page(parts, v)
    &&& forall|v: u64| #[trigger]
        set.resident().contains_key(v) <==> part_perm(parts, v as int) is Some
    &&& below_kernel(set)
    &&& forall|q: int|
        is_page(q) ==> #[trigger] set.mapping(memory, q) == if q < VPN_LIMIT / 2 {
            part_mapping(parts, set.resident(), trampoline, q)
        } else {
            kernel.at(memory_before, q)
        }
}

/// What is there after frames ran out during a fork: a child that has some of the pages, one
/// without pages, or none.
pub open spec fn half_forked(
    before: &MemorySet,
    memory_before: &PhysMemory,
    parent: &MemorySet,
    memory: &PhysMemory,
    trampoline: (u64, PhysPageNum),
    unfinished: Option<MemorySet>,
) -> bool {
    match unfinished {
        None => *parent == *before && memory.tables() == memory_before.tables() && memory.frames()
            == memory_before.frames(),
        Some(child) => (exists|bound: int| #[trigger]
            forked(before, memory_before, parent, &child, memory, bound, trampoline)) || (
        child.wf(memory) && child.resident().dom().is_empty() && *parent == *before && parent.wf(
            memory,
        )),
    }
}

/// What comes of loading a program into an address space with the kernel's half.
///
/// As without that half, and the heap starts in the user's half.
pub open spec fn loaded_whole(
    built: Result<(MemorySet, LoadedImage, Copies), (LoadError, Option<MemorySet>)>,
    before: &PhysMemory,
    after: &PhysMemory,
    plans: Result<(Plan, Option<Plan>), LoadError>,
    layout: ImageLayout,
    trampoline: (VirtPageNum, PhysPageNum),
    asid: u64,
    kernel: &PageTable,
) -> bool {
    match plans {
        Err(e) => built is Err && built->Err_0.0 == e && built->Err_0.1 is None,
        Ok((main, interp)) => {
            let parts = image_parts(main, interp, layout);
            let inside = heap_bottom(main, interp, layout) <= VA_LIMIT / 2;
            match built {
                Ok((set, image, copies)) => {
                    &&& inside
                    &&& assembled_whole(&set, after, parts, trampoline, kernel, before)
                    &&& all_own(&set, after, before)
                    &&& after.frames().free.count() >= before.frames().free.count() - 3
                        - super::load::frames_for(parts)
                    &&& copies_owed(copies, main, interp)
                    &&& image == loaded(main, interp, layout)
                    &&& set.number() == asid
                    &&& set.brk() == image.heap_bottom
                    &&& set.heap_start() == image.heap_bottom
                },
                Err((e, set)) => {
                    &&& set matches Some(set) ==> set.wf(after) && all_own(&set, after, before)
                    &&& match e {
                        LoadError::OutOfRange => !inside,
                        LoadError::Overlap => !super::load::apart(parts),
                        LoadError::OutOfFrames => super::load::in_the_way(
                            parts,
                            trampoline.0.0 as int,
                        ) || before.frames().free.count() < 3 + super::load::frames_for(parts),
                        _ => false,
                    }
                },
            }
        },
    }
}

proof fn lemma_end_reached(s: Seq<LoadSegment>, i: int)
    requires
        0 <= i < s.len(),
    ensures
        pages_to_cover(s[i].end as int) <= end_of(s),
    decreases s.len(),
{
    if i < s.len() - 1 {
        lemma_end_reached(s.drop_last(), i);
    }
}

/// Every part of an image ends where the heap starts, or before.
proof fn lemma_parts_below_heap(main: Plan, interp: Option<Plan>, layout: ImageLayout, k: int)
    requires
        end_of(main.segments) <= main.end_page,
        interp matches Some(plan) ==> end_of(plan.segments) <= plan.end_page,
        layout.stack_size % 4096 == 0,
        heap_bottom(main, interp, layout) < VA_LIMIT,
        0 <= main.end_page,
        0 <= k < image_parts(main, interp, layout).len(),
    ensures
        image_parts(main, interp, layout)[k].area.end * 4096 <= heap_bottom(main, interp, layout),
{
    let all = image_parts(main, interp, layout);
    let first = segment_parts(main.segments);
    let low = super::load::low_parts(main, interp);
    let data = super::load::data_parts(
        (super::load::code_end(main, interp) + GUARD_PAGES) * 4096,
        super::load::stack_top(main, interp, layout),
    );
    if k < first.len() {
        assert(all[k] == first[k]);
        lemma_end_reached(main.segments, k);
    } else if k >= low.len() {
        assert(all[k] == data[k - low.len()]);
    } else if let Some(plan) = interp {
        let j = k - first.len() - 1;
        if 0 <= j < plan.segments.len() {
            assert(all[k] == segment_parts(plan.segments)[j]);
            lemma_end_reached(plan.segments, j);
        }
    }
}

/// A page with a frame from the start lies in a part.
proof fn lemma_perm_in_part(parts: Seq<Part>, v: int) -> (k: int)
    requires
        part_perm(parts, v) is Some,
    ensures
        0 <= k < parts.len(),
        parts[k].area.holds(v),
    decreases parts.len(),
{
    if parts.last().area.holds(v) {
        parts.len() - 1
    } else {
        lemma_perm_in_part(parts.drop_last(), v)
    }
}

impl MemorySet {
    /// Makes the address space of a child, with the kernel's half of its parent.
    ///
    /// All address spaces have the same kernel's half, so this is the kernel's own.
    pub fn fork_user(
        &mut self,
        memory: &mut PhysMemory,
        asid: u64,
        trampoline: VirtPageNum,
        trampoline_ppn: PhysPageNum,
    ) -> (outcome: Result<MemorySet, Option<MemorySet>>)
        requires
            old(self).wf(old(memory)),
            below_kernel(old(self)),
            trampoline.0 < VPN_LIMIT,
        ensures
            final(memory).wf(),
            outcome matches Ok(child) ==> {
                &&& child.number() == asid
                &&& forked_whole(
                    old(self),
                    old(memory),
                    final(self),
                    &child,
                    final(memory),
                    (trampoline.0, trampoline_ppn),
                )
            },
            outcome matches Err(unfinished) ==> half_forked(
                old(self),
                old(memory),
                final(self),
                final(memory),
                (trampoline.0, trampoline_ppn),
                unfinished,
            ),
            fork_owed(old(self), old(memory), trampoline.0) ==> outcome is Ok,
    {
        match self.from_existed_user(memory, asid, trampoline, trampoline_ppn) {
            Err(child) => Err(child),
            Ok(mut child) => {
                let ghost made = child;
                let ghost mid = *memory;
                assert(forked(
                    old(self),
                    old(memory),
                    self,
                    &made,
                    &mid,
                    VPN_LIMIT as int,
                    (trampoline.0, trampoline_ppn),
                ));
                proof {
                    reveal(forked);
                    let t = mid.tables();
                    let a = self.table().root();
                    let b = child.table().root();
                    assert(disjoint(t, b, a)) by {
                        assert forall|p: u64| #[trigger] reaches(t, b, p) implies !reaches(
                            t,
                            a,
                            p,
                        ) by {
                            if reaches(t, a, p) {
                                assert(!reaches(t, b, p));
                            }
                        }
                    }
                    lemma_disjoint_apart(t, b, a);
                    assert forall|v: u64| #[trigger] child.resident().contains_key(v) implies v
                        < VPN_LIMIT / 2 by {
                        assert(inherited(old(self), v as int));
                        assert(old(self).resident().contains_key(v));
                    }
                }
                child.install_kernel_space(memory, &self.page_table);
                proof {
                    lemma_held_both(old(memory).contents(), mid.contents(), memory.contents());
                    assert forall|q: int| is_page(q) implies #[trigger] self.mapping(memory, q)
                        == parent_mapping(old(self), old(memory), q, VPN_LIMIT as int) by {
                        assert(self.page_table.at(memory, q) == self.page_table.at(&mid, q));
                        assert(self.mapping(&mid, q) == parent_mapping(
                            old(self),
                            old(memory),
                            q,
                            VPN_LIMIT as int,
                        ));
                    }
                    assert forall|q: int| is_page(q) implies #[trigger] child.mapping(memory, q)
                        == if q < VPN_LIMIT / 2 {
                        child_mapping(
                            old(self),
                            q,
                            VPN_LIMIT as int,
                            (trampoline.0, trampoline_ppn),
                        )
                    } else {
                        old(self).mapping(old(memory), q)
                    } by {
                        assert(made.mapping(&mid, q) == child_mapping(
                            old(self),
                            q,
                            VPN_LIMIT as int,
                            (trampoline.0, trampoline_ppn),
                        ));
                        assert(self.mapping(&mid, q) == self.page_table.at(&mid, q));
                        assert(self.mapping(&mid, q) == parent_mapping(
                            old(self),
                            old(memory),
                            q,
                            VPN_LIMIT as int,
                        ));
                        if q >= VPN_LIMIT / 2 {
                            assert(!old(self).resident().contains_key(q as u64));
                        }
                    }
                    assert forall|v: u64| #[trigger] self.resident().contains_key(v) implies
                        self.frame_mapped(memory, v) by {
                        assert(self.frame_mapped(&mid, v));
                        assert(self.mapping(memory, v as int) == parent_mapping(
                            old(self),
                            old(memory),
                            v as int,
                            VPN_LIMIT as int,
                        ));
                        assert(self.mapping(&mid, v as int) == parent_mapping(
                            old(self),
                            old(memory),
                            v as int,
                            VPN_LIMIT as int,
                        ));
                    }
                    assert(self.table() == self.page_table);
                }
                Ok(child)
            },
        }
    }

    /// Builds the address space of a program from its file and that of its interpreter, with
    /// the kernel's half.
    pub fn load_user(
        memory: &mut PhysMemory,
        shared: &mut SharedPages,
        kernel: &PageTable,
        asid: u64,
        trampoline: (VirtPageNum, PhysPageNum),
        elf_data: &Vec<u8>,
        interp_data: Option<&Vec<u8>>,
        layout: ImageLayout,
    ) -> (built: Result<(MemorySet, LoadedImage, Copies), (LoadError, Option<MemorySet>)>)
        requires
            old(memory).wf(),
            old(shared).wf(),
            kernel.wf(old(memory)),
            trampoline.0.0 < VPN_LIMIT,
            layout.stack_size % 4096 == 0,
        ensures
            final(memory).wf(),
            final(shared).wf(),
            kernel.wf(final(memory)),
            kernel.same_pages(final(memory), kernel, old(memory)),
            keeps_held(old(memory), final(memory)),
            loaded_whole(
                built,
                old(memory),
                final(memory),
                image_plans(
                    elf_data@,
                    match interp_data {
                        Some(data) => Some(data@),
                        None => None,
                    },
                    layout,
                ),
                layout,
                trampoline,
                asid,
                kernel,
            ),
    {
        let ghost plans = image_plans(
            elf_data@,
            match interp_data {
                Some(data) => Some(data@),
                None => None,
            },
            layout,
        );
        match MemorySet::from_elf_with_interp_loader(
            memory,
            shared,
            asid,
            trampoline,
            elf_data,
            interp_data,
            layout,
        ) {
            Err((e, set)) => {
                proof {
                    if set is Some {
                        lemma_fresh_apart(
                            old(memory).tables(),
                            memory.tables(),
                            set->Some_0.table().root(),
                            kernel.root(),
                        );
                    }
                }
                Err((e, set))
            },
            Ok((mut set, image, copies)) => {
                let ghost mid = *memory;
                let ghost made = set;
                proof {
                    lemma_fresh_apart(
                        old(memory).tables(),
                        memory.tables(),
                        set.table().root(),
                        kernel.root(),
                    );
                    assert forall|q: int| is_page(q) implies #[trigger] kernel.at(memory, q)
                        == kernel.at(old(memory), q) by {
                        assert(walk(memory.tables(), kernel.root(), q) == walk(
                            old(memory).tables(),
                            kernel.root(),
                            q,
                        ));
                    }
                }
                if image.heap_bottom > VA_LIMIT / 2 {
                    return Err((LoadError::OutOfRange, Some(set)));
                }
                let ghost (main, interp) = plans->Ok_0;
                let ghost parts = image_parts(main, interp, layout);
                assert(assembled(&made, &mid, parts, trampoline));
                proof {
                    lemma_plans_end(elf_data@, interp_data, layout);
                    assert forall|v: u64| #[trigger] set.resident().contains_key(v) implies v
                        < VPN_LIMIT / 2 by {
                        assert(part_perm(parts, v as int) is Some);
                        let k = lemma_perm_in_part(parts, v as int);
                        lemma_parts_below_heap(main, interp, layout, k);
                    }
                }
                set.install_kernel_space(memory, kernel);
                proof {
                    lemma_own_kept(
                        made.resident(),
                        old(memory),
                        &mid,
                        memory,
                        0,
                        VPN_LIMIT as int,
                    );
                    lemma_held_both(old(memory).contents(), mid.contents(), memory.contents());
                    assert forall|q: int| is_page(q) implies #[trigger] set.mapping(memory, q)
                        == if q < VPN_LIMIT / 2 {
                        part_mapping(parts, set.resident(), trampoline, q)
                    } else {
                        kernel.at(old(memory), q)
                    } by {
                        assert(made.mapping(&mid, q) == part_mapping(
                            parts,
                            made.resident(),
                            trampoline,
                            q,
                        ));
                        assert(kernel.at(&mid, q) == kernel.at(old(memory), q));
                    }
                    assert forall|v: int| #[trigger] set.page(v) == part_page(parts, v) by {
                        assert(made.page(v) == part_page(parts, v));
                    }
                    assert forall|v: u64| #[trigger] set.resident().contains_key(v) <==> part_perm(
                        parts,
                        v as int,
                    ) is Some by {
                        assert(made.resident().contains_key(v) <==> part_perm(
                            parts,
                            v as int,
                        ) is Some);
                    }
                    assert forall|q: int| is_page(q) implies #[trigger] kernel.at(memory, q)
                        == kernel.at(old(memory), q) by {
                        assert(kernel.at(memory, q) == kernel.at(&mid, q));
                    }
                }
                Ok((set, image, copies))
            },
        }
    }
}

/// A plan ends behind its parts.
pub proof fn lemma_plans_end(data: Seq<u8>, interp_data: Option<&Vec<u8>>, layout: ImageLayout)
    ensures
        image_plans(
            data,
            match interp_data {
                Some(data) => Some(data@),
                None => None,
            },
            layout,
        ) matches Ok((main, interp)) ==> end_of(main.segments) <= main.end_page && (interp matches
            Some(plan) ==> end_of(plan.segments) <= plan.end_page) && 0 <= main.end_page,
{
    assert forall|s: Seq<LoadSegment>, page: int| 0 <= end_of(
        #[trigger] s.filter(shown_beside(page)),
    ) <= end_of(s) by {
        lemma_shown(s, page);
        lemma_end_positive(s.filter(shown_beside(page)));
    }
}

proof fn lemma_end_positive(s: Seq<LoadSegment>)
    ensures
        0 <= end_of(s),
    decreases s.len(),
{
    if s.len() > 0 {
        lemma_end_positive(s.drop_last());
    }
}

/// A program that was loaded starts with an empty heap that is in order.
pub proof fn law_program_starts_with_a_heap(
    set: MemorySet,
    image: LoadedImage,
    copies: Copies,
    before: &PhysMemory,
    after: &PhysMemory,
    data: Seq<u8>,
    interp_data: Option<&Vec<u8>>,
    layout: ImageLayout,
    trampoline: (VirtPageNum, PhysPageNum),
    asid: u64,
    kernel: &PageTable,
)
    requires
        loaded_whole(
            Ok((set, image, copies)),
            before,
            after,
            image_plans(
                data,
                match interp_data {
                    Some(data) => Some(data@),
                    None => None,
                },
                layout,
            ),
            layout,
            trampoline,
            asid,
            kernel,
        ),
    ensures
        set.heap_ok(),
        set.brk() == set.heap_start(),
{
    lemma_plans_end(data, interp_data, layout);
}

} // verus!
