//! How the kernel heap is divided among the cores.
//!
//! A third of the heap is shared out among local arenas, one per core; the
//! rest is one arena for large blocks.

use vstd::prelude::*;

use super::boot_memory::BootMemory;

verus! {

/// Blocks of this size or more come from the large arena.
pub const LARGE_ALLOCATION_THRESHOLD: u64 = 0x10_0000;

/// Where the arenas of the heap lie.
#[derive(Clone, Copy, Debug, PartialEq, Eq, Structural)]
pub struct ArenaLayout {
    /// Start of the heap, and of the first local arena.
    pub heap_start: u64,
    /// End of the heap, and of the large arena.
    pub heap_end: u64,
    /// Size of one local arena.
    pub local_arena_size: u64,
    /// Size of all local arenas together.
    pub local_total_size: u64,
}

/// The arena that a block belongs to.
#[derive(Clone, Copy, Debug, PartialEq, Eq, Structural)]
pub enum HeapOwner {
    /// The local arena of a core.
    Local(u64),
    /// The arena for large blocks.
    Large,
}

/// Bytes of each local arena of a heap of `size` bytes for `cores` cores.
pub open spec fn local_size(size: int, cores: int) -> int {
    size / 3 / cores / 4096 * 4096
}

/// Divides the heap of a layout, seen through the window at `base`, among `cores` cores.
///
/// `None` where a local arena or the large one would not have a page.
pub fn arena_layout(memory: &BootMemory, base: u64, cores: u64) -> (layout: Option<ArenaLayout>)
    requires
        cores > 0,
        memory.heap_start | base <= memory.heap_end | base,
    ensures
        ({
            let start = memory.heap_start | base;
            let end = memory.heap_end | base;
            let each = local_size(end - start, cores as int);
            match layout {
                None => each < 4096,
                Some(l) => each >= 4096 && l.heap_start == start && l.heap_end == end
                    && l.local_arena_size == each && l.local_total_size == each * cores
                    && l.wf(cores as int),
            }
        }),
{
    let heap_start: u64 = memory.heap_start | base;
    let heap_end: u64 = memory.heap_end | base;
    let size: u64 = heap_end - heap_start;
    let each: u64 = size / 3 / cores / 4096 * 4096;
    proof {
        let third = size / 3;
        let share = third / cores;
        assert(share * cores <= third) by (nonlinear_arith)
            requires
                share == third / cores,
                cores > 0,
        ;
        assert(each * cores <= share * cores) by (nonlinear_arith)
            requires
                each <= share,
        ;
        if each >= 4096 {
            assert(each * cores >= 4096) by (nonlinear_arith)
                requires
                    each >= 4096,
                    cores > 0,
            ;
        }
    }
    let total: u64 = each * cores;
    if each >= 4096 && size - total >= 4096 {
        Some(
            ArenaLayout {
                heap_start,
                heap_end,
                local_arena_size: each,
                local_total_size: total,
            },
        )
    } else {
        None
    }
}

impl ArenaLayout {
    /// The local arenas of `cores` cores fit, with room for the large arena.
    pub open spec fn wf(self, cores: int) -> bool {
        &&& cores > 0
        &&& self.local_arena_size >= 4096
        &&& self.local_total_size == self.local_arena_size * cores
        &&& self.heap_start + self.local_total_size + 4096 <= self.heap_end
    }

    /// First byte of an arena.
    pub open spec fn start_of(self, owner: HeapOwner) -> int {
        match owner {
            HeapOwner::Local(hart) => self.heap_start + hart * self.local_arena_size,
            HeapOwner::Large => self.heap_start + self.local_total_size,
        }
    }

    /// First byte behind an arena.
    pub open spec fn end_of(self, owner: HeapOwner) -> int {
        match owner {
            HeapOwner::Local(hart) => self.heap_start + (hart + 1) * self.local_arena_size,
            HeapOwner::Large => self.heap_end as int,
        }
    }

    /// Returns the arena that holds an address, or `None` for an address outside the heap.
    pub fn owner(&self, ptr: u64, cores: u64) -> (owner: Option<HeapOwner>)
        requires
            self.wf(cores as int),
        ensures
            owner is None <==> !(self.heap_start <= ptr < self.heap_end),
            owner matches Some(o) ==> self.start_of(o) <= ptr < self.end_of(o),
            owner matches Some(HeapOwner::Local(hart)) ==> hart < cores,
    {
        if ptr < self.heap_start {
            return None;
        }
        let offset: u64 = ptr - self.heap_start;
        if offset < self.local_total_size {
            let hart: u64 = offset / self.local_arena_size;
            proof {
                let size = self.local_arena_size;
                assert(hart * size <= offset < (hart + 1) * size) by (nonlinear_arith)
                    requires
                        hart == offset / size,
                        size > 0,
                ;
                assert(hart < cores) by (nonlinear_arith)
                    requires
                        hart * size <= offset,
                        offset < size * cores,
                        size > 0,
                ;
            }
            Some(HeapOwner::Local(hart))
        } else if ptr < self.heap_end {
            Some(HeapOwner::Large)
        } else {
            None
        }
    }

    /// Returns the start and the size of an arena, for setting it up.
    pub fn arena_range(&self, owner: HeapOwner, cores: u64) -> (range: (u64, u64))
        requires
            self.wf(cores as int),
            owner matches HeapOwner::Local(hart) ==> hart < cores,
        ensures
            range.0 == self.start_of(owner),
            range.0 + range.1 == self.end_of(owner),
    {
        match owner {
            HeapOwner::Local(hart) => {
                proof {
                    let size = self.local_arena_size;
                    assert(hart * size + size <= cores * size) by (nonlinear_arith)
                        requires
                            hart < cores,
                            size > 0,
                    ;
                    assert((hart + 1) * size == hart * size + size) by (nonlinear_arith);
                    assert(size * cores == cores * size) by (nonlinear_arith);
                }
                (self.heap_start + hart * self.local_arena_size, self.local_arena_size)
            },
            HeapOwner::Large => {
                let start: u64 = self.heap_start + self.local_total_size;
                (start, self.heap_end - start)
            },
        }
    }
}

/// The arenas in which a block of `size` bytes is tried, in this order.
pub fn arenas_to_try(size: u64, hart: u64, cores: u64) -> (arenas: Vec<HeapOwner>)
    requires
        cores > 0,
    ensures
        size >= LARGE_ALLOCATION_THRESHOLD ==> arenas@ == seq![HeapOwner::Large],
        size < LARGE_ALLOCATION_THRESHOLD ==> arenas@ == seq![
            HeapOwner::Local(hart % cores),
            HeapOwner::Large,
        ],
{
    let mut arenas: Vec<HeapOwner> = Vec::new();
    if size < LARGE_ALLOCATION_THRESHOLD {
        arenas.push(HeapOwner::Local(hart % cores));
    }
    arenas.push(HeapOwner::Large);
    assert(size >= LARGE_ALLOCATION_THRESHOLD ==> arenas@ =~= seq![HeapOwner::Large]);
    assert(size < LARGE_ALLOCATION_THRESHOLD ==> arenas@ =~= seq![
        HeapOwner::Local(hart % cores),
        HeapOwner::Large,
    ]);
    arenas
}

/// An address lies in one arena only, so a block goes back where it came from.
pub proof fn law_arenas_disjoint(
    layout: ArenaLayout,
    cores: int,
    a: HeapOwner,
    b: HeapOwner,
    ptr: int,
)
    requires
        layout.wf(cores),
        a matches HeapOwner::Local(hart) ==> hart < cores,
        b matches HeapOwner::Local(hart) ==> hart < cores,
        layout.start_of(a) <= ptr < layout.end_of(a),
        layout.start_of(b) <= ptr < layout.end_of(b),
    ensures
        a == b,
{
    let size = layout.local_arena_size as int;
    if let HeapOwner::Local(i) = a {
        assert((i + 1) * size <= cores * size) by (nonlinear_arith)
            requires
                i + 1 <= cores,
                size > 0,
        ;
        assert(size * cores == cores * size) by (nonlinear_arith);
    }
    if let HeapOwner::Local(j) = b {
        assert((j + 1) * size <= cores * size) by (nonlinear_arith)
            requires
                j + 1 <= cores,
                size > 0,
        ;
        assert(size * cores == cores * size) by (nonlinear_arith);
    }
    if let (HeapOwner::Local(i), HeapOwner::Local(j)) = (a, b) {
        let offset = ptr - layout.heap_start;
        assert(i == j) by (nonlinear_arith)
            requires
                i * size <= offset < (i + 1) * size,
                j * size <= offset < (j + 1) * size,
                size > 0,
        ;
    }
}

} // verus!
