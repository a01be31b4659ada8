//! Numbers for processes, threads and kernel stacks.

use vstd::prelude::*;

use crate::mm::address::PAGE_SIZE;

verus! {

/// The most unused kernel stacks that are kept mapped.
pub const KSTACK_CACHE_LIMIT: usize = 64;

/// Hands out numbers; one that was given back is handed out again first.
pub struct RecycleAllocator {
    current: u64,
    recycled: Vec<u64>,
}

/// What an allocator of numbers holds.
pub struct Numbers {
    /// The lowest number that was never handed out.
    pub next: int,
    /// The numbers that were given back, the latest last.
    pub free: Seq<u64>,
}

impl Numbers {
    /// The number is handed out, of those from `start` on.
    pub open spec fn in_use(self, start: int, id: int) -> bool {
        start <= id < self.next && !self.free.contains(id as u64)
    }
}

impl View for RecycleAllocator {
    type V = Numbers;

    closed spec fn view(&self) -> Numbers {
        Numbers { next: self.current as int, free: self.recycled@ }
    }
}

impl RecycleAllocator {
    /// What was given back had been handed out, and nothing is given back twice.
    pub open spec fn wf(&self) -> bool {
        &&& forall|i: int| 0 <= i < self@.free.len() ==> (#[trigger] self@.free[i]) < self@.next
        &&& self@.free.no_duplicates()
    }

    /// Makes an allocator that starts with zero.
    pub fn new() -> (ids: Self)
        ensures
            ids.wf(),
            ids@ == (Numbers { next: 0, free: Seq::empty() }),
    {
        RecycleAllocator::new_with_start(0)
    }

    /// Makes an allocator that starts with a number.
    pub fn new_with_start(start: u64) -> (ids: Self)
        ensures
            ids.wf(),
            ids@ == (Numbers { next: start as int, free: Seq::empty() }),
    {
        let ids = RecycleAllocator { current: start, recycled: Vec::new() };
        assert(ids@.free =~= Seq::<u64>::empty());
        ids
    }

    /// Hands out a number: the one given back last, else the next.
    pub fn alloc_id(&mut self) -> (id: u64)
        requires
            old(self).wf(),
            old(self)@.free.len() == 0 ==> old(self)@.next < u64::MAX,
        ensures
            final(self).wf(),
            if old(self)@.free.len() > 0 {
                id == old(self)@.free.last() && final(self)@ == (Numbers {
                    free: old(self)@.free.drop_last(),
                    ..old(self)@
                })
            } else {
                id == old(self)@.next && final(self)@ == (Numbers {
                    next: old(self)@.next + 1,
                    ..old(self)@
                })
            },
    {
        match self.recycled.pop() {
            Some(id) => {
                proof {
                    let before = old(self)@.free;
                    assert(self@.free =~= before.drop_last());
                    assert forall|i: int| 0 <= i < self@.free.len() implies (
                    #[trigger] self@.free[i]) < self@.next by {
                        assert(before[i] < old(self)@.next);
                    }
                }
                id
            },
            None => {
                let id: u64 = self.current;
                self.current = id + 1;
                proof {
                    assert(self@.free =~= old(self)@.free);
                    assert forall|i: int| 0 <= i < self@.free.len() implies (
                    #[trigger] self@.free[i]) < self@.next by {
                        assert(old(self)@.free[i] < old(self)@.next);
                    }
                }
                id
            },
        }
    }

    /// Takes a number back that is handed out.
    pub fn dealloc(&mut self, id: u64)
        requires
            old(self).wf(),
            id < old(self)@.next,
            !old(self)@.free.contains(id),
        ensures
            final(self).wf(),
            final(self)@ == (Numbers { free: old(self)@.free.push(id), ..old(self)@ }),
    {
        self.recycled.push(id);
        proof {
            let before = old(self)@.free;
            assert(self@.free =~= before.push(id));
            assert forall|i: int| 0 <= i < self@.free.len() implies (#[trigger] self@.free[i])
                < self@.next by {
                if i < before.len() {
                    assert(before[i] < old(self)@.next);
                }
            }
        }
    }

    /// Tells whether a number can be given back.
    pub fn can_dealloc(&self, id: u64) -> (yes: bool)
        requires
            self.wf(),
        ensures
            yes <==> id < self@.next && !self@.free.contains(id),
    {
        if id >= self.current {
            return false;
        }
        let mut i: usize = 0;
        while i < self.recycled.len()
            invariant
                i <= self@.free.len(),
                self@.free == self.recycled@,
                forall|k: int| 0 <= k < i ==> self@.free[k] != id,
            decreases self@.free.len() - i,
        {
            if self.recycled[i] == id {
                assert(self@.free[i as int] == id);
                return false;
            }
            i = i + 1;
        }
        true
    }
}

/// A number that is handed out was not in use, and then it is.
pub proof fn law_alloc_is_fresh(before: Numbers, after: Numbers, start: int, id: u64)
    requires
        before.free.no_duplicates(),
        forall|i: int|
            0 <= i < before.free.len() ==> start <= (#[trigger] before.free[i]) < before.next,
        start <= before.next <= u64::MAX,
        if before.free.len() > 0 {
            id == before.free.last() && after == (Numbers {
                free: before.free.drop_last(),
                ..before
            })
        } else {
            id == before.next && after == (Numbers { next: before.next + 1, ..before })
        },
    ensures
        !before.in_use(start, id as int),
        after.in_use(start, id as int),
        forall|other: int|
            0 <= other <= u64::MAX && other != id ==> (#[trigger] after.in_use(start, other)
                == before.in_use(start, other)),
{
    if before.free.len() > 0 {
        let n = before.free.len() - 1;
        assert(before.free[n] == id);
        assert(before.free.contains(id));
        assert(!after.free.contains(id)) by {
            if after.free.contains(id) {
                let k = choose|k: int| 0 <= k < after.free.len() && after.free[k] == id;
                assert(before.free[k] == id);
            }
        }
        assert forall|other: int| 0 <= other <= u64::MAX && other != id implies (
        #[trigger] after.in_use(start, other) == before.in_use(start, other)) by {
            if before.free.contains(other as u64) {
                let k = choose|k: int| 0 <= k < before.free.len() && before.free[k] == other as u64;
                assert(after.free[k] == other as u64);
            }
            if after.free.contains(other as u64) {
                let k = choose|k: int| 0 <= k < after.free.len() && after.free[k] == other as u64;
                assert(before.free[k] == other as u64);
            }
        }
    } else {
        assert(!after.free.contains(id));
    }
}

/// The number of a process; it goes back when the process is gone.
#[derive(Clone, Copy, Debug, PartialEq, Eq, Structural)]
pub struct PidHandle(pub u64);

/// The number of a thread, and whether it goes back when the thread is gone.
///
/// The first thread of a process has the number of the process, which that gives back.
#[derive(Clone, Copy, Debug, PartialEq, Eq, Structural)]
pub struct TIdHandle(pub u64, pub bool);

/// The number of an address space.
#[derive(Clone, Copy, Debug, PartialEq, Eq, Structural)]
pub struct ASIDHandle(pub u64);

/// Allocates the number of a process.
pub fn pid_alloc(ids: &mut RecycleAllocator) -> (pid: PidHandle)
    requires
        old(ids).wf(),
        old(ids)@.free.len() == 0 ==> old(ids)@.next < u64::MAX,
    ensures
        final(ids).wf(),
        taken(old(ids)@, final(ids)@, pid.0),
{
    PidHandle(ids.alloc_id())
}

/// Allocates the number of a thread.
pub fn tid_alloc(ids: &mut RecycleAllocator) -> (tid: TIdHandle)
    requires
        old(ids).wf(),
        old(ids)@.free.len() == 0 ==> old(ids)@.next < u64::MAX,
    ensures
        final(ids).wf(),
        tid.1,
        taken(old(ids)@, final(ids)@, tid.0),
{
    TIdHandle(ids.alloc_id(), true)
}

/// Gives the first thread the number of its process.
pub fn tid_from_pid(pid: u64) -> (tid: TIdHandle)
    ensures
        tid == TIdHandle(pid, false),
{
    TIdHandle(pid, false)
}

/// Takes the number of a thread back where it is the thread's own.
pub fn release_tid(ids: &mut RecycleAllocator, tid: TIdHandle)
    requires
        old(ids).wf(),
        tid.1 ==> tid.0 < old(ids)@.next && !old(ids)@.free.contains(tid.0),
    ensures
        final(ids).wf(),
        final(ids)@ == if tid.1 {
            Numbers { free: old(ids)@.free.push(tid.0), ..old(ids)@ }
        } else {
            old(ids)@
        },
{
    if tid.1 {
        ids.dealloc(tid.0);
    }
}

/// Allocates the number of an address space.
pub fn asid_alloc(ids: &mut RecycleAllocator) -> (asid: ASIDHandle)
    requires
        old(ids).wf(),
        old(ids)@.free.len() == 0 ==> old(ids)@.next < u64::MAX,
    ensures
        final(ids).wf(),
        taken(old(ids)@, final(ids)@, asid.0),
{
    ASIDHandle(ids.alloc_id())
}

/// The number was handed out.
pub open spec fn taken(before: Numbers, after: Numbers, id: u64) -> bool {
    if before.free.len() > 0 {
        id == before.free.last() && after == (Numbers { free: before.free.drop_last(), ..before })
    } else {
        id == before.next && after == (Numbers { next: before.next + 1, ..before })
    }
}

/// Where the kernel stacks lie.
#[derive(Clone, Copy, Debug, PartialEq, Eq, Structural)]
pub struct StackLayout {
    /// The address behind the first stack.
    pub top: u64,
    /// The bytes of a stack.
    pub size: u64,
}

impl StackLayout {
    /// The stack with the number lies among the addresses.
    pub open spec fn has(self, id: int) -> bool {
        id >= 0 && id * (self.size + 4096) + self.size <= self.top
    }

    /// The address behind a stack.
    pub open spec fn top_of(self, id: int) -> int {
        self.top - id * (self.size + 4096)
    }
}

/// Returns the first address of a kernel stack and the address behind it.
///
/// Below every stack lies a page that is not mapped.
pub fn kernel_stack_position(layout: StackLayout, app_id: u64) -> (range: (u64, u64))
    requires
        layout.has(app_id as int),
    ensures
        range.1 == layout.top_of(app_id as int),
        range.0 == range.1 - layout.size,
{
    assert(app_id * (layout.size + 4096) >= 0 && (app_id > 0 ==> layout.size + 4096 <= app_id * (
    layout.size + 4096))) by (nonlinear_arith)
        requires
            app_id >= 0,
            layout.size >= 0,
    ;
    if app_id == 0 {
        assert(0 * (layout.size + 4096) == 0) by (nonlinear_arith);
        return (layout.top - layout.size, layout.top);
    }
    let top: u64 = layout.top - app_id * (layout.size + PAGE_SIZE);
    (top - layout.size, top)
}

/// Two kernel stacks do not meet: a page lies between them.
pub proof fn law_stacks_apart(layout: StackLayout, a: int, b: int)
    requires
        layout.has(a),
        layout.has(b),
        a < b,
    ensures
        layout.top_of(b) + 4096 <= layout.top_of(a) - layout.size,
{
    assert(b * (layout.size + 4096) >= a * (layout.size + 4096) + (layout.size + 4096))
        by (nonlinear_arith)
        requires
            a < b,
            layout.size >= 0,
    ;
}

/// The kernel stack with a number.
#[derive(Clone, Copy, Debug, PartialEq, Eq, Structural)]
pub struct KernelStack(pub u64);

impl KernelStack {
    /// Returns the address behind the stack.
    pub fn get_top(&self, layout: StackLayout) -> (top: u64)
        requires
            layout.has(self.0 as int),
        ensures
            top == layout.top_of(self.0 as int),
    {
        let (bottom, top) = kernel_stack_position(layout, self.0);
        top
    }

    /// Returns the highest aligned address at which an object fits on the stack.
    pub fn position_for(&self, layout: StackLayout, size: u64, align: u64) -> (addr: u64)
        requires
            layout.has(self.0 as int),
            size <= layout.size,
            align > 0,
        ensures
            addr % align == 0,
            addr <= layout.top_of(self.0 as int) - size < addr + align,
    {
        let (bottom, top) = kernel_stack_position(layout, self.0);
        let end: u64 = top - size;
        assert((end - end % align) % (align as int) == 0 && end % align < align && end % align
            <= end) by (nonlinear_arith)
            requires
                align > 0,
        ;
        end - end % align
    }
}

/// The kernel stacks: the numbers in use, and the unused stacks that stay mapped.
///
/// A stack that stays mapped keeps its address and its frames, so what another
/// processor still knows of the mapping remains true.
pub struct KernelStacks {
    ids: RecycleAllocator,
    cache: Vec<u64>,
    generation: u64,
}

impl KernelStacks {
    /// The numbers.
    pub closed spec fn ids(&self) -> Numbers {
        self.ids@
    }

    /// The unused stacks that are mapped, the latest last.
    pub closed spec fn cache(&self) -> Seq<u64> {
        self.cache@
    }

    /// How often the mappings changed, modulo the size of a word.
    pub closed spec fn generation(&self) -> u64 {
        self.generation
    }

    /// The kept stacks have numbers that are in use, each one once.
    pub closed spec fn wf(&self) -> bool {
        &&& self.ids.wf()
        &&& self.cache@.len() <= KSTACK_CACHE_LIMIT
        &&& self.cache@.no_duplicates()
        &&& forall|i: int|
            0 <= i < self.cache@.len() ==> (#[trigger] self.cache@[i]) < self.ids@.next
                && !self.ids@.free.contains(self.cache@[i])
    }

    /// Starts without stacks.
    pub fn new() -> (stacks: Self)
        ensures
            stacks.wf(),
            stacks.ids() == (Numbers { next: 0, free: Seq::empty() }),
            stacks.cache() == Seq::<u64>::empty(),
            stacks.generation() == 0,
    {
        let stacks = KernelStacks {
            ids: RecycleAllocator::new(),
            cache: Vec::new(),
            generation: 0,
        };
        assert(stacks.cache() =~= Seq::<u64>::empty());
        stacks
    }

    /// Returns how often the mappings of stacks changed.
    pub fn kernel_mapping_generation(&self) -> (generation: u64)
        ensures
            generation == self.generation(),
    {
        self.generation
    }

    /// Allocates a stack; tells whether it has to be mapped, else it is cleared and used again.
    pub fn kstack_alloc(&mut self) -> (stack: (KernelStack, bool))
        requires
            old(self).wf(),
            old(self).cache().len() == 0 && old(self).ids().free.len() == 0 ==> old(self).ids().next < u64::MAX,
        ensures
            final(self).wf(),
            if old(self).cache().len() > 0 {
                &&& stack == (KernelStack(old(self).cache().last()), false)
                &&& final(self).cache() == old(self).cache().drop_last()
                &&& final(self).ids() == old(self).ids()
                &&& final(self).generation() == old(self).generation()
            } else {
                &&& stack.1
                &&& final(self).cache() == old(self).cache()
                &&& taken(old(self).ids(), final(self).ids(), stack.0.0)
                &&& final(self).generation() == old(self).generation().wrapping_add(1)
            },
    {
        match self.cache.pop() {
            Some(id) => {
                proof {
                    let before = old(self).cache();
                    assert(self.cache@ =~= before.drop_last());
                    assert forall|i: int| 0 <= i < self.cache@.len() implies (
                    #[trigger] self.cache@[i]) < self.ids@.next && !self.ids@.free.contains(
                        self.cache@[i],
                    ) by {
                        assert(before[i] < self.ids@.next);
                    }
                }
                (KernelStack(id), false)
            },
            None => {
                let id: u64 = self.ids.alloc_id();
                self.generation = self.generation.wrapping_add(1);
                assert(self.cache@ =~= old(self).cache());
                (KernelStack(id), true)
            },
        }
    }

    /// Lets go of a stack; tells whether it has to be unmapped, else it stays mapped for the next.
    pub fn release(&mut self, stack: KernelStack) -> (unmap: bool)
        requires
            old(self).wf(),
            stack.0 < old(self).ids().next,
            !old(self).ids().free.contains(stack.0),
            !old(self).cache().contains(stack.0),
        ensures
            final(self).wf(),
            unmap <==> old(self).cache().len() >= KSTACK_CACHE_LIMIT,
            if unmap {
                &&& final(self).cache() == old(self).cache()
                &&& final(self).ids() == (Numbers {
                    free: old(self).ids().free.push(stack.0),
                    ..old(self).ids()
                })
                &&& final(self).generation() == old(self).generation().wrapping_add(1)
            } else {
                &&& final(self).cache() == old(self).cache().push(stack.0)
                &&& final(self).ids() == old(self).ids()
                &&& final(self).generation() == old(self).generation()
            },
    {
        if self.cache.len() < KSTACK_CACHE_LIMIT {
            self.cache.push(stack.0);
            proof {
                let before = old(self).cache();
                assert(self.cache@ =~= before.push(stack.0));
                assert forall|i: int| 0 <= i < self.cache@.len() implies (
                #[trigger] self.cache@[i]) < self.ids@.next && !self.ids@.free.contains(
                    self.cache@[i],
                ) by {
                    if i < before.len() {
                        assert(before[i] < self.ids@.next);
                    }
                }
            }
            return false;
        }
        self.generation = self.generation.wrapping_add(1);
        self.ids.dealloc(stack.0);
        proof {
            assert forall|i: int| 0 <= i < self.cache@.len() implies (#[trigger] self.cache@[i])
                < self.ids@.next && !self.ids@.free.contains(self.cache@[i]) by {
                let free = old(self).ids().free;
                assert(old(self).cache()[i] < old(self).ids().next);
                assert(!free.contains(self.cache@[i]));
                assert(self.cache@[i] != stack.0);
                if self.ids@.free.contains(self.cache@[i]) {
                    let k = choose|k: int|
                        0 <= k < self.ids@.free.len() && self.ids@.free[k] == self.cache@[i];
                    assert(k < free.len() ==> free[k] == self.cache@[i]);
                }
            }
        }
        true
    }
}

} // verus!
