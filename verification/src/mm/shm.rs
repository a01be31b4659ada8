//! Shared memory segments.

use std::collections::BTreeMap;

use vstd::prelude::*;

use super::address::{pages_to_cover, PageSize, PhysPageNum, PAGE_SIZE};
use super::frame_allocator::{
    keeps_users, law_take_conserves, law_take_some, lemma_users_both, FrameTracker, FreeFrames,
};
use super::phys::{
    fresh, held_on, keeps_held, lemma_free_before, lemma_fresh_stays, lemma_held_both,
    lemma_held_self, PhysMemory,
};
use crate::process::id::{taken, Numbers, RecycleAllocator};

verus! {

broadcast use {vstd::std_specs::btree::group_btree_axioms, vstd::laws_cmp::group_laws_cmp};

/// Who may use a segment.
#[derive(Clone, Copy, Debug, PartialEq, Eq, Structural)]
pub struct IpcPerm {
    pub key: i32,
    pub uid: u32,
    pub gid: u32,
    pub cuid: u32,
    pub cgid: u32,
    pub mode: u16,
    pub seq: u16,
}

/// The state of a segment.
#[derive(Clone, Copy, Debug, PartialEq, Eq, Structural)]
pub struct ShmidDs {
    pub shm_perm: IpcPerm,
    pub shm_segsz: u64,
    pub shm_atime: u64,
    pub shm_dtime: u64,
    pub shm_ctime: u64,
    pub shm_cpid: u64,
    pub shm_lpid: u64,
    pub shm_nattch: u64,
}

/// The state of a segment that was just made.
pub open spec fn fresh_stat(size: u64, key: i32, mode: u16, cpid: u64) -> ShmidDs {
    ShmidDs {
        shm_perm: IpcPerm { key, uid: 0, gid: 0, cuid: 0, cgid: 0, mode, seq: 0 },
        shm_segsz: size,
        shm_atime: 0,
        shm_dtime: 0,
        shm_ctime: 0,
        shm_cpid: cpid,
        shm_lpid: 0,
        shm_nattch: 0,
    }
}

/// A segment: its number, its frames in order, and its state.
pub struct Shm {
    id: u64,
    frames: Vec<FrameTracker>,
    stat: ShmidDs,
}

/// The free frames after some were taken one by one.
pub open spec fn after_takes(free: FreeFrames, n: int) -> FreeFrames
    decreases n,
{
    if n <= 0 {
        free
    } else {
        after_takes(free, n - 1).take(PageSize::Page4K)->Some_0.1
    }
}

/// The frames were taken one by one, each with one user, and nothing else has happened to memory.
pub open spec fn frames_taken(
    before: &PhysMemory,
    after: &PhysMemory,
    frames: Seq<FrameTracker>,
) -> bool {
    &&& after.tables() == before.tables()
    &&& keeps_held(before, after)
    &&& keeps_users(before.frames(), after.frames())
    &&& forall|i: int|
        0 <= i < frames.len() ==> fresh(before, after, (#[trigger] frames[i]).ppn.0, 1)
    &&& forall|i: int, j: int|
        0 <= i < j < frames.len() ==> (#[trigger] frames[i]).ppn != (#[trigger] frames[j]).ppn
    &&& after.frames().free == after_takes(before.frames().free, frames.len() as int)
    &&& forall|i: int|
        0 <= i < frames.len() ==> #[trigger] frames[i] == (FrameTracker {
            ppn: PhysPageNum(
                after_takes(before.frames().free, i).take(PageSize::Page4K)->Some_0.0 as u64,
            ),
            page_size: PageSize::Page4K,
        })
}

/// One more frame is taken.
proof fn lemma_one_more(
    before: &PhysMemory,
    mid: &PhysMemory,
    after: &PhysMemory,
    frames: Seq<FrameTracker>,
    frame: FrameTracker,
)
    requires
        before.wf(),
        mid.wf(),
        frames_taken(before, mid, frames),
        keeps_held(mid, after),
        keeps_users(mid.frames(), after.frames()),
        fresh(mid, after, frame.ppn.0, 1),
    ensures
        keeps_held(before, after),
        keeps_users(before.frames(), after.frames()),
        forall|i: int|
            0 <= i < frames.push(frame).len() ==> fresh(
                before,
                after,
                (#[trigger] frames.push(frame)[i]).ppn.0,
                1,
            ),
        forall|i: int, j: int|
            0 <= i < j < frames.push(frame).len() ==> (#[trigger] frames.push(frame)[i]).ppn != (
            #[trigger] frames.push(frame)[j]).ppn,
{
    broadcast use {lemma_held_both, lemma_users_both};

    assert(held_on(before.contents(), mid.contents()));
    lemma_free_before(before, mid, frame.ppn.0);
    assert forall|i: int| 0 <= i < frames.push(frame).len() implies fresh(
        before,
        after,
        (#[trigger] frames.push(frame)[i]).ppn.0,
        1,
    ) by {
        if i < frames.len() {
            let p = frames[i].ppn.0;
            assert(fresh(before, mid, p, 1));
            assert(after.frames().count(p) == mid.frames().count(p));
            lemma_fresh_stays(before, mid, after, p, 1);
        }
    }
}

impl Shm {
    /// The number.
    pub closed spec fn id(&self) -> u64 {
        self.id
    }

    /// The frames in order.
    pub closed spec fn frames(&self) -> Seq<FrameTracker> {
        self.frames@
    }

    /// The state.
    pub closed spec fn state(&self) -> ShmidDs {
        self.stat
    }

    /// Returns the state.
    pub fn stat(&self) -> (stat: ShmidDs)
        ensures
            stat == self.state(),
    {
        self.stat
    }

    /// Changes the state.
    pub fn set_stat(&mut self, stat: ShmidDs)
        ensures
            final(self).state() == stat,
            final(self).id() == old(self).id(),
            final(self).frames() == old(self).frames(),
    {
        self.stat = stat;
    }

    /// Makes a segment of standard pages that hold `size` bytes.
    ///
    /// Without frames for all, those that were taken are handed back.
    pub fn new(memory: &mut PhysMemory, id: u64, size: u64, key: i32, mode: u16, cpid: u64) -> (shm:
        Result<Self, Vec<FrameTracker>>)
        requires
            old(memory).wf(),
            size <= u64::MAX - 4096,
        ensures
            final(memory).wf(),
            shm is Ok <==> old(memory).frames().free.count() >= pages_to_cover(size as int),
            match shm {
                Ok(s) => {
                    &&& s.id() == id
                    &&& s.state() == fresh_stat(size, key, mode, cpid)
                    &&& s.frames().len() == pages_to_cover(size as int)
                    &&& frames_taken(old(memory), final(memory), s.frames())
                },
                Err(frames) => {
                    &&& frames@.len() == old(memory).frames().free.count()
                    &&& frames_taken(old(memory), final(memory), frames@)
                },
            },
    {
        let num_pages: u64 = (size + (PAGE_SIZE - 1)) / PAGE_SIZE;
        let mut frames: Vec<FrameTracker> = Vec::new();
        let mut n: u64 = 0;
        proof {
            memory.lemma_wf();
            lemma_held_self(memory.contents());
        }
        while n < num_pages
            invariant
                n <= num_pages,
                num_pages == pages_to_cover(size as int),
                n == frames@.len(),
                memory.wf(),
                old(memory).wf(),
                memory.frames().free.count() == old(memory).frames().free.count() - n,
                n <= old(memory).frames().free.count(),
                frames_taken(old(memory), memory, frames@),
            decreases num_pages - n,
        {
            proof {
                memory.lemma_wf();
                law_take_some(memory.frames().free);
                if memory.frames().free.count() > 0 {
                    law_take_conserves(memory.frames().free, PageSize::Page4K, 0);
                }
            }
            let ghost mid = *memory;
            match memory.take_frame(PageSize::Page4K) {
                None => {
                    return Err(frames);
                },
                Some(frame) => {
                    proof {
                        lemma_one_more(old(memory), &mid, memory, frames@, frame);
                    }
                    frames.push(frame);
                },
            }
            n = n + 1;
        }
        let stat = ShmidDs {
            shm_perm: IpcPerm { key, uid: 0, gid: 0, cuid: 0, cgid: 0, mode, seq: 0 },
            shm_segsz: size,
            shm_atime: 0,
            shm_dtime: 0,
            shm_ctime: 0,
            shm_cpid: cpid,
            shm_lpid: 0,
            shm_nattch: 0,
        };
        Ok(Shm { id, frames, stat })
    }

    /// Returns the number.
    pub fn get_id(&self) -> (id: u64)
        ensures
            id == self.id(),
    {
        self.id
    }

    /// Returns the size in bytes.
    pub fn get_size(&self) -> (size: u64)
        ensures
            size == self.state().shm_segsz,
    {
        self.stat.shm_segsz
    }

    /// Gives the frames up.
    pub fn into_frames(self) -> (frames: Vec<FrameTracker>)
        ensures
            frames@ == self.frames(),
    {
        self.frames
    }
}

/// The segments, by their numbers.
pub struct ShmManager {
    id_allocator: RecycleAllocator,
    shms: BTreeMap<u64, Shm>,
}

impl ShmManager {
    /// The numbers.
    pub closed spec fn ids(&self) -> Numbers {
        self.id_allocator@
    }

    /// The segments.
    pub closed spec fn shms(&self) -> Map<u64, Shm> {
        self.shms@
    }

    /// A segment is kept under its number, which is in use.
    pub closed spec fn wf(&self) -> bool {
        &&& self.id_allocator.wf()
        &&& forall|id: u64| #[trigger]
            self.shms@.contains_key(id) ==> self.shms@[id].id == id && id < self.id_allocator@.next
                && !self.id_allocator@.free.contains(id)
    }

    /// A segment is kept under its number, and that number is not given out again.
    pub proof fn law_kept_under_its_number(&self, id: u64)
        requires
            self.wf(),
            self.shms().contains_key(id),
        ensures
            self.shms()[id].id() == id,
            id < self.ids().next,
            !self.ids().free.contains(id),
    {
    }

    /// Starts without segments.
    pub fn new() -> (manager: Self)
        ensures
            manager.wf(),
            manager.shms() == Map::<u64, Shm>::empty(),
            manager.ids() == (Numbers { next: 0, free: Seq::empty() }),
    {
        let manager = ShmManager { id_allocator: RecycleAllocator::new(), shms: BTreeMap::new() };
        assert(manager.shms() =~= Map::<u64, Shm>::empty());
        manager
    }

    /// Removes a segment and takes its number back.
    pub fn remove_shm(&mut self, id: u64) -> (shm: Option<Shm>)
        requires
            old(self).wf(),
            id < old(self).ids().next,
            !old(self).ids().free.contains(id),
        ensures
            final(self).wf(),
            final(self).shms() == old(self).shms().remove(id),
            final(self).ids() == (Numbers {
                free: old(self).ids().free.push(id),
                ..old(self).ids()
            }),
            shm is Some <==> old(self).shms().contains_key(id),
            shm matches Some(s) ==> s == old(self).shms()[id],
    {
        let shm = self.shms.remove(&id);
        self.id_allocator.dealloc(id);
        proof {
            assert(self.shms() =~= old(self).shms().remove(id));
            assert forall|k: u64| #[trigger] self.shms@.contains_key(k) implies self.shms@[k].id
                == k && k < self.id_allocator@.next && !self.id_allocator@.free.contains(k) by {
                assert(old(self).shms@.contains_key(k));
                let free = old(self).ids().free;
                if self.id_allocator@.free.contains(k) {
                    let i = choose|i: int|
                        0 <= i < self.id_allocator@.free.len() && self.id_allocator@.free[i] == k;
                    assert(i < free.len() ==> free[i] == k);
                }
            }
        }
        shm
    }

    /// Makes a segment and returns its number; without frames those that were taken come back.
    pub fn create_shm(
        &mut self,
        memory: &mut PhysMemory,
        size: u64,
        key: i32,
        mode: u16,
        cpid: u64,
    ) -> (made: Result<u64, Vec<FrameTracker>>)
        requires
            old(self).wf(),
            old(memory).wf(),
            size <= u64::MAX - 4096,
            old(self).ids().free.len() == 0 ==> old(self).ids().next < u64::MAX,
        ensures
            final(memory).wf(),
            final(self).wf(),
            made is Ok <==> old(memory).frames().free.count() >= pages_to_cover(size as int),
            made matches Err(frames) ==> {
                &&& final(self).shms() == old(self).shms()
                &&& final(self).ids() == old(self).ids()
                &&& frames@.len() == old(memory).frames().free.count()
                &&& frames_taken(old(memory), final(memory), frames@)
            },
            made matches Ok(id) ==> {
                &&& taken(old(self).ids(), final(self).ids(), id)
                &&& final(self).shms().dom() == old(self).shms().dom().insert(id)
                &&& forall|k: u64|
                    k != id && #[trigger] old(self).shms().contains_key(k) ==> final(self).shms()[k] == old(self).shms()[k]
                &&& final(self).shms()[id].id() == id
                &&& final(self).shms()[id].state() == fresh_stat(size, key, mode, cpid)
                &&& final(self).shms()[id].frames().len() == pages_to_cover(size as int)
                &&& frames_taken(old(memory), final(memory), final(self).shms()[id].frames())
            },
    {
        match Shm::new(memory, 0, size, key, mode, cpid) {
            Err(frames) => Err(frames),
            Ok(made) => {
                let mut shm = made;
                let ghost numbers = self.ids();
                let id: u64 = self.id_allocator.alloc_id();
                shm.id = id;
                proof {
                    assert forall|k: u64| #[trigger] self.shms@.contains_key(k) implies k != id && k
                        < self.id_allocator@.next && !self.id_allocator@.free.contains(k) by {
                        if self.id_allocator@.free.contains(k) {
                            let i = choose|i: int|
                                0 <= i < self.id_allocator@.free.len()
                                    && self.id_allocator@.free[i] == k;
                            assert(numbers.free[i] == k);
                        }
                        if numbers.free.len() > 0 {
                            assert(numbers.free.contains(numbers.free.last()));
                        }
                    }
                    assert(!self.id_allocator@.free.contains(id)) by {
                        if numbers.free.len() > 0 && self.id_allocator@.free.contains(id) {
                            let i = choose|i: int|
                                0 <= i < self.id_allocator@.free.len()
                                    && self.id_allocator@.free[i] == id;
                            assert(numbers.free[i] == id);
                            assert(numbers.free[numbers.free.len() - 1] == id);
                        }
                    }
                }
                let ghost before = self.shms();
                self.shms.insert(id, shm);
                proof {
                    assert(self.shms() =~= before.insert(id, shm));
                    assert(self.shms().dom() =~= before.dom().insert(id));
                }
                Ok(id)
            },
        }
    }
}

} // verus!
