//! Physical memory as the page tables see it: the frames and the contents of
//! the pages that hold tables.

use std::collections::BTreeMap;

use vstd::prelude::*;

use super::address::{PageSize, PhysPageNum, PPN_LIMIT, TABLE_ENTRIES};
use super::frame_allocator::{
    holds, keeps_users, law_give_conserves, law_take_conserves, FramePool, FrameTracker, Frames,
    FreeFrames,
};
use super::pte::PageTableEntry;

verus! {

broadcast use {vstd::std_specs::btree::group_btree_axioms, vstd::laws_cmp::group_laws_cmp};

/// The entries of each page that holds a table.
pub type Tables = Map<u64, Seq<PageTableEntry>>;

/// Physical memory: the frames, the pages among them that hold tables, and the frames that hold
/// what their last user left.
pub struct PhysMemory {
    pool: FramePool,
    tables: BTreeMap<u64, Vec<PageTableEntry>>,
    stale: Vec<FrameTracker>,
}

/// A table whose entries map nothing.
pub open spec fn blank_table() -> Seq<PageTableEntry> {
    Seq::new(512, |i: int| PageTableEntry::blank())
}

/// Every frame is free at most once, and lies before the end of the frames.
pub open spec fn frames_sound(free: FreeFrames) -> bool {
    &&& free.bounded()
    &&& free.current <= free.end
    &&& free.exclusive()
    &&& forall|p: int| p < 0 || p >= free.end ==> #[trigger] free.times_free(p) == 0
}

/// What is in physical memory.
pub struct Contents {
    /// The frames.
    pub frames: Frames,
    /// The contents of the tables.
    pub tables: Tables,
    /// The frames that are to be cleared before anyone uses them.
    pub stale: Set<FrameTracker>,
}

/// From one state to another no frame was given back: what was not free is not free, has users
/// where it had, and is a table only where it was one. What is to be cleared still is.
#[verifier::opaque]
pub open spec fn held_on(was: Contents, is: Contents) -> bool {
    let before = was.frames;
    let tables = was.tables;
    let after = is.frames;
    let tables_after = is.tables;
    &&& was.stale.subset_of(is.stale)
    &&& after.free.end == before.free.end
    &&& forall|p: u64|
        #![trigger after.free.times_free(p as int)]
        #![trigger after.count(p)]
        #![trigger tables_after.contains_key(p)]
        before.free.times_free(p as int) == 0 ==> {
            &&& after.free.times_free(p as int) == 0
            &&& before.count(p) > 0 ==> after.count(p) > 0
            &&& tables_after.contains_key(p) ==> tables.contains_key(p)
        }
}

/// No frame was given back.
pub open spec fn keeps_held(before: &PhysMemory, after: &PhysMemory) -> bool {
    held_on(before.contents(), after.contents())
}

/// Where no frame is given back twice, none is given back.
pub broadcast proof fn lemma_held_both(a: Contents, b: Contents, c: Contents)
    requires
        #[trigger] held_on(a, b),
        #[trigger] held_on(b, c),
    ensures
        held_on(a, c),
{
    reveal(held_on);
    assert forall|p: u64|
        #![trigger c.frames.free.times_free(p as int)]
        #![trigger c.frames.count(p)]
        #![trigger c.tables.contains_key(p)]
        a.frames.free.times_free(p as int) == 0 implies {
        &&& c.frames.free.times_free(p as int) == 0
        &&& a.frames.count(p) > 0 ==> c.frames.count(p) > 0
        &&& c.tables.contains_key(p) ==> a.tables.contains_key(p)
    } by {
        assert(b.frames.free.times_free(p as int) == 0);
        assert(c.frames.free.times_free(p as int) == 0);
    }
}

/// What does nothing gives no frame back.
pub broadcast proof fn lemma_held_self(a: Contents)
    ensures
        #[trigger] held_on(a, a),
{
    reveal(held_on);
}

/// The frame was free and has been taken: it has that many users, is no table, and is to be
/// cleared before it is used.
pub open spec fn fresh(before: &PhysMemory, after: &PhysMemory, p: u64, users: int) -> bool {
    &&& before.frames().free.times_free(p as int) == 1
    &&& after.frames().free.times_free(p as int) == 0
    &&& after.frames().count(p) == users
    &&& !after.tables().contains_key(p)
    &&& after.stale().contains(
        FrameTracker { ppn: PhysPageNum(p), page_size: PageSize::Page4K },
    )
}

/// The page is in use as a frame: it is not free, has users, and is no table.
pub open spec fn held(memory: &PhysMemory, p: u64) -> bool {
    &&& memory.frames().free.times_free(p as int) == 0
    &&& memory.frames().count(p) > 0
    &&& !memory.tables().contains_key(p)
    &&& p < memory.frames().free.end
}

/// What is in use stays so where no frame is given back.
pub proof fn lemma_stays_held(before: &PhysMemory, after: &PhysMemory, p: u64)
    requires
        held(before, p),
        keeps_held(before, after),
    ensures
        held(after, p),
{
    reveal(held_on);
    assert(after.frames().free.times_free(p as int) == 0);
}

/// A frame that was taken is in use.
pub proof fn lemma_fresh_held(before: &PhysMemory, after: &PhysMemory, p: u64, users: int)
    requires
        before.wf(),
        keeps_held(before, after),
        fresh(before, after, p, users),
        users > 0,
    ensures
        held(after, p),
{
    reveal(held_on);
    before.lemma_wf();
}

/// Where no frame is given back and users stay, a frame that was taken stays taken.
pub proof fn lemma_fresh_stays(
    before: &PhysMemory,
    mid: &PhysMemory,
    after: &PhysMemory,
    p: u64,
    users: int,
)
    requires
        fresh(before, mid, p, users),
        keeps_held(mid, after),
        after.frames().count(p) == mid.frames().count(p),
    ensures
        fresh(before, after, p, users),
{
    reveal(held_on);
}

/// A frame that is free after others were taken was free before.
pub proof fn lemma_free_before(before: &PhysMemory, after: &PhysMemory, p: u64)
    requires
        before.wf(),
        after.wf(),
        keeps_held(before, after),
        after.frames().free.times_free(p as int) > 0,
    ensures
        before.frames().free.times_free(p as int) == 1,
        after.frames().free.times_free(p as int) == 1,
{
    reveal(held_on);
    before.lemma_wf();
    after.lemma_wf();
    assert(before.frames().free.times_free(p as int) <= 1);
}

impl PhysMemory {
    /// The contents of the tables.
    pub closed spec fn tables(&self) -> Tables {
        self.tables@.map_values(|v: Vec<PageTableEntry>| v@)
    }

    /// The frames.
    pub closed spec fn frames(&self) -> Frames {
        self.pool@
    }

    /// The frames that are to be cleared before anyone uses them: the bytes of the last user are
    /// still there.
    pub closed spec fn stale(&self) -> Set<FrameTracker> {
        self.stale@.to_set()
    }

    /// What is in memory.
    pub open spec fn contents(&self) -> Contents {
        Contents { frames: self.frames(), tables: self.tables(), stale: self.stale() }
    }

    /// Tables are whole pages in use.
    pub closed spec fn wf(&self) -> bool {
        &&& self.pool.wf()
        &&& frames_sound(self.frames().free)
        &&& forall|p: u64| #[trigger]
            self.tables().contains_key(p) ==> self.tables()[p].len() == TABLE_ENTRIES
                && self.frames().free.times_free(p as int) == 0
    }

    /// What well-formed memory gives: sound frames, and tables of full length that are not free.
    pub proof fn lemma_wf(&self)
        requires
            self.wf(),
        ensures
            frames_sound(self.frames().free),
            forall|p: u64| #[trigger]
                self.tables().contains_key(p) ==> self.tables()[p].len() == TABLE_ENTRIES
                    && self.frames().free.times_free(p as int) == 0,
    {
    }

    /// Takes over a pool of frames; no page holds a table yet.
    pub fn new(pool: FramePool) -> (memory: Self)
        requires
            pool.wf(),
            frames_sound(pool@.free),
        ensures
            memory.wf(),
            memory.frames() == pool@,
            memory.tables() == Map::<u64, Seq<PageTableEntry>>::empty(),
            memory.stale() == Set::<FrameTracker>::empty(),
    {
        let memory = PhysMemory { pool, tables: BTreeMap::new(), stale: Vec::new() };
        assert(memory.stale() =~= Set::<FrameTracker>::empty());
        assert(memory.tables() =~= Map::<u64, Seq<PageTableEntry>>::empty());
        memory
    }

    /// Reads an entry of a table.
    pub fn read(&self, table: PhysPageNum, index: usize) -> (entry: PageTableEntry)
        requires
            self.wf(),
            self.tables().contains_key(table.0),
            index < TABLE_ENTRIES,
        ensures
            entry == self.tables()[table.0][index as int],
    {
        assert(self.tables()[table.0].len() == TABLE_ENTRIES);
        match self.tables.get(&table.0) {
            Some(entries) => entries[index],
            None => PageTableEntry::empty(),
        }
    }

    /// Writes an entry of a table.
    pub fn write(&mut self, table: PhysPageNum, index: usize, entry: PageTableEntry)
        requires
            old(self).wf(),
            old(self).tables().contains_key(table.0),
            index < TABLE_ENTRIES,
        ensures
            final(self).wf(),
            final(self).frames() == old(self).frames(),
            final(self).tables() == old(self).tables().insert(
                table.0,
                old(self).tables()[table.0].update(index as int, entry),
            ),
            final(self).stale() == old(self).stale(),
            keeps_held(old(self), final(self)),
    {
        assert(self.tables()[table.0].len() == TABLE_ENTRIES);
        proof {
            reveal(held_on);
        }
        if let Some(mut entries) = self.tables.remove(&table.0) {
            entries[index] = entry;
            self.tables.insert(table.0, entries);
        }
        assert(self.tables() =~= old(self).tables().insert(
            table.0,
            old(self).tables()[table.0].update(index as int, entry),
        ));
    }

    /// Returns the number of free standard pages.
    pub fn free_frames(&self) -> (count: u64)
        requires
            self.wf(),
            self.frames().free.count() <= u64::MAX,
        ensures
            count == self.frames().free.count(),
    {
        self.pool.get_free_frames()
    }

    /// Takes a frame that holds no table; it is to be cleared before it is used.
    pub fn take_frame(&mut self, page_size: PageSize) -> (frame: Option<FrameTracker>)
        requires
            old(self).wf(),
        ensures
            final(self).wf(),
            final(self).tables() == old(self).tables(),
            match old(self).frames().free.take(page_size) {
                None => frame is None && final(self).frames() == old(self).frames()
                    && final(self).stale() == old(self).stale(),
                Some((start, rest)) => {
                    let taken = FrameTracker { ppn: PhysPageNum(start as u64), page_size };
                    &&& 0 <= start < PPN_LIMIT
                    &&& frame == Some(taken)
                    &&& final(self).frames() == (Frames {
                        free: rest,
                        users: old(self).frames().users.insert(start as u64, 1),
                    })
                    &&& final(self).stale() == old(self).stale().insert(taken)
                    &&& !old(self).tables().contains_key(start as u64)
                    &&& rest.times_free(start) == 0
                },
            },
            frame is Some && page_size == PageSize::Page4K ==> fresh(
                old(self),
                final(self),
                frame->Some_0.ppn.0,
                1,
            ),
            keeps_held(old(self), final(self)),
            keeps_users(old(self).frames(), final(self).frames()),
    {
        let frame = self.take_any(page_size);
        if let Some(taken) = frame {
            let ghost before = self.stale@;
            let ghost memory = *self;
            self.stale.push(taken);
            proof {
                lemma_pushed(before, taken);
                reveal(held_on);
                memory.lemma_wf();
                old(self).lemma_wf();
                law_take_conserves(old(self).frames().free, page_size, taken.ppn.0 as int);
                assert(old(self).frames().free.times_free(taken.ppn.0 as int) <= 1);
            }
        }
        frame
    }

    /// Takes a frame that holds no table, with the bytes that its last user left.
    fn take_any(&mut self, page_size: PageSize) -> (frame: Option<FrameTracker>)
        requires
            old(self).wf(),
        ensures
            final(self).wf(),
            final(self).tables() == old(self).tables(),
            final(self).stale() == old(self).stale(),
            match old(self).frames().free.take(page_size) {
                None => frame is None && final(self).frames() == old(self).frames(),
                Some((start, rest)) => {
                    &&& 0 <= start < PPN_LIMIT
                    &&& frame == Some(
                        FrameTracker { ppn: PhysPageNum(start as u64), page_size },
                    )
                    &&& final(self).frames() == (Frames {
                        free: rest,
                        users: old(self).frames().users.insert(start as u64, 1),
                    })
                    &&& !old(self).tables().contains_key(start as u64)
                    &&& rest.times_free(start) == 0
                },
            },
            keeps_held(old(self), final(self)),
            keeps_users(old(self).frames(), final(self).frames()),
    {
        let ghost free = self.frames().free;
        proof {
            if let Some((start, rest)) = free.take(page_size) {
                law_take_conserves(free, page_size, start);
                assert(free.times_free(start) >= 1);
                assert(free.times_free(start) <= 1);
            }
        }
        let frame = self.pool.frame_alloc(page_size);
        proof {
            if let Some((start, rest)) = free.take(page_size) {
                assert forall|p: int| #[trigger] rest.times_free(p) <= free.times_free(p) by {
                    law_take_conserves(free, page_size, p);
                }
                assert forall|p: int| #[trigger] rest.times_free(p) <= 1 by {
                    assert(free.times_free(p) <= 1);
                }
                assert forall|p: int| p < 0 || p >= free.end implies #[trigger] rest.times_free(p)
                    == 0 by {
                    assert(free.times_free(p) == 0);
                }
                law_take_conserves(free, page_size, 0);
                assert(start < free.end <= PPN_LIMIT);
                assert(start % (PPN_LIMIT as int) == start);
                assert(rest.end == free.end);
                assert forall|p: u64| #[trigger] self.tables().contains_key(p) implies
                    self.tables()[p].len() == TABLE_ENTRIES && rest.times_free(p as int) == 0 by {
                    assert(old(self).tables().contains_key(p));
                    assert(rest.times_free(p as int) <= free.times_free(p as int));
                }
                assert(rest.exclusive());
                assert(frames_sound(rest));
                assert(self.frames().free == rest);
                reveal(held_on);
                assert forall|p: u64| free.times_free(p as int) == 0 implies #[trigger] self.frames().count(
                    p,
                ) == old(self).frames().count(p) && rest.times_free(p as int) == 0 by {
                    assert(rest.times_free(p as int) <= free.times_free(p as int));
                    assert(p != start);
                }
            } else {
                assert(self.frames() == old(self).frames());
                assert(self.tables() == old(self).tables());
                lemma_held_self(self.contents());
            }
        }
        frame
    }

    /// Makes a blank table in a fresh frame, or returns `None` without frames.
    pub fn new_table(&mut self) -> (frame: Option<FrameTracker>)
        requires
            old(self).wf(),
        ensures
            final(self).wf(),
            match old(self).frames().free.take(PageSize::Page4K) {
                None => frame is None && final(self).tables() == old(self).tables() && final(self).frames() == old(self).frames(),
                Some((start, rest)) => {
                    &&& 0 <= start < PPN_LIMIT
                    &&& frame == Some(
                        FrameTracker {
                            ppn: PhysPageNum(start as u64),
                            page_size: PageSize::Page4K,
                        },
                    )
                    &&& final(self).frames() == (Frames {
                        free: rest,
                        users: old(self).frames().users.insert(start as u64, 1),
                    })
                    &&& !old(self).tables().contains_key(start as u64)
                    &&& final(self).tables() == old(self).tables().insert(
                        start as u64,
                        blank_table(),
                    )
                },
            },
            final(self).stale() == old(self).stale(),
            keeps_held(old(self), final(self)),
            keeps_users(old(self).frames(), final(self).frames()),
    {
        match self.take_any(PageSize::Page4K) {
            None => None,
            Some(frame) => {
                let mut entries: Vec<PageTableEntry> = Vec::new();
                let mut i: usize = 0;
                while i < TABLE_ENTRIES
                    invariant
                        i <= TABLE_ENTRIES,
                        entries@ == Seq::new(i as nat, |j: int| PageTableEntry::blank()),
                    decreases TABLE_ENTRIES - i,
                {
                    entries.push(PageTableEntry::empty());
                    assert(entries@ =~= Seq::new(
                        (i + 1) as nat,
                        |j: int| PageTableEntry::blank(),
                    ));
                    i = i + 1;
                }
                assert(entries@ =~= blank_table());
                let ghost before = self.tables();
                self.tables.insert(frame.ppn.0, entries);
                proof {
                    assert(self.tables() =~= before.insert(frame.ppn.0, blank_table()));
                    assert forall|p: u64| #[trigger] self.tables().contains_key(p) implies
                        self.tables()[p].len() == TABLE_ENTRIES
                        && self.frames().free.times_free(p as int) == 0 by {
                        assert(p != frame.ppn.0 ==> before.contains_key(p));
                    }
                    reveal(held_on);
                }
                Some(frame)
            },
        }
    }

    /// Returns the frames that are to be cleared, which the caller clears.
    pub fn take_stale(&mut self) -> (frames: Vec<FrameTracker>)
        requires
            old(self).wf(),
        ensures
            final(self).wf(),
            final(self).frames() == old(self).frames(),
            final(self).tables() == old(self).tables(),
            final(self).stale() == Set::<FrameTracker>::empty(),
            frames@.to_set() == old(self).stale(),
    {
        let mut frames: Vec<FrameTracker> = Vec::new();
        std::mem::swap(&mut frames, &mut self.stale);
        assert(self.stale() =~= Set::<FrameTracker>::empty());
        assert forall|p: u64| #[trigger] self.tables().contains_key(p) implies
            self.tables()[p].len() == TABLE_ENTRIES && self.frames().free.times_free(p as int)
            == 0 by {
            assert(old(self).tables().contains_key(p));
        }
        frames
    }

    /// Returns the number of users of a frame.
    pub fn users(&self, ppn: PhysPageNum) -> (count: u64)
        ensures
            count == self.frames().count(ppn.0),
    {
        self.pool.frame_ref_count(ppn)
    }

    /// Takes another hold of a frame.
    pub fn share_frame(&mut self, ppn: PhysPageNum)
        requires
            old(self).wf(),
            old(self).frames().count(ppn.0) < u64::MAX,
        ensures
            final(self).wf(),
            final(self).tables() == old(self).tables(),
            final(self).frames() == (Frames {
                users: old(self).frames().users.insert(
                    ppn.0,
                    (old(self).frames().count(ppn.0) + 1) as u64,
                ),
                ..old(self).frames()
            }),
            final(self).stale() == old(self).stale(),
            keeps_held(old(self), final(self)),
    {
        self.pool.frame_add_ref(ppn);
        proof {
            reveal(held_on);
            assert forall|p: u64| #[trigger] self.tables().contains_key(p) implies
                self.tables()[p].len() == TABLE_ENTRIES && self.frames().free.times_free(p as int)
                == 0 by {
                assert(old(self).tables().contains_key(p));
            }
        }
    }

    /// Lets go of a frame that holds no table; the last user gives it back.
    pub fn release_frame(&mut self, frame: FrameTracker)
        requires
            old(self).wf(),
            old(self).frames().count(frame.ppn.0) > 0,
            frame.ppn.0 + frame.page_size.pages() <= old(self).frames().free.end,
            forall|p: int|
                frame.ppn.0 <= p < frame.ppn.0 + frame.page_size.pages() ==> #[trigger] old(self).frames().free.times_free(p) == 0 && !old(self).tables().contains_key(p as u64),
        ensures
            final(self).wf(),
            final(self).tables() == old(self).tables(),
            old(self).frames().count(frame.ppn.0) == 1 ==> final(self).frames() == (Frames {
                free: old(self).frames().free.give(frame.ppn.0, frame.page_size),
                users: old(self).frames().users.remove(frame.ppn.0),
            }),
            old(self).frames().count(frame.ppn.0) > 1 ==> final(self).frames() == (Frames {
                users: old(self).frames().users.insert(
                    frame.ppn.0,
                    (old(self).frames().count(frame.ppn.0) - 1) as u64,
                ),
                ..old(self).frames()
            }),
            final(self).stale() == if old(self).frames().count(frame.ppn.0) == 1 {
                old(self).stale().remove(frame)
            } else {
                old(self).stale()
            },
            forall|q: u64| #[trigger]
                held(old(self), q) && !(frame.ppn.0 <= q < frame.ppn.0 + frame.page_size.pages())
                    ==> held(final(self), q),
            old(self).frames().count(frame.ppn.0) > 1 && held(old(self), frame.ppn.0) ==> held(
                final(self),
                frame.ppn.0,
            ),
    {
        let last: bool = self.pool.frame_ref_count(frame.ppn) == 1;
        let ghost free = self.frames().free;
        proof {
            let page = frame.ppn.0 as int;
            assert(free.times_free(page) == 0);
            if free.stack(frame.page_size).contains(frame.ppn.0) {
                lemma_on_stack_is_free(free, frame.ppn.0, frame.page_size);
            }
        }
        self.pool.frame_dealloc(frame.ppn, frame.page_size);
        if last {
            self.stale = without(&self.stale, frame);
        }
        proof {
            let given = free.give(frame.ppn.0, frame.page_size);
            let n = frame.page_size.pages();
            assert forall|p: int| #[trigger] given.times_free(p) == free.times_free(p) + holds(
                frame.ppn.0 as int,
                n,
                p,
            ) by {
                law_give_conserves(free, frame.ppn.0, frame.page_size, p);
            }
            assert forall|p: int| #[trigger] given.times_free(p) <= 1 by {
                assert(free.times_free(p) <= 1);
            }
            assert forall|p: int| p < 0 || p >= given.end implies #[trigger] given.times_free(p)
                == 0 by {
                assert(free.times_free(p) == 0);
            }
            assert forall|p: u64| #[trigger] self.tables().contains_key(p) implies
                self.tables()[p].len() == TABLE_ENTRIES && self.frames().free.times_free(p as int)
                == 0 by {
                assert(old(self).tables().contains_key(p));
                assert(free.times_free(p as int) == 0);
            }
        }
    }
}

/// A frame more in a list is one more in its set.
proof fn lemma_pushed(s: Seq<FrameTracker>, f: FrameTracker)
    ensures
        s.push(f).to_set() == s.to_set().insert(f),
{
    let n = s.push(f);
    assert forall|g: FrameTracker| #[trigger] n.to_set().contains(g) <==> s.to_set().insert(
        f,
    ).contains(g) by {
        if s.contains(g) {
            let i = choose|i: int| 0 <= i < s.len() && s[i] == g;
            assert(n[i] == g);
        }
        assert(n[s.len() as int] == f);
    }
    assert(n.to_set() =~= s.to_set().insert(f));
}

/// Returns the frames of a list but one.
fn without(list: &Vec<FrameTracker>, gone: FrameTracker) -> (kept: Vec<FrameTracker>)
    ensures
        kept@.to_set() == list@.to_set().remove(gone),
{
    let mut kept: Vec<FrameTracker> = Vec::new();
    let mut i: usize = 0;
    while i < list.len()
        invariant
            i <= list@.len(),
            forall|f: FrameTracker|
                #[trigger] kept@.contains(f) <==> f != gone && list@.take(i as int).contains(f),
        decreases list@.len() - i,
    {
        let frame = list[i];
        let ghost had = kept@;
        if frame != gone {
            kept.push(frame);
        }
        proof {
            let a = list@.take(i as int);
            let b = list@.take(i + 1);
            assert(b =~= a.push(frame));
            lemma_pushed(a, frame);
            lemma_pushed(had, frame);
            assert forall|f: FrameTracker| #[trigger] kept@.contains(f) <==> f != gone && b.contains(
                f,
            ) by {
                assert(b.to_set().contains(f) == a.to_set().insert(frame).contains(f));
                assert(had.push(frame).to_set().contains(f) == had.to_set().insert(frame).contains(
                    f,
                ));
            }
        }
        i = i + 1;
    }
    assert(list@.take(list@.len() as int) =~= list@);
    assert(kept@.to_set() =~= list@.to_set().remove(gone));
    kept
}

/// A page on the stack of its size is free.
proof fn lemma_on_stack_is_free(free: FreeFrames, page: u64, size: PageSize)
    requires
        free.stack(size).contains(page),
    ensures
        free.times_free(page as int) >= 1,
{
    lemma_cover_contains(free.stack(size), page, size.pages());
}

proof fn lemma_cover_contains(starts: Seq<u64>, page: u64, n: int)
    requires
        starts.contains(page),
        n >= 1,
    ensures
        super::frame_allocator::cover(starts, n, page as int) >= 1,
    decreases starts.len(),
{
    if starts.last() != page {
        let i = choose|i: int| 0 <= i < starts.len() && starts[i] == page;
        assert(starts.drop_last()[i] == page);
        lemma_cover_contains(starts.drop_last(), page, n);
    }
}

} // verus!
