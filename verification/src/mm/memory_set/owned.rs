//! Who has which frame: pages that are filled have frames of their own.

use vstd::prelude::*;

use crate::mm::address::{PhysPageNum, VPN_LIMIT};
use crate::mm::area::MapArea;
use crate::mm::frame_allocator::{keeps_users, lemma_users_both, FrameTracker};
use crate::mm::phys::{
    fresh, held, held_on, keeps_held, lemma_free_before, lemma_fresh_held, lemma_fresh_stays,
    lemma_held_both, lemma_stays_held, PhysMemory,
};
use crate::mm::pte::MapPermission;

use super::access::pages_placed;
use super::fork::{fork_owed, inherited, tables_for, CowOutcome};
use super::kernel_half::forked_whole;
use super::{pages_filled, shared_key, without_range, MemorySet};

verus! {

/// The pages from `a` to `b` that have frames have them for themselves: each was free before,
/// has one user now, and is that of no other of the pages. Frames that were not free have the
/// users that they had.
#[verifier::opaque]
pub open spec fn own_frames(
    resident: Map<u64, FrameTracker>,
    memory: &PhysMemory,
    memory_before: &PhysMemory,
    a: int,
    b: int,
) -> bool {
    &&& forall|v: u64|
        a <= v < b && #[trigger] resident.contains_key(v) ==> fresh(
            memory_before,
            memory,
            resident[v].ppn.0,
            1,
        )
    &&& forall|v: u64, w: u64|
        a <= v < w < b && #[trigger] resident.contains_key(v) && #[trigger] resident.contains_key(w)
            ==> resident[v].ppn != resident[w].ppn
    &&& keeps_users(memory_before.frames(), memory.frames())
}

/// The frames that groups share are not free.
pub open spec fn group_frames_used(shared: Map<u64, FrameTracker>, memory: &PhysMemory) -> bool {
    forall|k: u64| #[trigger]
        shared.contains_key(k) ==> memory.frames().free.times_free(shared[k].ppn.0 as int) == 0
}

/// The pages from `a` to `b` have the frames of a group: one that the group had, or a new one,
/// which was free before and is that of no other of the pages. A new one has two users, the
/// page and the group.
#[verifier::opaque]
pub open spec fn group_frames(
    resident: Map<u64, FrameTracker>,
    memory: &PhysMemory,
    memory_before: &PhysMemory,
    shared: Map<u64, FrameTracker>,
    shared_before: Map<u64, FrameTracker>,
    group: u64,
    a: int,
    b: int,
) -> bool {
    &&& forall|k: u64| #[trigger]
        shared_before.contains_key(k) ==> shared.contains_key(k) && shared[k] == shared_before[k]
    &&& forall|k: u64| #[trigger]
        shared.contains_key(k) ==> shared_before.contains_key(k) || exists|v: u64|
            a <= v < b && k == #[trigger] shared_key(group as int, v as int)
    &&& forall|v: u64|
        a <= v < b ==> shared.contains_key(#[trigger] shared_key(group as int, v as int) as u64)
            && shared[shared_key(group as int, v as int) as u64] == resident[v]
    &&& forall|v: u64|
        a <= v < b && !shared_before.contains_key(
            #[trigger] shared_key(group as int, v as int) as u64,
        ) ==> memory_before.frames().free.times_free(resident[v].ppn.0 as int) == 1
            && memory.frames().free.times_free(resident[v].ppn.0 as int) == 0
            && !memory.tables().contains_key(resident[v].ppn.0) && (group_frames_used(
            shared_before,
            memory_before,
        ) ==> fresh(memory_before, memory, resident[v].ppn.0, 2))
    &&& forall|v: u64, w: u64|
        a <= v < w < b && !shared_before.contains_key(
            #[trigger] shared_key(group as int, v as int) as u64,
        ) && !shared_before.contains_key(#[trigger] shared_key(group as int, w as int) as u64)
            ==> resident[v].ppn != resident[w].ppn
}

/// Frames that were not free, but one, have the users that they had.
pub open spec fn keeps_other_users(before: &PhysMemory, after: &PhysMemory, p: u64) -> bool {
    forall|q: u64| #[trigger]
        after.frames().count(q) == before.frames().count(q) || q == p
            || before.frames().free.times_free(q as int) > 0
}

proof fn lemma_user_kept(before: &PhysMemory, after: &PhysMemory, p: u64)
    requires
        keeps_users(before.frames(), after.frames()),
        before.frames().free.times_free(p as int) == 0,
    ensures
        after.frames().count(p) == before.frames().count(p),
{
}

pub proof fn lemma_own_none(resident: Map<u64, FrameTracker>, memory: &PhysMemory, a: int)
    ensures
        own_frames(resident, memory, memory, a, a),
{
    reveal(own_frames);
}

/// Pages that get frames of their own leave the users of others alone.
pub proof fn lemma_own_users(
    resident: Map<u64, FrameTracker>,
    memory: &PhysMemory,
    memory_before: &PhysMemory,
    a: int,
    b: int,
)
    requires
        own_frames(resident, memory, memory_before, a, b),
    ensures
        keeps_users(memory_before.frames(), memory.frames()),
{
    reveal(own_frames);
}

/// Pages keep their frames for themselves where others are taken.
pub proof fn lemma_own_kept(
    r: Map<u64, FrameTracker>,
    m0: &PhysMemory,
    m1: &PhysMemory,
    m2: &PhysMemory,
    a: int,
    b: int,
)
    requires
        own_frames(r, m1, m0, a, b),
        keeps_held(m1, m2),
        keeps_users(m1.frames(), m2.frames()),
    ensures
        own_frames(r, m2, m0, a, b),
{
    reveal(own_frames);
    assert forall|v: u64| a <= v < b && #[trigger] r.contains_key(v) implies fresh(
        m0,
        m2,
        r[v].ppn.0,
        1,
    ) by {
        lemma_user_kept(m1, m2, r[v].ppn.0);
        lemma_fresh_stays(m0, m1, m2, r[v].ppn.0, 1);
    }
    lemma_users_both(m0.frames(), m1.frames(), m2.frames());
}

/// Pages that get frames of their own after others did have frames of their own with them.
pub proof fn lemma_own_join(
    r1: Map<u64, FrameTracker>,
    r2: Map<u64, FrameTracker>,
    m0: &PhysMemory,
    m1: &PhysMemory,
    m2: &PhysMemory,
    low: int,
    high: int,
    a: int,
    b: int,
)
    requires
        m0.wf(),
        m1.wf(),
        own_frames(r1, m1, m0, low, high),
        own_frames(r2, m2, m1, a, b),
        keeps_held(m0, m1),
        keeps_held(m1, m2),
        forall|v: u64|
            #![trigger r2.contains_key(v)]
            low <= v < high && !(a <= v < b) && r2.contains_key(v) ==> r1.contains_key(v) && r2[v]
                == r1[v],
    ensures
        own_frames(r2, m2, m0, low, high),
{
    reveal(own_frames);
    lemma_own_kept(r1, m0, m1, m2, low, high);
    assert forall|v: u64| low <= v < high && #[trigger] r2.contains_key(v) implies fresh(
        m0,
        m2,
        r2[v].ppn.0,
        1,
    ) by {
        if a <= v < b {
            lemma_free_before(m0, m1, r2[v].ppn.0);
        } else {
            assert(r1.contains_key(v));
        }
    }
    assert forall|v: u64, w: u64|
        low <= v < w < high && #[trigger] r2.contains_key(v) && #[trigger] r2.contains_key(
            w,
        ) implies r2[v].ppn != r2[w].ppn by {
        if a <= v < b {
            if !(a <= w < b) {
                assert(r1.contains_key(w));
                assert(fresh(m0, m1, r1[w].ppn.0, 1));
                assert(fresh(m1, m2, r2[v].ppn.0, 1));
            }
        } else {
            assert(r1.contains_key(v));
            assert(fresh(m0, m1, r1[v].ppn.0, 1));
            if a <= w < b {
                assert(fresh(m1, m2, r2[w].ppn.0, 1));
            } else {
                assert(r1.contains_key(w));
            }
        }
    }
}

/// A page more has a frame of its own.
pub proof fn lemma_own_step(
    r1: Map<u64, FrameTracker>,
    r2: Map<u64, FrameTracker>,
    m0: &PhysMemory,
    m1: &PhysMemory,
    m2: &PhysMemory,
    a: int,
    v: u64,
)
    requires
        m0.wf(),
        m1.wf(),
        own_frames(r1, m1, m0, a, v as int),
        keeps_held(m0, m1),
        keeps_held(m1, m2),
        keeps_users(m1.frames(), m2.frames()),
        fresh(m1, m2, r2[v].ppn.0, 1),
        r2 == r1.insert(v, r2[v]),
    ensures
        own_frames(r2, m2, m0, a, v + 1),
{
    assert(own_frames(r2, m2, m1, v as int, v + 1)) by {
        reveal(own_frames);
    }
    assert(own_frames(r1, m1, m0, a, v + 1) || r1.contains_key(v)) by {
        reveal(own_frames);
    }
    if r1.contains_key(v) {
        let r = r1.remove(v);
        assert(own_frames(r, m1, m0, a, v + 1)) by {
            reveal(own_frames);
        }
        lemma_own_join(r, r2, m0, m1, m2, a, v + 1, v as int, v + 1);
    } else {
        lemma_own_join(r1, r2, m0, m1, m2, a, v + 1, v as int, v + 1);
    }
}

pub proof fn lemma_group_none(
    resident: Map<u64, FrameTracker>,
    memory: &PhysMemory,
    shared: Map<u64, FrameTracker>,
    group: u64,
    a: int,
)
    ensures
        group_frames(resident, memory, memory, shared, shared, group, a, a),
{
    reveal(group_frames);
}

/// Pages keep the frames of a group where others are taken.
pub proof fn lemma_group_kept(
    r: Map<u64, FrameTracker>,
    m0: &PhysMemory,
    m1: &PhysMemory,
    m2: &PhysMemory,
    shared: Map<u64, FrameTracker>,
    shared_before: Map<u64, FrameTracker>,
    group: u64,
    a: int,
    b: int,
)
    requires
        group_frames(r, m1, m0, shared, shared_before, group, a, b),
        keeps_held(m1, m2),
        keeps_users(m1.frames(), m2.frames()),
    ensures
        group_frames(r, m2, m0, shared, shared_before, group, a, b),
{
    reveal(group_frames);
    reveal(held_on);
    assert forall|v: u64|
        a <= v < b && !shared_before.contains_key(
            #[trigger] shared_key(group as int, v as int) as u64,
        ) implies m2.frames().free.times_free(r[v].ppn.0 as int) == 0 && !m2.tables().contains_key(
        r[v].ppn.0,
    ) && (group_frames_used(shared_before, m0) ==> fresh(m0, m2, r[v].ppn.0, 2)) by {
        assert(m2.frames().free.times_free(r[v].ppn.0 as int) == 0);
        lemma_user_kept(m1, m2, r[v].ppn.0);
    }
}

/// A page more has a frame of the group.
pub proof fn lemma_group_step(
    r1: Map<u64, FrameTracker>,
    r2: Map<u64, FrameTracker>,
    m0: &PhysMemory,
    m1: &PhysMemory,
    m2: &PhysMemory,
    s0: Map<u64, FrameTracker>,
    s1: Map<u64, FrameTracker>,
    s2: Map<u64, FrameTracker>,
    group: u64,
    a: int,
    v: u64,
)
    requires
        m0.wf(),
        m1.wf(),
        0 <= a <= v < VPN_LIMIT,
        group < super::GROUP_LIMIT,
        group_frames(r1, m1, m0, s1, s0, group, a, v as int),
        keeps_held(m0, m1),
        keeps_held(m1, m2),
        r2 == r1.insert(v, r2[v]),
        keeps_other_users(m1, m2, r2[v].ppn.0),
        ({
            let key = shared_key(group as int, v as int) as u64;
            if s1.contains_key(key) {
                s2 == s1 && r2[v] == s1[key]
            } else {
                s2 == s1.insert(key, r2[v]) && fresh(m1, m2, r2[v].ppn.0, 2)
            }
        }),
    ensures
        group_frames(r2, m2, m0, s2, s0, group, a, v + 1),
{
    reveal(group_frames);
    reveal(held_on);
    let key = shared_key(group as int, v as int) as u64;
    assert(0 <= shared_key(group as int, v as int) <= u64::MAX) by (nonlinear_arith)
        requires
            shared_key(group as int, v as int) == group * VPN_LIMIT + v,
            group < 0x10_0000_0000,
            v < VPN_LIMIT,
            VPN_LIMIT == 0x800_0000,
    ;
    assert forall|w: u64| a <= w < v implies #[trigger] shared_key(group as int, w as int) as u64
        != key && 0 <= shared_key(group as int, w as int) <= u64::MAX by {
        assert(shared_key(group as int, w as int) < shared_key(group as int, v as int));
        assert(0 <= shared_key(group as int, w as int)) by (nonlinear_arith)
            requires
                shared_key(group as int, w as int) == group * VPN_LIMIT + w,
        ;
    }
    assert(s0.contains_key(key) <==> s1.contains_key(key));
    assert forall|k: u64| #[trigger] s2.contains_key(k) implies s0.contains_key(k) || exists|w: u64|
        a <= w < v + 1 && k == #[trigger] shared_key(group as int, w as int) by {
        if k != key {
            assert(s1.contains_key(k));
            if !s0.contains_key(k) {
                let w = choose|w: u64|
                    a <= w < v && k == #[trigger] shared_key(group as int, w as int);
                assert(k == shared_key(group as int, w as int));
            }
        } else {
            assert(k == shared_key(group as int, v as int));
        }
    }
    assert forall|w: u64|
        a <= w < v + 1 && !s0.contains_key(
            #[trigger] shared_key(group as int, w as int) as u64,
        ) implies m0.frames().free.times_free(r2[w].ppn.0 as int) == 1
        && m2.frames().free.times_free(r2[w].ppn.0 as int) == 0 && !m2.tables().contains_key(
        r2[w].ppn.0,
    ) && (group_frames_used(s0, m0) ==> fresh(m0, m2, r2[w].ppn.0, 2)) by {
        let p = r2[v].ppn.0;
        if w == v {
            lemma_free_before(m0, m1, p);
        } else {
            let q = r1[w].ppn.0;
            assert(r2[w] == r1[w]);
            assert(m2.frames().free.times_free(q as int) == 0);
            if group_frames_used(s0, m0) {
                if s1.contains_key(key) {
                    assert(s0.contains_key(key));
                    assert(s1[key] == s0[key]);
                    assert(m0.frames().free.times_free(p as int) == 0);
                }
                assert(q != p);
                assert(m2.frames().count(q) == m1.frames().count(q));
                lemma_fresh_stays(m0, m1, m2, q, 2);
            }
        }
    }
    assert forall|u: u64, w: u64|
        a <= u < w < v + 1 && !s0.contains_key(
            #[trigger] shared_key(group as int, u as int) as u64,
        ) && !s0.contains_key(
            #[trigger] shared_key(group as int, w as int) as u64,
        ) implies r2[u].ppn != r2[w].ppn by {
        assert(r2[u] == r1[u]);
        if w == v {
            assert(m1.frames().free.times_free(r1[u].ppn.0 as int) == 0);
        } else {
            assert(r2[w] == r1[w]);
        }
    }
}

/// Every page with a frame has it for itself, and the frame was free in the memory before.
pub open spec fn all_own(set: &MemorySet, memory: &PhysMemory, first: &PhysMemory) -> bool {
    &&& first.wf()
    &&& keeps_held(first, memory)
    &&& own_frames(set.resident(), memory, first, 0, VPN_LIMIT as int)
}

/// Pages that got frames got them for themselves: where every page had its frame for itself,
/// every page has.
#[verifier::opaque]
pub open spec fn keeps_own(
    before: &MemorySet,
    memory_before: &PhysMemory,
    after: &MemorySet,
    memory: &PhysMemory,
) -> bool {
    forall|first: PhysMemory| #[trigger]
        all_own(before, memory_before, &first) ==> all_own(after, memory, &first)
}

pub broadcast proof fn lemma_keeps_own_self(set: &MemorySet, memory: &PhysMemory)
    ensures
        #[trigger] keeps_own(set, memory, set, memory),
{
    reveal(keeps_own);
}

pub broadcast proof fn lemma_keeps_own_both(
    a: &MemorySet,
    ma: &PhysMemory,
    b: &MemorySet,
    mb: &PhysMemory,
    c: &MemorySet,
    mc: &PhysMemory,
)
    requires
        #[trigger] keeps_own(a, ma, b, mb),
        #[trigger] keeps_own(b, mb, c, mc),
    ensures
        keeps_own(a, ma, c, mc),
{
    reveal(keeps_own);
}

/// Frames that are taken but not for pages change nothing.
pub proof fn lemma_keeps_own_taken(
    before: &MemorySet,
    memory_before: &PhysMemory,
    after: &MemorySet,
    memory: &PhysMemory,
)
    requires
        after.resident() == before.resident(),
        keeps_held(memory_before, memory),
        keeps_users(memory_before.frames(), memory.frames()),
    ensures
        keeps_own(before, memory_before, after, memory),
{
    reveal(keeps_own);
    assert forall|first: PhysMemory| #[trigger] all_own(before, memory_before, &first) implies all_own(
        after,
        memory,
        &first,
    ) by {
        lemma_own_kept(
            before.resident(),
            &first,
            memory_before,
            memory,
            0,
            VPN_LIMIT as int,
        );
        lemma_held_both(first.contents(), memory_before.contents(), memory.contents());
    }
}

/// Pages that are filled get frames for themselves.
pub proof fn lemma_keeps_own_filled(
    before: &MemorySet,
    memory_before: &PhysMemory,
    after: &MemorySet,
    memory: &PhysMemory,
    a: int,
    b: int,
)
    requires
        memory_before.wf(),
        keeps_held(memory_before, memory),
        own_frames(after.resident(), memory, memory_before, a, b),
        forall|v: u64|
            !(a <= v < b) && #[trigger] after.resident().contains_key(v)
                ==> before.resident().contains_key(v) && after.resident()[v]
                == before.resident()[v],
    ensures
        keeps_own(before, memory_before, after, memory),
{
    reveal(keeps_own);
    assert forall|first: PhysMemory| #[trigger] all_own(before, memory_before, &first) implies all_own(
        after,
        memory,
        &first,
    ) by {
        lemma_own_join(
            before.resident(),
            after.resident(),
            &first,
            memory_before,
            memory,
            0,
            VPN_LIMIT as int,
            a,
            b,
        );
        lemma_held_both(first.contents(), memory_before.contents(), memory.contents());
    }
}

/// An address space without frames has those that it has for itself.
pub proof fn lemma_all_own_none(set: &MemorySet, memory: &PhysMemory, first: &PhysMemory)
    requires
        first.wf(),
        set.resident() == Map::<u64, FrameTracker>::empty(),
        keeps_held(first, memory),
        keeps_users(first.frames(), memory.frames()),
    ensures
        all_own(set, memory, first),
{
    reveal(own_frames);
}

/// A page that is filled gets a frame for itself.
pub proof fn lemma_keeps_own_page(
    before: &MemorySet,
    memory_before: &PhysMemory,
    after: &MemorySet,
    memory: &PhysMemory,
    v: u64,
)
    requires
        memory_before.wf(),
        keeps_held(memory_before, memory),
        keeps_users(memory_before.frames(), memory.frames()),
        fresh(memory_before, memory, after.resident()[v].ppn.0, 1),
        after.resident() == before.resident().insert(v, after.resident()[v]),
    ensures
        keeps_own(before, memory_before, after, memory),
{
    assert(own_frames(after.resident(), memory, memory_before, v as int, v + 1)) by {
        reveal(own_frames);
    }
    lemma_keeps_own_filled(before, memory_before, after, memory, v as int, v + 1);
}

/// Pages have their frames for themselves after what keeps it so.
pub proof fn lemma_own_reached(
    begun: &MemorySet,
    started: &PhysMemory,
    set: &MemorySet,
    memory: &PhysMemory,
    first: &PhysMemory,
)
    requires
        all_own(begun, started, first),
        keeps_own(begun, started, set, memory),
    ensures
        all_own(set, memory, first),
{
    reveal(keeps_own);
    assert(all_own(begun, started, first));
}

/// The frames that the address space has are in use.
pub open spec fn frames_held(set: &MemorySet, memory: &PhysMemory) -> bool {
    forall|v: u64| #[trigger]
        set.resident().contains_key(v) ==> held(memory, set.resident()[v].ppn.0)
}

/// No frame of one address space is that of another.
pub open spec fn frames_differ(a: &MemorySet, b: &MemorySet) -> bool {
    forall|v: u64, w: u64| #[trigger]
        a.resident().contains_key(v) && #[trigger] b.resident().contains_key(w)
            ==> a.resident()[v].ppn != b.resident()[w].ppn
}

/// Whatever an address space does, the frames of every other stay in use.
pub proof fn law_frames_stay_held(set: &MemorySet, before: &PhysMemory, after: &PhysMemory)
    requires
        frames_held(set, before),
        keeps_held(before, after),
    ensures
        frames_held(set, after),
{
    assert forall|v: u64| #[trigger] set.resident().contains_key(v) implies held(
        after,
        set.resident()[v].ppn.0,
    ) by {
        lemma_stays_held(before, after, set.resident()[v].ppn.0);
    }
}

/// A program that was loaded has its frames in use and for itself: no other address space has
/// one of them, and no two of its pages have the same.
pub proof fn law_loaded_frames_are_its_own(
    set: &MemorySet,
    memory: &PhysMemory,
    first: &PhysMemory,
    other: &MemorySet,
)
    requires
        set.wf(memory),
        all_own(set, memory, first),
        frames_held(other, first),
    ensures
        frames_held(set, memory),
        frames_held(other, memory),
        frames_differ(set, other),
        forall|v: u64, w: u64| #[trigger]
            set.resident().contains_key(v) && #[trigger] set.resident().contains_key(w) && v != w
                ==> set.resident()[v].ppn != set.resident()[w].ppn,
        forall|v: u64| #[trigger]
            set.resident().contains_key(v) ==> memory.frames().count(set.resident()[v].ppn.0) == 1,
{
    reveal(own_frames);
    law_frames_stay_held(other, first, memory);
    assert forall|v: u64| #[trigger] set.resident().contains_key(v) implies held(
        memory,
        set.resident()[v].ppn.0,
    ) && fresh(first, memory, set.resident()[v].ppn.0, 1) by {
        assert(set.frame_mapped(memory, v));
        lemma_fresh_held(first, memory, set.resident()[v].ppn.0, 1);
    }
    assert forall|v: u64, w: u64| #[trigger]
        set.resident().contains_key(v) && #[trigger] other.resident().contains_key(w) implies
        set.resident()[v].ppn != other.resident()[w].ppn by {
        assert(set.frame_mapped(memory, v));
        assert(held(first, other.resident()[w].ppn.0));
    }
    assert forall|v: u64, w: u64| #[trigger]
        set.resident().contains_key(v) && #[trigger] set.resident().contains_key(w) && v
            != w implies set.resident()[v].ppn != set.resident()[w].ppn by {
        assert(set.frame_mapped(memory, v));
        assert(set.frame_mapped(memory, w));
        if v < w {
            assert(set.resident()[v].ppn != set.resident()[w].ppn);
        } else {
            assert(set.resident()[w].ppn != set.resident()[v].ppn);
        }
    }
}

/// Pages of an area without a group that get frames get ones that nobody has: they are in use
/// with one user, and no other page of this or another address space has one of them.
pub proof fn law_filled_frames_are_its_own(
    before: &MemorySet,
    memory_before: &PhysMemory,
    after: &MemorySet,
    memory: &PhysMemory,
    a: int,
    b: int,
    area: MapArea,
    other: &MemorySet,
)
    requires
        memory_before.wf(),
        keeps_held(memory_before, memory),
        area.shared_group is None,
        pages_filled(after, memory, before, memory_before, a, b, area),
        frames_held(before, memory_before),
        frames_held(other, memory_before),
    ensures
        frames_held(after, memory),
        frames_held(other, memory),
        frames_differ(before, other) ==> frames_differ(after, other),
        forall|v: u64|
            a <= v < b ==> memory.frames().count((#[trigger] after.resident()[v]).ppn.0) == 1,
        forall|v: u64, w: u64|
            a <= v < b && v != w && after.resident().contains_key(w) ==> (
            #[trigger] after.resident()[v]).ppn != (#[trigger] after.resident()[w]).ppn,
{
    reveal(own_frames);
    law_frames_stay_held(other, memory_before, memory);
    law_frames_stay_held(before, memory_before, memory);
    assert forall|v: u64| a <= v < b implies fresh(
        memory_before,
        memory,
        (#[trigger] after.resident()[v]).ppn.0,
        1,
    ) && held(memory, after.resident()[v].ppn.0) by {
        assert(after.resident().contains_key(v));
        lemma_fresh_held(memory_before, memory, after.resident()[v].ppn.0, 1);
    }
    assert forall|v: u64| !(a <= v < b) && after.resident().contains_key(v) implies
        #[trigger] before.resident().contains_key(v) && after.resident()[v]
        == before.resident()[v] by {
        assert(after.resident().contains_key(v) == before.resident().contains_key(v));
    }
    assert forall|v: u64| #[trigger] after.resident().contains_key(v) implies held(
        memory,
        after.resident()[v].ppn.0,
    ) by {
        if a <= v < b {
            assert(held(memory, after.resident()[v].ppn.0));
        } else {
            assert(before.resident().contains_key(v));
        }
    }
    if frames_differ(before, other) {
        assert forall|v: u64, w: u64| #[trigger]
            after.resident().contains_key(v) && #[trigger] other.resident().contains_key(w) implies
            after.resident()[v].ppn != other.resident()[w].ppn by {
            assert(held(memory_before, other.resident()[w].ppn.0));
            if a <= v < b {
                assert(fresh(memory_before, memory, after.resident()[v].ppn.0, 1));
            } else {
                assert(before.resident().contains_key(v));
            }
        }
    }
    assert forall|v: u64, w: u64|
        a <= v < b && v != w && after.resident().contains_key(w) implies (
    #[trigger] after.resident()[v]).ppn != (#[trigger] after.resident()[w]).ppn by {
        assert(after.resident().contains_key(v));
        if a <= w < b {
            if v < w {
                assert(after.resident()[v].ppn != after.resident()[w].ppn);
            } else {
                assert(after.resident()[w].ppn != after.resident()[v].ppn);
            }
        } else {
            assert(before.resident().contains_key(w));
            assert(held(memory_before, before.resident()[w].ppn.0));
            assert(fresh(memory_before, memory, after.resident()[v].ppn.0, 1));
        }
    }
}

/// The frames that groups share are in use.
pub open spec fn group_held(shared: Map<u64, FrameTracker>, memory: &PhysMemory) -> bool {
    forall|k: u64| #[trigger] shared.contains_key(k) ==> held(memory, shared[k].ppn.0)
}

/// A page that gets a frame on first use gets the one that its group has for it, or else one that
/// nobody has and whose bytes are to be cleared.
pub proof fn law_first_use_frame_is_its_own(
    before: &MemorySet,
    memory_before: &PhysMemory,
    shared_before: Map<u64, FrameTracker>,
    after: &MemorySet,
    memory: &PhysMemory,
    shared: Map<u64, FrameTracker>,
    v: u64,
    area: MapArea,
    other: &MemorySet,
)
    requires
        memory_before.wf(),
        keeps_held(memory_before, memory),
        after.page_filled(memory, shared, before, memory_before, shared_before, v, area),
        frames_held(before, memory_before),
        frames_held(other, memory_before),
        group_held(shared_before, memory_before),
    ensures
        frames_held(after, memory),
        frames_held(other, memory),
        group_held(shared, memory),
        ({
            let frame = after.resident()[v];
            let key = shared_key(area.shared_group->Some_0 as int, v as int) as u64;
            if area.shared_group is Some && shared_before.contains_key(key) {
                frame == shared_before[key]
            } else {
                &&& memory.stale().contains(frame)
                &&& memory.frames().count(frame.ppn.0) == if area.shared_group is Some {
                    2int
                } else {
                    1int
                }
                &&& frames_differ(before, other) ==> frames_differ(after, other)
                &&& forall|w: u64| #[trigger]
                    before.resident().contains_key(w) && w != v ==> before.resident()[w].ppn
                        != frame.ppn
                &&& forall|k: u64| #[trigger]
                    shared_before.contains_key(k) ==> shared_before[k].ppn != frame.ppn
            }
        }),
{
    let frame = after.resident()[v];
    let p = frame.ppn.0;
    let key = shared_key(area.shared_group->Some_0 as int, v as int) as u64;
    let known = area.shared_group is Some && shared_before.contains_key(key);
    law_frames_stay_held(other, memory_before, memory);
    law_frames_stay_held(before, memory_before, memory);
    assert forall|k: u64| #[trigger] shared_before.contains_key(k) implies held(
        memory,
        shared_before[k].ppn.0,
    ) by {
        lemma_stays_held(memory_before, memory, shared_before[k].ppn.0);
    }
    if !known {
        let users = if area.shared_group is Some {
            2int
        } else {
            1int
        };
        lemma_fresh_held(memory_before, memory, p, users);
    }
    assert forall|w: u64| #[trigger] after.resident().contains_key(w) implies held(
        memory,
        after.resident()[w].ppn.0,
    ) by {
        if w != v {
            assert(before.resident().contains_key(w));
        }
    }
    if !known {
        if frames_differ(before, other) {
            assert forall|u: u64, w: u64| #[trigger]
                after.resident().contains_key(u) && #[trigger] other.resident().contains_key(
                    w,
                ) implies after.resident()[u].ppn != other.resident()[w].ppn by {
                assert(held(memory_before, other.resident()[w].ppn.0));
                if u != v {
                    assert(before.resident().contains_key(u));
                }
            }
        }
        assert forall|w: u64| #[trigger] before.resident().contains_key(w) && w != v implies
            before.resident()[w].ppn != frame.ppn by {
            assert(held(memory_before, before.resident()[w].ppn.0));
        }
        assert forall|k: u64| #[trigger] shared_before.contains_key(k) implies
            shared_before[k].ppn != frame.ppn by {
            assert(held(memory_before, shared_before[k].ppn.0));
        }
    }
}

/// Pages of a group that get their frames have frames in use, and so has the group; one that the
/// group did not have before is that of no page of another address space.
pub proof fn law_group_frames_are_held(
    before: &MemorySet,
    memory_before: &PhysMemory,
    shared_before: Map<u64, FrameTracker>,
    after: &MemorySet,
    memory: &PhysMemory,
    shared: Map<u64, FrameTracker>,
    a: int,
    b: int,
    area: MapArea,
    group: u64,
    other: &MemorySet,
)
    requires
        memory_before.wf(),
        keeps_held(memory_before, memory),
        pages_filled(after, memory, before, memory_before, a, b, area),
        group_frames(
            after.resident(),
            memory,
            memory_before,
            shared,
            shared_before,
            group,
            a,
            b,
        ),
        frames_held(before, memory_before),
        frames_held(other, memory_before),
        group_held(shared_before, memory_before),
    ensures
        frames_held(after, memory),
        frames_held(other, memory),
        group_held(shared, memory),
        forall|v: u64, w: u64|
            a <= v < b && !shared_before.contains_key(
                #[trigger] shared_key(group as int, v as int) as u64,
            ) && #[trigger] other.resident().contains_key(w) ==> after.resident()[v].ppn
                != other.resident()[w].ppn,
{
    reveal(group_frames);
    law_frames_stay_held(before, memory_before, memory);
    law_frames_stay_held(other, memory_before, memory);
    assert(group_frames_used(shared_before, memory_before)) by {
        assert forall|k: u64| #[trigger] shared_before.contains_key(k) implies
            memory_before.frames().free.times_free(shared_before[k].ppn.0 as int) == 0 by {
            assert(held(memory_before, shared_before[k].ppn.0));
        }
    }
    assert forall|v: u64| a <= v < b implies held(
        memory,
        (#[trigger] after.resident()[v]).ppn.0,
    ) by {
        let key = shared_key(group as int, v as int) as u64;
        if shared_before.contains_key(key) {
            lemma_stays_held(memory_before, memory, shared_before[key].ppn.0);
        } else {
            lemma_fresh_held(memory_before, memory, after.resident()[v].ppn.0, 2);
        }
    }
    assert forall|v: u64| #[trigger] after.resident().contains_key(v) implies held(
        memory,
        after.resident()[v].ppn.0,
    ) by {
        if !(a <= v < b) {
            assert(before.resident().contains_key(v));
        }
    }
    assert forall|k: u64| #[trigger] shared.contains_key(k) implies held(
        memory,
        shared[k].ppn.0,
    ) by {
        if shared_before.contains_key(k) {
            lemma_stays_held(memory_before, memory, shared_before[k].ppn.0);
        } else {
            let v = choose|v: u64| a <= v < b && k == #[trigger] shared_key(group as int, v as int);
            assert(shared[k] == after.resident()[v]);
        }
    }
    assert forall|v: u64, w: u64|
        a <= v < b && !shared_before.contains_key(
            #[trigger] shared_key(group as int, v as int) as u64,
        ) && #[trigger] other.resident().contains_key(w) implies after.resident()[v].ppn
        != other.resident()[w].ppn by {
        assert(held(memory_before, other.resident()[w].ppn.0));
    }
}

/// Pages that show frames in use, as those of a file do, have their frames in use.
pub proof fn law_placed_frames_are_held(
    before: &MemorySet,
    memory_before: &PhysMemory,
    after: &MemorySet,
    memory: &PhysMemory,
    v: int,
    frames: Seq<FrameTracker>,
    perm: MapPermission,
)
    requires
        keeps_held(memory_before, memory),
        pages_placed(after, memory, before, memory_before, v, frames, perm),
        frames_held(before, memory_before),
        forall|i: int|
            0 <= i < frames.len() ==> held(memory_before, (#[trigger] frames[i]).ppn.0),
    ensures
        frames_held(after, memory),
{
    assert forall|w: u64| #[trigger] after.resident().contains_key(w) implies held(
        memory,
        after.resident()[w].ppn.0,
    ) by {
        if v <= w < v + frames.len() {
            assert(after.resident()[w] == frames[w - v]);
        } else {
            assert(before.resident().contains_key(w));
        }
        lemma_stays_held(memory_before, memory, after.resident()[w].ppn.0);
    }
}

/// An address space that lost pages has its other frames in use, and the lost ones can be let go
/// of.
pub proof fn law_fewer_frames_are_held(
    before: &MemorySet,
    memory_before: &PhysMemory,
    after: &MemorySet,
    memory: &PhysMemory,
    a: int,
    b: int,
)
    requires
        keeps_held(memory_before, memory),
        frames_held(before, memory_before),
        after.resident() == without_range(before.resident(), a, b),
    ensures
        frames_held(after, memory),
        forall|v: u64|
            a <= v < b && #[trigger] before.resident().contains_key(v) ==> held(
                memory,
                before.resident()[v].ppn.0,
            ),
{
    law_frames_stay_held(before, memory_before, memory);
    assert forall|w: u64| #[trigger] after.resident().contains_key(w) implies held(
        memory,
        after.resident()[w].ppn.0,
    ) by {
        assert(before.resident().contains_key(w));
    }
}

/// A page that is copied on a write gets a frame that nobody has; its old one stays in use, for
/// those that share it.
pub proof fn law_copied_frame_is_its_own(
    before: &MemorySet,
    memory_before: &PhysMemory,
    after: &MemorySet,
    memory: &PhysMemory,
    v: u64,
    outcome: CowOutcome,
    other: &MemorySet,
)
    requires
        memory_before.wf(),
        keeps_held(memory_before, memory),
        before.cow_handled(memory_before, after, memory, v as int, outcome),
        frames_held(before, memory_before),
        frames_held(other, memory_before),
    ensures
        frames_held(other, memory),
        outcome is Copied ==> frames_held(after, memory) && memory.frames().count(
            after.resident()[v].ppn.0,
        ) == 1 && forall|w: u64| #[trigger]
            other.resident().contains_key(w) ==> other.resident()[w].ppn
                != after.resident()[v].ppn,
{
    law_frames_stay_held(other, memory_before, memory);
    law_frames_stay_held(before, memory_before, memory);
    if outcome is Copied {
        lemma_fresh_held(memory_before, memory, after.resident()[v].ppn.0, 1);
        assert forall|w: u64| #[trigger] after.resident().contains_key(w) implies held(
            memory,
            after.resident()[w].ppn.0,
        ) by {
            if w != v {
                assert(before.resident().contains_key(w));
            }
        }
        assert forall|w: u64| #[trigger] other.resident().contains_key(w) implies
            other.resident()[w].ppn != after.resident()[v].ppn by {
            assert(held(memory_before, other.resident()[w].ppn.0));
        }
    }
}

/// Parent and child of a fork have their frames in use, and a third address space keeps apart
/// from the child where it was apart from the parent.
pub proof fn law_forked_frames_are_held(
    before: &MemorySet,
    memory_before: &PhysMemory,
    parent: &MemorySet,
    child: &MemorySet,
    memory: &PhysMemory,
    trampoline: (u64, PhysPageNum),
    other: &MemorySet,
)
    requires
        forked_whole(before, memory_before, parent, child, memory, trampoline),
        frames_held(before, memory_before),
        frames_held(other, memory_before),
    ensures
        frames_held(parent, memory),
        frames_held(child, memory),
        frames_held(other, memory),
        frames_differ(before, other) ==> frames_differ(parent, other) && frames_differ(
            child,
            other,
        ),
{
    law_frames_stay_held(before, memory_before, memory);
    law_frames_stay_held(other, memory_before, memory);
    assert forall|v: u64| #[trigger] child.resident().contains_key(v) implies
        before.resident().contains_key(v) && child.resident()[v] == before.resident()[v] by {
        assert(inherited(before, v as int));
    }
    if frames_differ(before, other) {
        assert forall|v: u64, w: u64| #[trigger]
            child.resident().contains_key(v) && #[trigger] other.resident().contains_key(w) implies
            child.resident()[v].ppn != other.resident()[w].ppn by {
            assert(before.resident().contains_key(v));
        }
        assert forall|v: u64, w: u64| #[trigger]
            parent.resident().contains_key(v) && #[trigger] other.resident().contains_key(
                w,
            ) implies parent.resident()[v].ppn != other.resident()[w].ppn by {
            assert(before.resident().contains_key(v));
        }
    }
}

/// A fork of an address space whose frames are in use succeeds where there are frames for the
/// tables of the child and users can be counted.
pub proof fn law_fork_of_held_frames_is_owed(
    set: &MemorySet,
    memory: &PhysMemory,
    trampoline: u64,
)
    requires
        frames_held(set, memory),
        memory.frames().free.count() >= 3 + tables_for(set.resident().dom()),
        !inherited(set, trampoline as int),
        forall|v: u64| #[trigger]
            set.resident().contains_key(v) ==> memory.frames().count(set.resident()[v].ppn.0)
                + set.resident().dom().len() < u64::MAX,
    ensures
        fork_owed(set, memory, trampoline),
{
    assert forall|v: u64| #[trigger] set.resident().contains_key(v) implies
        memory.frames().free.times_free(set.resident()[v].ppn.0 as int) == 0
        && memory.frames().count(set.resident()[v].ppn.0) + set.resident().dom().len()
        < u64::MAX by {
        assert(held(memory, set.resident()[v].ppn.0));
    }
}

/// A program that was just loaded can be forked where there are frames for the tables of the
/// child, and the page from which signal handlers return is none of its pages.
pub proof fn law_loaded_program_can_fork(
    set: &MemorySet,
    memory: &PhysMemory,
    first: &PhysMemory,
    trampoline: u64,
)
    requires
        set.wf(memory),
        all_own(set, memory, first),
        memory.frames().free.count() >= 3 + tables_for(set.resident().dom()),
        !inherited(set, trampoline as int),
    ensures
        fork_owed(set, memory, trampoline),
{
    reveal(own_frames);
    assert forall|v: u64| #[trigger] set.resident().contains_key(v) implies v < VPN_LIMIT && fresh(
        first,
        memory,
        set.resident()[v].ppn.0,
        1,
    ) by {
        assert(set.frame_mapped(memory, v));
    }
    assert(frames_held(set, memory)) by {
        assert forall|v: u64| #[trigger] set.resident().contains_key(v) implies held(
            memory,
            set.resident()[v].ppn.0,
        ) by {
            assert(fresh(first, memory, set.resident()[v].ppn.0, 1));
            lemma_fresh_held(first, memory, set.resident()[v].ppn.0, 1);
        }
    }
    lemma_few_pages(set.resident().dom(), VPN_LIMIT);
    assert forall|v: u64| #[trigger] set.resident().contains_key(v) implies memory.frames().count(
        set.resident()[v].ppn.0,
    ) + set.resident().dom().len() < u64::MAX by {
        assert(fresh(first, memory, set.resident()[v].ppn.0, 1));
    }
    law_fork_of_held_frames_is_owed(set, memory, trampoline);
}

/// Pages below a bound are not more than the bound.
proof fn lemma_few_pages(pages: Set<u64>, bound: u64)
    requires
        forall|v: u64| #[trigger] pages.contains(v) ==> v < bound,
    ensures
        pages.finite(),
        pages.len() <= bound,
    decreases bound,
{
    if bound == 0 {
        assert(pages =~= Set::<u64>::empty());
    } else {
        let last = (bound - 1) as u64;
        let fewer = pages.remove(last);
        lemma_few_pages(fewer, last);
        if pages.contains(last) {
            assert(pages =~= fewer.insert(last));
        } else {
            assert(pages =~= fewer);
        }
    }
}

/// A frame that an address space has can be let go of.
pub proof fn law_held_frame_can_be_released(set: &MemorySet, memory: &PhysMemory, v: u64)
    requires
        set.wf(memory),
        frames_held(set, memory),
        set.resident().contains_key(v),
    ensures
        ({
            let frame = set.resident()[v];
            &&& memory.frames().count(frame.ppn.0) > 0
            &&& frame.ppn.0 + frame.page_size.pages() <= memory.frames().free.end
            &&& forall|p: int|
                frame.ppn.0 <= p < frame.ppn.0 + frame.page_size.pages()
                    ==> #[trigger] memory.frames().free.times_free(p) == 0
                    && !memory.tables().contains_key(p as u64)
        }),
{
    assert(set.frame_mapped(memory, v));
    assert(held(memory, set.resident()[v].ppn.0));
    assert(set.resident()[v].page_size.pages() == 1);
}

} // verus!
