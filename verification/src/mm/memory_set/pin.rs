//! The frames behind a range of a user's addresses.
//!
//! A range that is pinned is a list of segments, each within one page. Where a
//! page has no frame yet, or is shared until it is written, the range is
//! faulted in and tried again, a bounded number of times.

use vstd::prelude::*;

use crate::mm::address::{PageSize, PhysPageNum, VirtAddr, VirtPageNum, VA_LIMIT};
use crate::mm::area::{MapArea, MapType};
use crate::mm::frame_allocator::FrameTracker;
use crate::mm::phys::PhysMemory;
use crate::mm::pte::{MapPermission, PageTableEntry};

use super::MemorySet;

verus! {

broadcast use {vstd::std_specs::btree::group_btree_axioms, vstd::laws_cmp::group_laws_cmp};

/// How often a range is faulted in, or tried again after a change, before it is given up.
pub const MAX_TRANSIENT_USER_PIN_RETRIES: u64 = 8;

/// Bytes of a user within one page.
#[derive(Clone, Copy)]
pub struct UserSegment {
    /// The frame that the segment holds; the page of the trampoline has none.
    pub frame: Option<FrameTracker>,
    /// The page that the bytes lie in.
    pub ppn: PhysPageNum,
    /// The first byte in the page.
    pub offset: u64,
    /// The number of bytes.
    pub len: u64,
}

/// What came of pinning a segment.
#[derive(Clone, Copy)]
pub enum PinSegment {
    Pinned(UserSegment),
    /// The page has to be faulted in first.
    NeedsFault,
    /// The page is about to change; try again.
    Retry,
    /// The user may not use the address so.
    Invalid,
}

/// What came of pinning a range.
pub enum PinRange {
    Pinned(Vec<UserSegment>),
    NeedsFault,
    Retry,
    Invalid,
}

/// An area lets the user read, or write where `write` is set.
pub open spec fn area_allows(permission: MapPermission, write: bool) -> bool {
    permission.u && if write {
        permission.w
    } else {
        permission.r
    }
}

/// An entry lets the user read, or write where `write` is set.
pub open spec fn entry_allows(entry: PageTableEntry, write: bool) -> bool {
    entry.flags.v && entry.flags.u && if write {
        entry.flags.w
    } else {
        entry.flags.r
    }
}

/// Tells whether an area lets the user read, or write where `write` is set.
pub fn area_allows_user_access(permission: MapPermission, write: bool) -> (yes: bool)
    ensures
        yes == area_allows(permission, write),
{
    permission.u && if write {
        permission.w
    } else {
        permission.r
    }
}

/// Tells whether an entry lets the user read, or write where `write` is set.
pub fn pte_allows_user_access(pte: PageTableEntry, write: bool) -> (yes: bool)
    ensures
        yes == entry_allows(pte, write),
{
    pte.is_valid() && pte.flags.u && if write {
        pte.writable()
    } else {
        pte.readable()
    }
}

/// The last area that starts at or before page `v`.
pub open spec fn last_before(s: Seq<MapArea>, v: int) -> Option<int>
    decreases s.len(),
{
    if s.len() == 0 {
        None
    } else if s.last().start <= v {
        Some(s.len() - 1)
    } else {
        last_before(s.drop_last(), v)
    }
}

proof fn lemma_last_before(s: Seq<MapArea>, v: int)
    ensures
        last_before(s, v) matches Some(i) ==> 0 <= i < s.len() && s[i].start <= v,
    decreases s.len(),
{
    if s.len() > 0 && s.last().start > v {
        lemma_last_before(s.drop_last(), v);
    }
}

/// An area whose pages have frames.
pub open spec fn frame_backed(area: MapArea) -> bool {
    area.map_type == MapType::Framed || area.map_type == MapType::File
}

/// The bytes from `va` on that lie in its page, of a page of a size, and before `end`.
pub open spec fn in_page(va: int, end: int, size: PageSize) -> int {
    let rest = size.bytes() - va % size.bytes();
    if rest <= end - va {
        rest
    } else {
        end - va
    }
}

/// The bytes from `cursor` to `end`.
pub open spec fn rest_of(cursor: int, end: int) -> int {
    if cursor < end {
        end - cursor
    } else {
        0
    }
}

impl MemorySet {
    /// What pinning the segment at an address gives, in a range up to `end`.
    pub open spec fn segment_at(
        &self,
        memory: &PhysMemory,
        va: int,
        end: int,
        write: bool,
        trampoline: (VirtPageNum, PhysPageNum),
    ) -> PinSegment {
        let v = va / 4096;
        let s = self.areas();
        if va >= end {
            PinSegment::Invalid
        } else {
            match last_before(s, v) {
                None => match self.mapping(memory, v) {
                    None => PinSegment::Invalid,
                    Some((entry, size)) => if write {
                        PinSegment::Invalid
                    } else if entry_allows(entry, false) && v == trampoline.0.0 && entry.page
                        == trampoline.1 && size == PageSize::Page4K && !entry.flags.w {
                        PinSegment::Pinned(
                            UserSegment {
                                frame: None,
                                ppn: entry.page,
                                offset: (va % 4096) as u64,
                                len: in_page(va, end, size) as u64,
                            },
                        )
                    } else if entry.flags.v {
                        PinSegment::Retry
                    } else {
                        PinSegment::Invalid
                    },
                },
                Some(i) => if !s[i].holds(v) {
                    PinSegment::Retry
                } else {
                    self.segment_in(memory, s[i], va, end, write)
                },
            }
        }
    }

    /// What pinning the segment at an address in an area gives.
    pub open spec fn segment_in(
        &self,
        memory: &PhysMemory,
        area: MapArea,
        va: int,
        end: int,
        write: bool,
    ) -> PinSegment {
        let v = va / 4096;
        let framed = self.resident().contains_key(v as u64);
        match self.mapping(memory, v) {
            None => if !framed && frame_backed(area) && area_allows(area.map_perm, write) {
                PinSegment::NeedsFault
            } else if frame_backed(area) {
                PinSegment::Retry
            } else {
                PinSegment::Invalid
            },
            Some((entry, size)) => if !area_allows(area.map_perm, write) || !entry.flags.u {
                PinSegment::Invalid
            } else if !framed || self.resident()[v as u64].page_size != size
                || self.resident()[v as u64].ppn != entry.page {
                if frame_backed(area) {
                    PinSegment::Retry
                } else {
                    PinSegment::Invalid
                }
            } else if !entry_allows(entry, write) {
                if write && frame_backed(area) {
                    PinSegment::NeedsFault
                } else {
                    PinSegment::Invalid
                }
            } else {
                PinSegment::Pinned(
                    UserSegment {
                        frame: Some(self.resident()[v as u64]),
                        ppn: entry.page,
                        offset: (va % size.bytes()) as u64,
                        len: in_page(va, end, size) as u64,
                    },
                )
            },
        }
    }

    /// Pins the bytes at an address that lie in its page and before `end`.
    pub fn pin_user_segment(
        &self,
        memory: &PhysMemory,
        va: VirtAddr,
        end: u64,
        write: bool,
        trampoline: (VirtPageNum, PhysPageNum),
    ) -> (segment: PinSegment)
        requires
            self.wf(memory),
            va.0 < VA_LIMIT,
        ensures
            segment == self.segment_at(memory, va.0 as int, end as int, write, trampoline),
    {
        if va.0 >= end {
            return PinSegment::Invalid;
        }
        let vpn = va.std_floor();
        let mut i: usize = self.areas.len();
        let ghost s = self.areas();
        let ghost v = vpn.0 as int;
        assert(s.take(s.len() as int) =~= s);
        while i > 0 && self.areas[i - 1].start > vpn.0
            invariant
                i <= s.len(),
                s == self.areas@,
                v == vpn.0,
                last_before(s, v) == last_before(s.take(i as int), v),
            decreases i,
        {
            assert(s.take(i as int).drop_last() =~= s.take(i - 1));
            i = i - 1;
        }
        if i == 0 {
            return match self.page_table.find_pte(memory, vpn) {
                None => PinSegment::Invalid,
                Some((pte, size)) => {
                    if write {
                        return PinSegment::Invalid;
                    }
                    let fixed: bool = vpn.0 == trampoline.0.0 && pte.ppn() == trampoline.1 && size
                        == PageSize::Page4K && !pte.writable();
                    if !pte_allows_user_access(pte, false) || !fixed {
                        if pte.is_valid() {
                            PinSegment::Retry
                        } else {
                            PinSegment::Invalid
                        }
                    } else {
                        let (offset, len) = Self::part_of_page(va.0, end, size);
                        PinSegment::Pinned(
                            UserSegment { frame: None, ppn: pte.ppn(), offset, len },
                        )
                    }
                },
            };
        }
        let area = self.areas[i - 1];
        assert(last_before(s, v) == Some(i - 1));
        if !area.contains(vpn) {
            return PinSegment::Retry;
        }
        self.pin_in_area(memory, area, va, end, write)
    }

    fn part_of_page(va: u64, end: u64, size: PageSize) -> (part: (u64, u64))
        requires
            va < end,
        ensures
            part.0 == va as int % size.bytes(),
            part.1 == in_page(va as int, end as int, size),
            part.1 > 0,
    {
        let bytes: u64 = size.size();
        let offset: u64 = va % bytes;
        let rest: u64 = bytes - offset;
        if rest <= end - va {
            (offset, rest)
        } else {
            (offset, end - va)
        }
    }

    fn pin_in_area(
        &self,
        memory: &PhysMemory,
        area: MapArea,
        va: VirtAddr,
        end: u64,
        write: bool,
    ) -> (segment: PinSegment)
        requires
            self.wf(memory),
            va.0 < VA_LIMIT,
            va.0 < end,
        ensures
            segment == self.segment_in(memory, area, va.0 as int, end as int, write),
    {
        let vpn = va.std_floor();
        let permission = area.get_map_permission();
        let backed: bool = area.map_type == MapType::Framed || area.map_type == MapType::File;
        let frame: Option<FrameTracker> = match self.resident.get(&vpn.0) {
            None => None,
            Some(frame) => Some(*frame),
        };
        assert(frame is Some <==> self.resident().contains_key(vpn.0));
        match self.page_table.find_pte(memory, vpn) {
            None => {
                if frame.is_none() && backed && area_allows_user_access(permission, write) {
                    PinSegment::NeedsFault
                } else if backed {
                    PinSegment::Retry
                } else {
                    PinSegment::Invalid
                }
            },
            Some((pte, size)) => {
                if !area_allows_user_access(permission, write) || !pte.flags.u {
                    return PinSegment::Invalid;
                }
                match frame {
                    None => if backed {
                        PinSegment::Retry
                    } else {
                        PinSegment::Invalid
                    },
                    Some(frame) => {
                        if frame.page_size != size || frame.ppn != pte.ppn() {
                            return if backed {
                                PinSegment::Retry
                            } else {
                                PinSegment::Invalid
                            };
                        }
                        if !pte_allows_user_access(pte, write) {
                            return if write && backed {
                                PinSegment::NeedsFault
                            } else {
                                PinSegment::Invalid
                            };
                        }
                        let (offset, len) = Self::part_of_page(va.0, end, size);
                        PinSegment::Pinned(
                            UserSegment { frame: Some(frame), ppn: pte.ppn(), offset, len },
                        )
                    },
                }
            },
        }
    }

    /// The segments of a range from `cursor` to `end`, or what keeps it from being pinned.
    pub open spec fn range_pinned(
        &self,
        memory: &PhysMemory,
        cursor: int,
        end: int,
        write: bool,
        trampoline: (VirtPageNum, PhysPageNum),
    ) -> (Seq<UserSegment>, PinSegment)
        decreases rest_of(cursor, end),
    {
        if cursor >= end {
            (Seq::empty(), PinSegment::Invalid)
        } else {
            match self.segment_at(memory, cursor % (VA_LIMIT as int), end, write, trampoline) {
                PinSegment::Pinned(segment) => if segment.len == 0 || cursor + segment.len
                    > u64::MAX {
                    (Seq::empty(), PinSegment::Invalid)
                } else {
                    let (rest, stop) = self.range_pinned(
                        memory,
                        cursor + segment.len,
                        end,
                        write,
                        trampoline,
                    );
                    (seq![segment] + rest, stop)
                },
                other => (Seq::empty(), other),
            }
        }
    }

    /// The range from `cursor` to `end` is pinned whole.
    pub open spec fn range_whole(
        &self,
        memory: &PhysMemory,
        cursor: int,
        end: int,
        write: bool,
        trampoline: (VirtPageNum, PhysPageNum),
    ) -> bool
        decreases rest_of(cursor, end),
    {
        cursor >= end || (self.segment_at(
            memory,
            cursor % (VA_LIMIT as int),
            end,
            write,
            trampoline,
        ) matches PinSegment::Pinned(segment) && segment.len > 0 && cursor + segment.len <= u64::MAX
            && self.range_whole(memory, cursor + segment.len, end, write, trampoline))
    }

    /// Pins a range once.
    pub fn pin_user_range_once(
        &self,
        memory: &PhysMemory,
        start: u64,
        len: u64,
        write: bool,
        trampoline: (VirtPageNum, PhysPageNum),
    ) -> (range: PinRange)
        requires
            self.wf(memory),
        ensures
            start + len > u64::MAX ==> range is Invalid,
            start + len <= u64::MAX ==> {
                let end = start + len;
                let (segments, stop) = self.range_pinned(
                    memory,
                    start as int,
                    end,
                    write,
                    trampoline,
                );
                if self.range_whole(memory, start as int, end, write, trampoline) {
                    range matches PinRange::Pinned(v) && v@ == segments
                } else {
                    match stop {
                        PinSegment::NeedsFault => range is NeedsFault,
                        PinSegment::Retry => range is Retry,
                        _ => range is Invalid,
                    }
                }
            },
    {
        if len > u64::MAX - start {
            return PinRange::Invalid;
        }
        let end: u64 = start + len;
        let mut cursor: u64 = start;
        let mut result: Vec<UserSegment> = Vec::new();
        let ghost whole = self.range_pinned(memory, start as int, end as int, write, trampoline);
        assert(result@ + whole.0 =~= whole.0);
        while cursor < end
            invariant
                self.wf(memory),
                whole.0 == result@ + self.range_pinned(
                    memory,
                    cursor as int,
                    end as int,
                    write,
                    trampoline,
                ).0,
                cursor < end ==> whole.1 == self.range_pinned(
                    memory,
                    cursor as int,
                    end as int,
                    write,
                    trampoline,
                ).1,
                whole == self.range_pinned(memory, start as int, end as int, write, trampoline),
                end == start + len,
                self.range_whole(memory, start as int, end as int, write, trampoline)
                    == self.range_whole(memory, cursor as int, end as int, write, trampoline),
            decreases rest_of(cursor as int, end as int),
        {
            let va = VirtAddr::from(cursor);
            match self.pin_user_segment(memory, va, end, write, trampoline) {
                PinSegment::Pinned(segment) => {
                    if segment.len == 0 || segment.len > u64::MAX - cursor {
                        return PinRange::Invalid;
                    }
                    let ghost rest = self.range_pinned(
                        memory,
                        cursor + segment.len,
                        end as int,
                        write,
                        trampoline,
                    ).0;
                    let ghost had = result@;
                    result.push(segment);
                    cursor = cursor + segment.len;
                    assert(had + (seq![segment] + rest) =~= had.push(segment) + rest);
                },
                PinSegment::NeedsFault => {
                    return PinRange::NeedsFault;
                },
                PinSegment::Retry => {
                    return PinRange::Retry;
                },
                PinSegment::Invalid => {
                    return PinRange::Invalid;
                },
            }
        }
        assert(result@ + Seq::<UserSegment>::empty() =~= result@);
        PinRange::Pinned(result)
    }
}

/// The number of bytes of segments.
pub open spec fn total(segments: Seq<UserSegment>) -> int
    decreases segments.len(),
{
    if segments.len() == 0 {
        0
    } else {
        segments[0].len + total(segments.skip(1))
    }
}

/// A range of user addresses that is pinned whole has as many bytes in its
/// segments as the range has.
pub proof fn law_pinned_covers(
    set: &MemorySet,
    memory: &PhysMemory,
    cursor: int,
    end: int,
    write: bool,
    trampoline: (VirtPageNum, PhysPageNum),
)
    requires
        0 <= cursor <= end <= VA_LIMIT,
        set.range_whole(memory, cursor, end, write, trampoline),
    ensures
        total(set.range_pinned(memory, cursor, end, write, trampoline).0) == end - cursor,
    decreases end - cursor,
{
    if cursor < end {
        if let PinSegment::Pinned(segment) = set.segment_at(
            memory,
            cursor % (VA_LIMIT as int),
            end,
            write,
            trampoline,
        ) {
            assert(cursor % (VA_LIMIT as int) == cursor);
            assert(segment.len <= end - cursor) by {
                lemma_segment_short(set, memory, cursor, end, write, trampoline);
            }
            law_pinned_covers(set, memory, cursor + segment.len, end, write, trampoline);
            let all = set.range_pinned(memory, cursor, end, write, trampoline).0;
            let rest = set.range_pinned(
                memory,
                cursor + segment.len,
                end,
                write,
                trampoline,
            ).0;
            assert(all =~= seq![segment] + rest);
            assert(all.skip(1) =~= rest);
        }
    }
}

proof fn lemma_segment_short(
    set: &MemorySet,
    memory: &PhysMemory,
    va: int,
    end: int,
    write: bool,
    trampoline: (VirtPageNum, PhysPageNum),
)
    requires
        0 <= va < end <= VA_LIMIT,
    ensures
        set.segment_at(memory, va, end, write, trampoline) matches PinSegment::Pinned(segment)
            ==> segment.len <= end - va,
{
}

/// What to do after a range was tried.
#[derive(Clone, Copy, Debug, PartialEq, Eq, Structural)]
pub enum PinAction {
    /// The range is pinned.
    Done,
    /// Fault the range in; where that works, try again, else give up.
    FaultIn,
    /// Try again.
    Again,
    /// Give up.
    GiveUp,
}

/// What a try led to.
#[derive(Clone, Copy, Debug, PartialEq, Eq, Structural)]
pub enum PinStatus {
    Pinned,
    NeedsFault,
    Retry,
    Invalid,
}

/// How often a range was tried.
#[derive(Clone, Copy, Debug, PartialEq, Eq, Structural)]
pub struct PinTries {
    /// Tries since the range was last faulted in.
    pub retries: u64,
    /// Times that the range was faulted in.
    pub faults: u64,
}

impl PinTries {
    /// No limit is passed.
    pub open spec fn wf(self) -> bool {
        self.retries <= MAX_TRANSIENT_USER_PIN_RETRIES && self.faults
            <= MAX_TRANSIENT_USER_PIN_RETRIES
    }

    /// How many more tries there can be at most.
    pub open spec fn left(self) -> int {
        (MAX_TRANSIENT_USER_PIN_RETRIES - self.faults) * (MAX_TRANSIENT_USER_PIN_RETRIES + 1)
            + MAX_TRANSIENT_USER_PIN_RETRIES - self.retries
    }

    /// Starts with no try.
    pub fn new() -> (tries: Self)
        ensures
            tries.wf(),
            tries == (PinTries { retries: 0, faults: 0 }),
    {
        PinTries { retries: 0, faults: 0 }
    }

    /// Decides what to do after a try.
    ///
    /// Every further try makes the number of those that can follow smaller.
    pub fn after(&mut self, status: PinStatus) -> (action: PinAction)
        requires
            old(self).wf(),
        ensures
            action is Done || action is GiveUp || final(self).wf(),
            action is FaultIn || action is Again ==> final(self).left() < old(self).left(),
            match status {
                PinStatus::Pinned => action is Done && *final(self) == *old(self),
                PinStatus::Invalid => action is GiveUp && *final(self) == *old(self),
                PinStatus::NeedsFault => if old(self).faults < MAX_TRANSIENT_USER_PIN_RETRIES {
                    action is FaultIn && *final(self) == (PinTries {
                        retries: 0,
                        faults: (old(self).faults + 1) as u64,
                    })
                } else {
                    action is GiveUp
                },
                PinStatus::Retry => if old(self).retries < MAX_TRANSIENT_USER_PIN_RETRIES {
                    action is Again && *final(self) == (PinTries {
                        retries: (old(self).retries + 1) as u64,
                        ..*old(self)
                    })
                } else {
                    action is GiveUp
                },
            },
    {
        match status {
            PinStatus::Pinned => PinAction::Done,
            PinStatus::Invalid => PinAction::GiveUp,
            PinStatus::NeedsFault => {
                if self.faults >= MAX_TRANSIENT_USER_PIN_RETRIES {
                    return PinAction::GiveUp;
                }
                self.faults = self.faults + 1;
                self.retries = 0;
                PinAction::FaultIn
            },
            PinStatus::Retry => {
                if self.retries >= MAX_TRANSIENT_USER_PIN_RETRIES {
                    return PinAction::GiveUp;
                }
                self.retries = self.retries + 1;
                PinAction::Again
            },
        }
    }
}

} // verus!
