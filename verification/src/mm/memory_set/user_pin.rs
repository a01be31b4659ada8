//! The way to a range of a user's memory, in steps.
//!
//! A range is tried; where a page is missing or shared it is faulted in, and
//! the range is tried again, up to a limit. A step that needs a file to be read
//! or a page to be copied says so, and is followed by the next once that is done.

use vstd::prelude::*;

use crate::mm::address::{PhysPageNum, VirtAddr, VirtPageNum, VA_LIMIT};
use crate::mm::frame_allocator::FrameTracker;
use crate::mm::phys::{held, keeps_held, lemma_held_both, lemma_held_self, PhysMemory};
use crate::mm::user_string::{
    first_zero, CStringStep, UserCString, UserCStringError, MAX_USER_CSTRING_LEN,
};

use super::access::{last_of, AccessStep};
use super::owned::frames_held;
use super::pin::{
    rest_of, PinAction, PinRange, PinSegment, PinStatus, PinTries, UserSegment,
};
use super::{groups_ok, range_start, MemorySet, SharedPages};

verus! {

/// A range of user memory that is to be used.
#[derive(Clone, Copy, Debug, PartialEq, Eq, Structural)]
pub struct UserPin {
    /// Where it starts.
    pub start: u64,
    /// Its bytes.
    pub len: u64,
    /// It is to be written.
    pub write: bool,
    /// How often it was tried.
    pub tries: PinTries,
    /// It is being faulted in.
    pub faulting: bool,
}

/// What comes next.
pub enum PinStep {
    /// Nothing: the range is pinned.
    Pinned(Vec<UserSegment>),
    /// Nothing: the range cannot be used; a frame that could not be mapped goes back.
    GiveUp(Option<FrameTracker>),
    /// The next step, once this is done.
    Access(AccessStep),
    /// The next step.
    Again,
}

/// The place and the bytes of a range tell no pages that it lies in.
pub open spec fn wraps(start: u64, len: u64) -> bool {
    len > 0 && (start + len - 1 > u64::MAX || range_start(start) > last_of(start, len))
}

/// What a try of a range leads to.
pub open spec fn tried(
    pin: UserPin,
    set: &MemorySet,
    memory: &PhysMemory,
    trampoline: (VirtPageNum, PhysPageNum),
    after: UserPin,
    step: PinStep,
) -> bool {
    let end = pin.start + pin.len;
    let (segments, stop) = set.range_pinned(
        memory,
        pin.start as int,
        end,
        pin.write,
        trampoline,
    );
    if end > u64::MAX {
        step == PinStep::GiveUp(None)
    } else if set.range_whole(memory, pin.start as int, end, pin.write, trampoline) {
        &&& step matches PinStep::Pinned(v) && v@ == segments
        &&& after == pin
    } else if stop is NeedsFault && pin.tries.faults < 8 {
        &&& step is Again
        &&& after == (UserPin {
            faulting: true,
            tries: PinTries { retries: 0, faults: (pin.tries.faults + 1) as u64 },
            ..pin
        })
    } else if stop is Retry && pin.tries.retries < 8 {
        &&& step is Again
        &&& after == (UserPin {
            tries: PinTries { retries: (pin.tries.retries + 1) as u64, ..pin.tries },
            ..pin
        })
    } else {
        step == PinStep::GiveUp(None)
    }
}

/// What the step of faulting a range in leads to.
pub open spec fn faulted(pin: UserPin, access: AccessStep, after: UserPin, step: PinStep) -> bool {
    match access {
        AccessStep::Ready => step is Again && after == (UserPin { faulting: false, ..pin }),
        AccessStep::Refused => step == PinStep::GiveUp(None),
        AccessStep::OutOfFrames(frame) => step == PinStep::GiveUp(frame),
        _ => step == PinStep::Access(access) && after == pin,
    }
}

impl UserPin {
    /// No limit is passed.
    pub open spec fn wf(self) -> bool {
        self.tries.wf()
    }

    /// The steps that can follow one another with nothing to do in between.
    pub open spec fn left(self) -> int {
        2 * self.tries.left() + if self.faulting {
            1int
        } else {
            0int
        }
    }

    /// Makes a range that was not tried yet.
    pub fn new(start: u64, len: u64, write: bool) -> (pin: Self)
        ensures
            pin.wf(),
            pin == (UserPin {
                start,
                len,
                write,
                tries: PinTries { retries: 0, faults: 0 },
                faulting: false,
            }),
    {
        UserPin { start, len, write, tries: PinTries::new(), faulting: false }
    }

    /// What a step leads to.
    pub open spec fn advanced(
        self,
        set: &MemorySet,
        memory: &PhysMemory,
        shared: Map<u64, FrameTracker>,
        set_after: &MemorySet,
        memory_after: &PhysMemory,
        shared_after: Map<u64, FrameTracker>,
        sp: u64,
        trampoline: (VirtPageNum, PhysPageNum),
        after: UserPin,
        step: PinStep,
    ) -> bool {
        let untouched = *set_after == *set && *memory_after == *memory && shared_after == shared;
        if !self.faulting {
            untouched && tried(self, set, memory, trampoline, after, step)
        } else if wraps(self.start, self.len) {
            untouched && step == PinStep::GiveUp(None)
        } else if self.len == 0 {
            untouched && faulted(self, AccessStep::Ready, after, step)
        } else {
            exists|access: AccessStep| #[trigger]
                set.step_taken(
                    memory,
                    shared,
                    set_after,
                    memory_after,
                    shared_after,
                    range_start(self.start),
                    last_of(self.start, self.len),
                    sp as int,
                    self.write,
                    access,
                ) && faulted(self, access, after, step)
        }
    }

    /// Tries the range once.
    fn try_once(
        &mut self,
        set: &MemorySet,
        memory: &PhysMemory,
        trampoline: (VirtPageNum, PhysPageNum),
    ) -> (step: PinStep)
        requires
            old(self).wf(),
            set.wf(memory),
        ensures
            !(step is GiveUp) ==> final(self).wf(),
            step is Again ==> final(self).tries.left() < old(self).tries.left(),
            final(self).start == old(self).start,
            final(self).len == old(self).len,
            final(self).write == old(self).write,
            tried(*old(self), set, memory, trampoline, *final(self), step),
    {
        let range = set.pin_user_range_once(memory, self.start, self.len, self.write, trampoline);
        let status = match &range {
            PinRange::Pinned(_) => PinStatus::Pinned,
            PinRange::NeedsFault => PinStatus::NeedsFault,
            PinRange::Retry => PinStatus::Retry,
            PinRange::Invalid => PinStatus::Invalid,
        };
        match self.tries.after(status) {
            PinAction::FaultIn => {
                self.faulting = true;
                PinStep::Again
            },
            PinAction::Again => PinStep::Again,
            PinAction::GiveUp => PinStep::GiveUp(None),
            PinAction::Done => match range {
                PinRange::Pinned(segments) => PinStep::Pinned(segments),
                _ => PinStep::GiveUp(None),
            },
        }
    }

    /// Takes the next step on the way to the range.
    ///
    /// A range whose last page lies before its first cannot be faulted in. Steps
    /// with nothing to do in between come to an end.
    pub fn advance(
        &mut self,
        set: &mut MemorySet,
        memory: &mut PhysMemory,
        shared: &mut SharedPages,
        sp: u64,
        trampoline: (VirtPageNum, PhysPageNum),
    ) -> (step: PinStep)
        requires
            old(self).wf(),
            old(set).wf(old(memory)),
            old(shared).wf(),
            groups_ok(old(set).areas()),
        ensures
            !(step is GiveUp) ==> final(self).wf(),
            step is Again ==> final(self).left() < old(self).left(),
            final(self).start == old(self).start,
            final(self).len == old(self).len,
            final(self).write == old(self).write,
            final(set).wf(final(memory)),
            final(shared).wf(),
            groups_ok(final(set).areas()),
            final(set).brk() == old(set).brk(),
            final(set).heap_start() == old(set).heap_start(),
            final(set).number() == old(set).number(),
            final(set).keeps_apart(final(memory), old(set), old(memory)),
            old(self).advanced(
                old(set),
                old(memory),
                old(shared)@,
                final(set),
                final(memory),
                final(shared)@,
                sp,
                trampoline,
                *final(self),
                step,
            ),
    {
        proof {
            lemma_held_self(memory.contents());
        }
        if !self.faulting {
            return self.try_once(set, memory, trampoline);
        }
        if self.len > 0 {
            if self.len - 1 > u64::MAX - self.start {
                return PinStep::GiveUp(None);
            }
            let first = VirtAddr(self.start % VA_LIMIT).std_floor();
            let last = VirtAddr((self.start + (self.len - 1)) % VA_LIMIT).std_floor();
            if last.0 < first.0 {
                return PinStep::GiveUp(None);
            }
        }
        let access = if self.write {
            set.ensure_writable_user_range(memory, shared, self.start, self.len, sp)
        } else {
            set.ensure_readable_user_range(memory, shared, self.start, self.len, sp)
        };
        assert(self.len > 0 ==> old(set).step_taken(
            old(memory),
            old(shared)@,
            set,
            memory,
            shared@,
            range_start(self.start),
            last_of(self.start, self.len),
            sp as int,
            self.write,
            access,
        ));
        match access {
            AccessStep::Ready => {
                self.faulting = false;
                PinStep::Again
            },
            AccessStep::Refused => PinStep::GiveUp(None),
            AccessStep::OutOfFrames(frame) => PinStep::GiveUp(frame),
            access => PinStep::Access(access),
        }
    }
}

/// The steps follow one another with nothing to do in between.
pub open spec fn in_a_row(
    pins: Seq<UserPin>,
    set: &MemorySet,
    memory: &PhysMemory,
    shared: Map<u64, FrameTracker>,
    sp: u64,
    trampoline: (VirtPageNum, PhysPageNum),
) -> bool {
    forall|i: int|
        0 <= i < pins.len() - 1 ==> (#[trigger] pins[i]).advanced(
            set,
            memory,
            shared,
            set,
            memory,
            shared,
            sp,
            trampoline,
            pins[i + 1],
            PinStep::Again,
        )
}

impl UserPin {
    /// What steps lead to, up to one that ends the way or has something to be done.
    pub open spec fn led_to(
        self,
        set: &MemorySet,
        memory: &PhysMemory,
        shared: Map<u64, FrameTracker>,
        set_after: &MemorySet,
        memory_after: &PhysMemory,
        shared_after: Map<u64, FrameTracker>,
        sp: u64,
        trampoline: (VirtPageNum, PhysPageNum),
        after: UserPin,
        step: PinStep,
    ) -> bool {
        &&& !(step is Again)
        &&& exists|pins: Seq<UserPin>| #[trigger]
            in_a_row(pins, set, memory, shared, sp, trampoline) && pins.len() > 0 && pins[0]
                == self && pins.last().advanced(
                set,
                memory,
                shared,
                set_after,
                memory_after,
                shared_after,
                sp,
                trampoline,
                after,
                step,
            )
    }
}

/// Goes on to a range until it is pinned, is given up, or something is to be done; then it is
/// called again.
pub fn pin_user_range(
    pin: &mut UserPin,
    set: &mut MemorySet,
    memory: &mut PhysMemory,
    shared: &mut SharedPages,
    sp: u64,
    trampoline: (VirtPageNum, PhysPageNum),
) -> (step: PinStep)
    requires
        old(pin).wf(),
        old(set).wf(old(memory)),
        old(shared).wf(),
        groups_ok(old(set).areas()),
    ensures
        !(step is GiveUp) ==> final(pin).wf(),
        final(pin).start == old(pin).start,
        final(pin).len == old(pin).len,
        final(pin).write == old(pin).write,
        final(set).wf(final(memory)),
        final(shared).wf(),
        groups_ok(final(set).areas()),
        final(set).brk() == old(set).brk(),
        final(set).heap_start() == old(set).heap_start(),
        final(set).number() == old(set).number(),
        final(set).keeps_apart(final(memory), old(set), old(memory)),
        old(pin).led_to(
            old(set),
            old(memory),
            old(shared)@,
            final(set),
            final(memory),
            final(shared)@,
            sp,
            trampoline,
            *final(pin),
            step,
        ),
{
    let ghost mut pins: Seq<UserPin> = seq![*pin];
    loop
        invariant
            pin.wf(),
            pin.start == old(pin).start,
            pin.len == old(pin).len,
            pin.write == old(pin).write,
            *set == *old(set),
            *memory == *old(memory),
            shared@ == old(shared)@,
            set.wf(memory),
            shared.wf(),
            groups_ok(set.areas()),
            pins.len() > 0,
            pins[0] == *old(pin),
            pins.last() == *pin,
            in_a_row(pins, old(set), old(memory), old(shared)@, sp, trampoline),
        decreases pin.left(),
    {
        let ghost before = *pin;
        let step = pin.advance(set, memory, shared, sp, trampoline);
        match step {
            PinStep::Again => {
                proof {
                    let more = pins.push(*pin);
                    assert forall|i: int| 0 <= i < more.len() - 1 implies (
                    #[trigger] more[i]).advanced(
                        old(set),
                        old(memory),
                        old(shared)@,
                        old(set),
                        old(memory),
                        old(shared)@,
                        sp,
                        trampoline,
                        more[i + 1],
                        PinStep::Again,
                    ) by {
                        if i < pins.len() - 1 {
                            assert(more[i] == pins[i] && more[i + 1] == pins[i + 1]);
                        } else {
                            assert(more[i] == before && more[i + 1] == *pin);
                        }
                    }
                    pins = more;
                }
            },
            step => {
                return step;
            },
        }
    }
}

/// Starts on the way to a range that is to be read.
pub fn translated_byte_buffer(start: u64, len: u64) -> (pin: UserPin)
    ensures
        pin.wf(),
        pin == (UserPin {
            start,
            len,
            write: false,
            tries: PinTries { retries: 0, faults: 0 },
            faulting: false,
        }),
{
    UserPin::new(start, len, false)
}

/// Starts on the way to a range that is to be written.
pub fn translated_byte_buffer_mut(start: u64, len: u64) -> (pin: UserPin)
    ensures
        pin.wf(),
        pin == (UserPin {
            start,
            len,
            write: true,
            tries: PinTries { retries: 0, faults: 0 },
            faulting: false,
        }),
{
    UserPin::new(start, len, true)
}

/// How many of the segments hold the frame of page `p`.
pub open spec fn holds_of(segments: Seq<UserSegment>, p: u64) -> int
    decreases segments.len(),
{
    if segments.len() == 0 {
        0
    } else {
        holds_of(segments.drop_last(), p) + if segments.last().frame matches Some(f) && f.ppn.0
            == p {
            1int
        } else {
            0int
        }
    }
}

proof fn lemma_holds_few(segments: Seq<UserSegment>, p: u64)
    ensures
        0 <= holds_of(segments, p) <= segments.len(),
    decreases segments.len(),
{
    if segments.len() > 0 {
        lemma_holds_few(segments.drop_last(), p);
    }
}

/// Makes the segments users of their frames, so that these stay for as long as the bytes are used.
pub fn hold_segments(memory: &mut PhysMemory, segments: &Vec<UserSegment>)
    requires
        old(memory).wf(),
        forall|i: int|
            0 <= i < segments@.len() ==> ((#[trigger] segments@[i]).frame matches Some(f) ==> old(
                memory,
            ).frames().count(f.ppn.0) + segments@.len() <= u64::MAX),
    ensures
        final(memory).wf(),
        final(memory).tables() == old(memory).tables(),
        final(memory).stale() == old(memory).stale(),
        final(memory).frames().free == old(memory).frames().free,
        keeps_held(old(memory), final(memory)),
        forall|p: u64| #[trigger]
            final(memory).frames().count(p) == old(memory).frames().count(p) + holds_of(
                segments@,
                p,
            ),
{
    let mut i: usize = 0;
    proof {
        lemma_held_self(memory.contents());
        assert(segments@.take(0) =~= Seq::<UserSegment>::empty());
    }
    while i < segments.len()
        invariant
            i <= segments@.len(),
            memory.wf(),
            memory.tables() == old(memory).tables(),
            memory.stale() == old(memory).stale(),
            memory.frames().free == old(memory).frames().free,
            keeps_held(old(memory), memory),
            forall|p: u64| #[trigger]
                memory.frames().count(p) == old(memory).frames().count(p) + holds_of(
                    segments@.take(i as int),
                    p,
                ),
            forall|j: int|
                0 <= j < segments@.len() ==> ((#[trigger] segments@[j]).frame matches Some(f)
                    ==> old(memory).frames().count(f.ppn.0) + segments@.len() <= u64::MAX),
        decreases segments@.len() - i,
    {
        broadcast use lemma_held_both;

        let ghost before = *memory;
        let segment = segments[i];
        assert(segments@.take(i + 1).drop_last() =~= segments@.take(i as int));
        if let Some(frame) = segment.frame {
            proof {
                lemma_holds_few(segments@.take(i as int), frame.ppn.0);
                assert(segments@[i as int].frame == Some(frame));
                assert(memory.frames().count(frame.ppn.0) == old(memory).frames().count(
                    frame.ppn.0,
                ) + holds_of(segments@.take(i as int), frame.ppn.0));
            }
            memory.share_frame(frame.ppn);
        }
        i = i + 1;
        assert forall|p: u64| #[trigger] memory.frames().count(p) == old(memory).frames().count(p)
            + holds_of(segments@.take(i as int), p) by {
            assert(before.frames().count(p) == old(memory).frames().count(p) + holds_of(
                segments@.take(i - 1),
                p,
            ));
        }
    }
    assert(segments@.take(i as int) =~= segments@);
}

/// The frames behind a range of an address space whose frames are in use are in use.
pub proof fn law_pinned_frames_are_held(
    set: &MemorySet,
    memory: &PhysMemory,
    cursor: int,
    end: int,
    write: bool,
    trampoline: (VirtPageNum, PhysPageNum),
)
    requires
        frames_held(set, memory),
    ensures
        forall|i: int|
            0 <= i < set.range_pinned(memory, cursor, end, write, trampoline).0.len() ==> ((
            #[trigger] set.range_pinned(memory, cursor, end, write, trampoline).0[i]).frame
                matches Some(f) ==> held(memory, f.ppn.0)),
    decreases rest_of(cursor, end),
{
    if cursor < end {
        if let PinSegment::Pinned(segment) = set.segment_at(
            memory,
            cursor % (VA_LIMIT as int),
            end,
            write,
            trampoline,
        ) {
            if segment.len > 0 && cursor + segment.len <= u64::MAX {
                let next = cursor + segment.len;
                law_pinned_frames_are_held(set, memory, next, end, write, trampoline);
                let rest = set.range_pinned(memory, next, end, write, trampoline).0;
                let all = set.range_pinned(memory, cursor, end, write, trampoline).0;
                assert(all =~= seq![segment] + rest);
                assert forall|i: int| 0 <= i < all.len() implies ((#[trigger] all[i]).frame matches Some(
                    f,
                ) ==> held(memory, f.ppn.0)) by {
                    if i > 0 {
                        assert(all[i] == rest[i - 1]);
                    }
                }
            }
        }
    }
}

/// A range that can be used as it is takes one step, and leaves everything as it was.
pub proof fn law_ready_range_takes_one_step(
    pin: UserPin,
    set: &MemorySet,
    memory: &PhysMemory,
    trampoline: (VirtPageNum, PhysPageNum),
    after: UserPin,
    step: PinStep,
)
    requires
        tried(pin, set, memory, trampoline, after, step),
        pin.start + pin.len <= u64::MAX,
        set.range_whole(
            memory,
            pin.start as int,
            pin.start + pin.len,
            pin.write,
            trampoline,
        ),
    ensures
        step is Pinned,
{
}

/// The bytes that a string asks for next lie in one segment, which has as many.
pub proof fn law_asked_bytes_are_one_segment(
    set: &MemorySet,
    memory: &PhysMemory,
    start: int,
    len: int,
    trampoline: (VirtPageNum, PhysPageNum),
)
    requires
        0 <= start,
        0 < len <= 4096 - start % 4096,
        start + len <= VA_LIMIT,
        set.range_whole(memory, start, start + len, false, trampoline),
    ensures
        set.range_pinned(memory, start, start + len, false, trampoline).0.len() == 1,
        set.range_pinned(memory, start, start + len, false, trampoline).0[0].len == len,
{
    let end = start + len;
    assert(start % (VA_LIMIT as int) == start);
    if let PinSegment::Pinned(segment) = set.segment_at(memory, start, end, false, trampoline) {
        assert(segment.len == len);
        let all = set.range_pinned(memory, start, end, false, trampoline).0;
        let rest = set.range_pinned(memory, end, end, false, trampoline).0;
        assert(all =~= seq![segment] + rest);
        assert(rest =~= Seq::<UserSegment>::empty());
    }
}

/// A string of a user that is copied page by page.
pub struct CStringCopy {
    string: UserCString,
    pin: Option<UserPin>,
}

/// What comes next for a string.
pub enum CStringAsk {
    /// The bytes of the segment are read and supplied.
    Read(UserSegment),
    /// The next step, once this is done.
    Access(AccessStep),
    /// Nothing: the string cannot be taken over; a frame that could not be mapped goes back.
    Failed(UserCStringError, Option<FrameTracker>),
}

/// What a step on the way to the bytes leads to for the string.
pub open spec fn asks(step: PinStep, ask: CStringAsk) -> bool {
    match step {
        PinStep::Pinned(segments) => ask == CStringAsk::Read(segments@[0]),
        PinStep::GiveUp(frame) => ask == CStringAsk::Failed(UserCStringError::Invalid, frame),
        PinStep::Access(access) => ask == CStringAsk::Access(access),
        PinStep::Again => false,
    }
}

impl CStringCopy {
    /// What was read so far.
    pub closed spec fn string(&self) -> UserCString {
        self.string
    }

    /// The way to the bytes that are read next, once it was taken.
    pub closed spec fn pin(&self) -> Option<UserPin> {
        self.pin
    }

    /// The range that is pinned is the one that is asked for.
    pub open spec fn wf(&self) -> bool {
        &&& self.string().wf()
        &&& self.pin() matches Some(p) ==> p.wf() && p.start == self.string().at() && p.len
            == self.string().asked() && !p.write
    }

    /// The range to be pinned next.
    pub open spec fn next_pin(&self) -> UserPin {
        match self.pin() {
            Some(p) => p,
            None => UserPin {
                start: self.string().at(),
                len: self.string().asked() as u64,
                write: false,
                tries: PinTries { retries: 0, faults: 0 },
                faulting: false,
            },
        }
    }

    /// Starts to copy the string at an address.
    pub fn start(ptr: u64, max_len: u64) -> (copy: Result<Self, UserCStringError>)
        ensures
            match copy {
                Err(UserCStringError::Invalid) => ptr == 0 || ptr >= 0x8000_0000_0000_0000,
                Err(UserCStringError::TooLong) => 0 < ptr < 0x8000_0000_0000_0000 && max_len
                    == u64::MAX,
                Ok(c) => {
                    &&& 0 < ptr < 0x8000_0000_0000_0000
                    &&& max_len < u64::MAX
                    &&& c.wf()
                    &&& c.pin() is None
                    &&& c.string().bytes() == Seq::<u8>::empty()
                    &&& c.string().at() == ptr
                    &&& c.string().limit() == max_len
                },
            },
    {
        match UserCString::start(ptr, max_len) {
            Ok(string) => Ok(CStringCopy { string, pin: None }),
            Err(e) => Err(e),
        }
    }

    /// Takes the next step on the way to the bytes that are read next.
    pub fn advance(
        &mut self,
        set: &mut MemorySet,
        memory: &mut PhysMemory,
        shared: &mut SharedPages,
        sp: u64,
        trampoline: (VirtPageNum, PhysPageNum),
    ) -> (ask: CStringAsk)
        requires
            old(self).wf(),
            old(set).wf(old(memory)),
            old(shared).wf(),
            groups_ok(old(set).areas()),
        ensures
            final(self).string() == old(self).string(),
            !(ask is Failed) ==> final(self).wf(),
            final(set).wf(final(memory)),
            final(shared).wf(),
            groups_ok(final(set).areas()),
            final(set).brk() == old(set).brk(),
            final(set).heap_start() == old(set).heap_start(),
            final(set).number() == old(set).number(),
            final(set).keeps_apart(final(memory), old(set), old(memory)),
            exists|step: PinStep|
                {
                    &&& #[trigger] old(self).next_pin().led_to(
                        old(set),
                        old(memory),
                        old(shared)@,
                        final(set),
                        final(memory),
                        final(shared)@,
                        sp,
                        trampoline,
                        final(self).pin()->Some_0,
                        step,
                    )
                    &&& asks(step, ask)
                },
    {
        let mut pin = match self.pin {
            Some(pin) => pin,
            None => {
                let (start, len) = self.string.request();
                UserPin::new(start, len, false)
            },
        };
        let step = pin_user_range(&mut pin, set, memory, shared, sp, trampoline);
        self.pin = Some(pin);
        assert(old(self).next_pin().led_to(
            old(set),
            old(memory),
            old(shared)@,
            set,
            memory,
            shared@,
            sp,
            trampoline,
            pin,
            step,
        ));
        let ghost was = step;
        let ask = match step {
            PinStep::Pinned(segments) => CStringAsk::Read(segments[0]),
            PinStep::GiveUp(frame) => CStringAsk::Failed(UserCStringError::Invalid, frame),
            PinStep::Access(access) => CStringAsk::Access(access),
            PinStep::Again => CStringAsk::Failed(UserCStringError::Invalid, None),
        };
        assert(asks(was, ask));
        assert(self.pin()->Some_0 == pin);
        ask
    }

    /// Takes over the bytes of the segment that was to be read.
    pub fn supply(&mut self, chunk: &Vec<u8>) -> (step: CStringStep)
        requires
            old(self).wf(),
            0 < chunk@.len() <= old(self).string().limit() + 1 - old(self).string().bytes().len(),
        ensures
            final(self).pin() is None,
            final(self).string().limit() == old(self).string().limit(),
            ({
                let n = first_zero(chunk@);
                let had = old(self).string().bytes();
                let limit = old(self).string().limit();
                let at = old(self).string().at();
                match step {
                    CStringStep::Complete => {
                        &&& n < chunk@.len()
                        &&& had.len() + n <= limit
                        &&& final(self).string().bytes() == had + chunk@.take(n as int)
                    },
                    CStringStep::More => {
                        &&& n == chunk@.len()
                        &&& had.len() + n <= limit
                        &&& at + n <= u64::MAX
                        &&& final(self).wf()
                        &&& final(self).string().bytes() == had + chunk@
                        &&& final(self).string().at() == at + n
                    },
                    CStringStep::Failed(UserCStringError::TooLong) => had.len() + n > limit,
                    CStringStep::Failed(UserCStringError::Invalid) => had.len() + n <= limit && n
                        == chunk@.len() && at + n > u64::MAX,
                }
            }),
    {
        self.pin = None;
        self.string.supply(chunk)
    }

    /// Returns the string.
    pub fn finish(self) -> (text: String)
        ensures
            text@ == self.string().bytes().map_values(|b: u8| b as char),
    {
        self.string.finish()
    }
}

/// Starts to copy a string with the limit that holds where a caller sets no other.
pub fn try_translated_str(ptr: u64) -> (copy: Result<CStringCopy, UserCStringError>)
    ensures
        copy is Ok <==> 0 < ptr < 0x8000_0000_0000_0000,
        copy matches Err(e) ==> e == UserCStringError::Invalid,
        copy matches Ok(c) ==> c.wf() && c.pin() is None && c.string().bytes() == Seq::<u8>::empty()
            && c.string().at() == ptr && c.string().limit() == MAX_USER_CSTRING_LEN,
{
    CStringCopy::start(ptr, MAX_USER_CSTRING_LEN)
}

} // verus!
