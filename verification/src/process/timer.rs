//! Timers that send a process signals.

use vstd::prelude::*;

verus! {

/// Nothing is sent.
pub const SIGEV_NONE: i32 = 1;

/// One thread is sent the signal.
pub const SIGEV_THREAD_ID: i32 = 4;

/// The nanoseconds of a second.
pub const NSEC_PER_SEC: u64 = 1_000_000_000;

/// A time in seconds and nanoseconds.
#[derive(Clone, Copy, Debug, PartialEq, Eq, Structural)]
pub struct TimeSpec {
    pub tv_sec: u64,
    pub tv_nsec: u64,
}

/// How a program wants to be told.
#[derive(Clone, Copy, Debug, PartialEq, Eq, Structural)]
pub struct KernelSigEvent {
    pub value: u64,
    pub signo: i32,
    pub notify: i32,
    pub tid: i32,
}

/// When a timer runs out for the first time, and how often after that.
#[derive(Clone, Copy, Debug, PartialEq, Eq, Structural)]
pub struct ITimerSpec {
    pub it_interval: TimeSpec,
    pub it_value: TimeSpec,
}

/// A timer of a process.
#[derive(Clone, Copy, Debug, PartialEq, Eq, Structural)]
pub struct PosixTimer {
    pub owner_pid: u64,
    pub clock_id: i32,
    pub notify: i32,
    pub signo: i32,
    pub value: u64,
    pub target_tid: u64,
    /// When it runs out next, where it runs.
    pub expires_ns: Option<u128>,
    /// The period; zero where it runs out once.
    pub interval_ns: u128,
}

/// The clocks, in nanoseconds.
#[derive(Clone, Copy, Debug, PartialEq, Eq, Structural)]
pub struct Clocks {
    pub realtime: u128,
    pub monotonic: u128,
}

/// The time of day is the first clock, and the time since the start all others.
pub open spec fn now_of(clocks: Clocks, clock_id: i32) -> u128 {
    if clock_id == 0 {
        clocks.realtime
    } else {
        clocks.monotonic
    }
}

impl Clocks {
    /// Returns the time of a clock.
    pub fn clock_now_ns(&self, clock_id: i32) -> (now: u128)
        ensures
            now == now_of(*self, clock_id),
    {
        if clock_id == 0 {
            self.realtime
        } else {
            self.monotonic
        }
    }
}

/// Returns the clocks: the time of day can be moved by an offset, but not below zero.
pub fn read_clocks(real_time_ns: u64, offset_ns: i64, time_us: u64) -> (clocks: Clocks)
    ensures
        clocks.realtime == if real_time_ns + offset_ns >= 0 {
            real_time_ns + offset_ns
        } else {
            0
        },
        clocks.monotonic == time_us * 1000,
{
    let adjusted: i128 = real_time_ns as i128 + offset_ns as i128;
    Clocks {
        realtime: if adjusted >= 0 {
            adjusted as u128
        } else {
            0
        },
        monotonic: time_us as u128 * 1000,
    }
}

/// The nanoseconds of a time; none where it is not written as it should be.
pub open spec fn ns_of(time: TimeSpec) -> Option<int> {
    if time.tv_nsec >= NSEC_PER_SEC {
        None
    } else {
        Some(time.tv_sec * NSEC_PER_SEC + time.tv_nsec)
    }
}

/// Returns the nanoseconds of a time.
pub fn timespec_to_ns(value: TimeSpec) -> (ns: Option<u128>)
    ensures
        match ns {
            Some(n) => ns_of(value) == Some(n as int),
            None => ns_of(value) is None,
        },
{
    if value.tv_nsec >= NSEC_PER_SEC {
        return None;
    }
    assert(value.tv_sec as u128 * 1_000_000_000 <= 0xffff_ffff_ffff_ffff * 1_000_000_000);
    Some(value.tv_sec as u128 * 1_000_000_000 + value.tv_nsec as u128)
}

/// The time of nanoseconds; seconds that are too many to count are as many as can be.
pub open spec fn spec_of(ns: u128) -> TimeSpec {
    TimeSpec {
        tv_sec: if ns / 1_000_000_000 <= u64::MAX {
            (ns / 1_000_000_000) as u64
        } else {
            u64::MAX
        },
        tv_nsec: (ns % 1_000_000_000) as u64,
    }
}

/// Returns the time of nanoseconds.
pub fn ns_to_timespec(value: u128) -> (time: TimeSpec)
    ensures
        time == spec_of(value),
{
    let sec: u128 = value / 1_000_000_000;
    TimeSpec {
        tv_sec: if sec <= u64::MAX as u128 {
            sec as u64
        } else {
            u64::MAX
        },
        tv_nsec: (value % 1_000_000_000) as u64,
    }
}

/// A time that is turned into nanoseconds and back is the same.
pub proof fn law_time_comes_back(time: TimeSpec)
    requires
        time.tv_nsec < NSEC_PER_SEC,
    ensures
        ns_of(time) is Some,
        spec_of(ns_of(time)->Some_0 as u128) == time,
{
    let n = ns_of(time)->Some_0;
    assert(n / 1_000_000_000 == time.tv_sec && n % 1_000_000_000 == time.tv_nsec);
    assert(n <= u128::MAX);
}

/// A timer under its number.
#[derive(Clone, Copy, Debug, PartialEq, Eq, Structural)]
pub struct Numbered {
    pub id: i32,
    pub timer: PosixTimer,
}

/// All timers, the lowest number first, and the number to try next.
pub struct PosixTimers {
    timers: Vec<Numbered>,
    next_id: i32,
}

/// The numbers rise, and none is negative.
pub open spec fn in_order(s: Seq<Numbered>) -> bool {
    &&& forall|i: int, j: int| 0 <= i < j < s.len() ==> (#[trigger] s[i]).id < (#[trigger] s[j]).id
    &&& forall|i: int| 0 <= i < s.len() ==> (#[trigger] s[i]).id >= 0
}

/// A number is taken.
pub open spec fn taken(s: Seq<Numbered>, id: i32) -> bool {
    exists|i: int| 0 <= i < s.len() && (#[trigger] s[i]).id == id
}

/// The place of a number.
pub open spec fn timer_place(s: Seq<Numbered>, id: i32, i: int) -> Option<int>
    decreases s.len() - i,
{
    if i < 0 || i >= s.len() {
        None
    } else if s[i].id == id {
        Some(i)
    } else {
        timer_place(s, id, i + 1)
    }
}

/// The timer of a number that belongs to a process.
pub open spec fn own_place(s: Seq<Numbered>, id: i32, pid: u64) -> Option<int> {
    match timer_place(s, id, 0) {
        Some(i) => if s[i].timer.owner_pid == pid {
            Some(i)
        } else {
            None
        },
        None => None,
    }
}

/// The number after another; the largest is followed by the smallest.
pub open spec fn after(id: i32) -> i32 {
    if id == i32::MAX {
        i32::MIN
    } else {
        (id + 1) as i32
    }
}

/// The sum, but not above the largest number.
pub open spec fn capped(n: int) -> u128 {
    if n <= u128::MAX {
        n as u128
    } else {
        u128::MAX
    }
}

/// When a timer that was set runs out.
pub open spec fn expiry(value: int, absolute: bool, now: u128) -> Option<u128> {
    if value == 0 {
        None
    } else if absolute {
        Some(value as u128)
    } else {
        Some(capped(now + value))
    }
}

/// The timer has run out.
pub open spec fn run_out(timer: PosixTimer, clocks: Clocks) -> bool {
    timer.expires_ns matches Some(deadline) && deadline <= now_of(clocks, timer.clock_id)
}

/// The timer after it has run out: one with a period runs out next at the first of its times
/// that is to come.
pub open spec fn rearmed(timer: PosixTimer, now: u128) -> PosixTimer {
    let deadline = timer.expires_ns->Some_0;
    PosixTimer {
        expires_ns: if timer.interval_ns == 0 {
            None
        } else {
            Some(
                capped(
                    deadline + capped(((now - deadline) / timer.interval_ns as int + 1)
                        * timer.interval_ns),
                ),
            )
        },
        ..timer
    }
}

/// A timer after a check.
pub open spec fn checked(timer: PosixTimer, clocks: Clocks) -> PosixTimer {
    if run_out(timer, clocks) {
        rearmed(timer, now_of(clocks, timer.clock_id))
    } else {
        timer
    }
}

/// The timers that have run out, in the order of their numbers.
pub open spec fn expired_of(s: Seq<Numbered>, clocks: Clocks, n: int) -> Seq<PosixTimer>
    decreases n,
{
    if n <= 0 {
        Seq::empty()
    } else {
        let rest = expired_of(s, clocks, n - 1);
        if run_out(s[n - 1].timer, clocks) {
            rest.push(s[n - 1].timer)
        } else {
            rest
        }
    }
}

impl View for PosixTimers {
    type V = Seq<Numbered>;

    closed spec fn view(&self) -> Seq<Numbered> {
        self.timers@
    }
}

impl PosixTimers {
    /// The timers stand in the order of their numbers.
    pub open spec fn wf(&self) -> bool {
        in_order(self@)
    }

    /// The number to try next.
    pub closed spec fn next_id(&self) -> i32 {
        self.next_id
    }

    /// Starts without timers.
    pub fn new() -> (timers: Self)
        ensures
            timers.wf(),
            timers@.len() == 0,
            timers.next_id() == 0,
    {
        PosixTimers { timers: Vec::new(), next_id: 0 }
    }

    /// Finds the place of a number.
    fn find(&self, id: i32) -> (place: Option<usize>)
        ensures
            match place {
                None => timer_place(self@, id, 0) is None && !taken(self@, id),
                Some(i) => timer_place(self@, id, 0) == Some(i as int) && i < self@.len()
                    && self@[i as int].id == id,
            },
    {
        let mut i: usize = 0;
        while i < self.timers.len()
            invariant
                i <= self@.len(),
                timer_place(self@, id, 0) == timer_place(self@, id, i as int),
                forall|j: int| 0 <= j < i ==> (#[trigger] self@[j]).id != id,
            decreases self@.len() - i,
        {
            if self.timers[i].id == id {
                return Some(i);
            }
            i = i + 1;
        }
        None
    }

    /// Adds a timer under the next number that is free; none where every number is taken.
    pub fn add_posix_timer(&mut self, timer: PosixTimer) -> (id: Option<i32>)
        requires
            old(self).wf(),
        ensures
            timer_added(old(self), final(self), timer, id),
    {
        let start: i32 = self.next_id;
        let mut candidate: i32 = start;
        let mut tried: u64 = 0;
        while tried < 0x1_0000_0000
            invariant
                self@ == old(self)@,
                old(self).wf(),
                start == old(self).next_id(),
                tried <= 0x1_0000_0000,
                candidate as int == wrapped(start + tried),
                forall|k: int|
                    0 <= k < tried ==> #[trigger] wrapped(start + k) < 0 || taken(
                        self@,
                        wrapped(start + k) as i32,
                    ),
            decreases 0x1_0000_0000 - tried,
        {
            let used: bool = self.find(candidate).is_some();
            if candidate >= 0 && !used {
                assert(steps_to(start, candidate) == tried);
                self.next_id = if candidate == i32::MAX {
                    i32::MIN
                } else {
                    candidate + 1
                };
                self.insert(Numbered { id: candidate, timer });
                return Some(candidate);
            }
            proof {
                assert(used ==> taken(self@, candidate));
            }
            candidate = if candidate == i32::MAX {
                i32::MIN
            } else {
                candidate + 1
            };
            tried = tried + 1;
        }
        self.next_id = candidate;
        proof {
            assert forall|n: i32| n >= 0 implies #[trigger] taken(old(self)@, n) by {
                let k = if n >= start {
                    n - start
                } else {
                    n - start + 0x1_0000_0000
                };
                assert(wrapped(start + k) == n);
            }
        }
        None
    }

    /// Puts a timer where its number belongs.
    fn insert(&mut self, entry: Numbered)
        requires
            old(self).wf(),
            entry.id >= 0,
            !taken(old(self)@, entry.id),
        ensures
            final(self).wf(),
            final(self).next_id() == old(self).next_id(),
            exists|k: int|
                0 <= k <= old(self)@.len() && final(self)@ == #[trigger] old(self)@.insert(k, entry),
    {
        let ghost s = self@;
        let mut i: usize = 0;
        while i < self.timers.len() && self.timers[i].id < entry.id
            invariant
                i <= self@.len(),
                self@ == s,
                self.next_id == old(self).next_id,
                forall|j: int| 0 <= j < i ==> (#[trigger] s[j]).id < entry.id,
            decreases s.len() - i,
        {
            i = i + 1;
        }
        self.timers.insert(i, entry);
        proof {
            let n = s.insert(i as int, entry);
            assert forall|a: int, b: int| 0 <= a < b < n.len() implies (#[trigger] n[a]).id < (
            #[trigger] n[b]).id by {
                let x = if a < i {
                    a
                } else {
                    a - 1
                };
                let y = if b < i {
                    b
                } else {
                    b - 1
                };
                if a == i {
                    assert(n[b] == s[y]);
                    if y > i {
                        assert(s[i as int].id < s[y].id);
                    }
                    assert(s[i as int].id != entry.id);
                } else if b == i {
                    assert(n[a] == s[x]);
                } else {
                    assert(n[a] == s[x] && n[b] == s[y]);
                }
            }
            assert forall|a: int| 0 <= a < n.len() implies (#[trigger] n[a]).id >= 0 by {
                if a < i {
                    assert(n[a] == s[a]);
                } else if a > i {
                    assert(n[a] == s[a - 1]);
                }
            }
        }
    }

    /// Takes the timer at a place out.
    fn remove_at(&mut self, i: usize)
        requires
            old(self).wf(),
            i < old(self)@.len(),
        ensures
            final(self).wf(),
            final(self).next_id() == old(self).next_id(),
            final(self)@ == old(self)@.remove(i as int),
    {
        let ghost s = self@;
        self.timers.remove(i);
        proof {
            let n = s.remove(i as int);
            assert forall|a: int| 0 <= a < n.len() implies #[trigger] n[a] == s[if a < i {
                a
            } else {
                a + 1
            }] by {}
        }
    }

    /// Forgets a timer.
    pub fn remove_posix_timer(&mut self, id: i32)
        requires
            old(self).wf(),
        ensures
            final(self).wf(),
            final(self)@ == match timer_place(old(self)@, id, 0) {
                Some(i) => old(self)@.remove(i),
                None => old(self)@,
            },
            final(self).next_id() == old(self).next_id(),
    {
        if let Some(i) = self.find(id) {
            self.remove_at(i);
        }
    }

    /// Forgets a timer of a process; tells whether there was one.
    pub fn delete_posix_timer(&mut self, id: i32, owner_pid: u64) -> (done: bool)
        requires
            old(self).wf(),
        ensures
            timer_deleted(old(self), final(self), id, owner_pid, done),
    {
        match self.find(id) {
            None => false,
            Some(i) => {
                if self.timers[i].timer.owner_pid != owner_pid {
                    return false;
                }
                self.remove_at(i);
                true
            },
        }
    }

    /// Returns how long a timer of a process runs still, and its period.
    pub fn get_posix_timer_spec(&self, id: i32, owner_pid: u64, clocks: Clocks) -> (spec: Option<
        ITimerSpec,
    >)
        ensures
            spec == time_told(self@, id, owner_pid, clocks),
    {
        let i: usize = match self.find(id) {
            None => {
                return None;
            },
            Some(i) => i,
        };
        let timer = self.timers[i].timer;
        if timer.owner_pid != owner_pid {
            return None;
        }
        let left: u128 = match timer.expires_ns {
            None => 0,
            Some(expires) => {
                let now: u128 = clocks.clock_now_ns(timer.clock_id);
                if expires >= now {
                    expires - now
                } else {
                    0
                }
            },
        };
        Some(
            ITimerSpec {
                it_interval: ns_to_timespec(timer.interval_ns),
                it_value: ns_to_timespec(left),
            },
        )
    }

    /// Sets a timer of a process, to a time or to so long from now.
    pub fn set_posix_timer(
        &mut self,
        id: i32,
        owner_pid: u64,
        new_value: ITimerSpec,
        absolute: bool,
        clocks: Clocks,
    ) -> (done: Option<()>)
        requires
            old(self).wf(),
        ensures
            timer_set(old(self), final(self), id, owner_pid, new_value, absolute, clocks, done),
    {
        let interval: u128 = match timespec_to_ns(new_value.it_interval) {
            None => {
                return None;
            },
            Some(ns) => ns,
        };
        let value: u128 = match timespec_to_ns(new_value.it_value) {
            None => {
                return None;
            },
            Some(ns) => ns,
        };
        let i: usize = match self.find(id) {
            None => {
                return None;
            },
            Some(i) => i,
        };
        let mut timer = self.timers[i].timer;
        if timer.owner_pid != owner_pid {
            return None;
        }
        let now: u128 = clocks.clock_now_ns(timer.clock_id);
        timer.interval_ns = interval;
        timer.expires_ns = if value == 0 {
            None
        } else if absolute {
            Some(value)
        } else {
            Some(now.saturating_add(value))
        };
        let ghost s = self@;
        self.timers[i] = Numbered { id, timer };
        proof {
            let n = s.update(i as int, Numbered { id, timer });
            assert forall|a: int| 0 <= a < n.len() implies (#[trigger] n[a]).id == s[a].id by {}
        }
        Some(())
    }

    /// Forgets the timers of a process that has ended.
    pub fn remove_process_posix_timers(&mut self, pid: u64)
        requires
            old(self).wf(),
        ensures
            final(self).wf(),
            final(self).next_id() == old(self).next_id(),
            forall|e: Numbered|
                #[trigger] final(self)@.contains(e) <==> old(self)@.contains(e) && e.timer.owner_pid
                    != pid,
    {
        let mut kept: Vec<Numbered> = Vec::new();
        let mut i: usize = 0;
        while i < self.timers.len()
            invariant
                i <= self@.len(),
                *self == *old(self),
                old(self).wf(),
                in_order(kept@),
                forall|a: int|
                    0 <= a < kept@.len() ==> exists|j: int|
                        0 <= j < i && #[trigger] self@[j] == #[trigger] kept@[a],
                forall|e: Numbered|
                    #[trigger] kept@.contains(e) <==> e.timer.owner_pid != pid && exists|j: int|
                        0 <= j < i && #[trigger] self@[j] == e,
            decreases self@.len() - i,
        {
            let entry = self.timers[i];
            let ghost k0 = kept@;
            if entry.timer.owner_pid != pid {
                kept.push(entry);
                proof {
                    assert(self@[i as int] == entry);
                    assert forall|a: int| 0 <= a < kept@.len() implies exists|j: int|
                        0 <= j < i + 1 && #[trigger] self@[j] == #[trigger] kept@[a] by {
                        if a < k0.len() {
                            assert(kept@[a] == k0[a]);
                        } else {
                            assert(self@[i as int] == kept@[a]);
                        }
                    }
                    assert forall|a: int, b: int| 0 <= a < b < kept@.len() implies (
                    #[trigger] kept@[a]).id < (#[trigger] kept@[b]).id by {
                        assert(kept@[a] == k0[a]);
                        if b < k0.len() {
                            assert(kept@[b] == k0[b]);
                        } else {
                            let j = choose|j: int| 0 <= j < i && #[trigger] self@[j] == k0[a];
                            assert(self@[j].id < self@[i as int].id);
                        }
                    }
                    assert forall|a: int| 0 <= a < kept@.len() implies (#[trigger] kept@[a]).id
                        >= 0 by {
                        if a < k0.len() {
                            assert(kept@[a] == k0[a]);
                        }
                    }
                    assert forall|e: Numbered|
                        #[trigger] kept@.contains(e) <==> e.timer.owner_pid != pid && exists|j: int|
                            0 <= j < i + 1 && #[trigger] self@[j] == e by {
                        if kept@.contains(e) {
                            let k = choose|k: int| 0 <= k < kept@.len() && kept@[k] == e;
                            if k < k0.len() {
                                assert(k0[k] == e);
                                assert(k0.contains(e));
                            } else {
                                assert(self@[i as int] == e);
                            }
                        }
                        if e.timer.owner_pid != pid && exists|j: int|
                            0 <= j < i + 1 && #[trigger] self@[j] == e {
                            let j = choose|j: int| 0 <= j < i + 1 && #[trigger] self@[j] == e;
                            if j < i {
                                assert(k0.contains(e));
                                let k = choose|k: int| 0 <= k < k0.len() && k0[k] == e;
                                assert(kept@[k] == e);
                            } else {
                                assert(kept@[k0.len() as int] == e);
                            }
                        }
                    }
                }
            }
            i = i + 1;
        }
        self.timers = kept;
        proof {
            assert forall|e: Numbered|
                #[trigger] self@.contains(e) <==> old(self)@.contains(e) && e.timer.owner_pid
                    != pid by {
                if old(self)@.contains(e) {
                    let j = choose|j: int| 0 <= j < old(self)@.len() && old(self)@[j] == e;
                    assert(old(self)@[j] == e);
                }
            }
        }
    }

    /// Finds the timers that have run out, and starts those with a period again.
    pub fn check_posix_timers(&mut self, clocks: Clocks) -> (expired: Vec<PosixTimer>)
        requires
            old(self).wf(),
        ensures
            timers_checked(old(self), final(self), clocks, expired@),
    {
        let mut expired: Vec<PosixTimer> = Vec::new();
        let mut i: usize = 0;
        while i < self.timers.len()
            invariant
                i <= self@.len(),
                self@.len() == old(self)@.len(),
                self.next_id == old(self).next_id,
                expired@ == expired_of(old(self)@, clocks, i as int),
                forall|j: int|
                    0 <= j < i ==> #[trigger] self@[j] == (Numbered {
                        id: old(self)@[j].id,
                        timer: checked(old(self)@[j].timer, clocks),
                    }),
                forall|j: int| i <= j < self@.len() ==> #[trigger] self@[j] == old(self)@[j],
            decreases self@.len() - i,
        {
            let entry = self.timers[i];
            let mut timer = entry.timer;
            if let Some(deadline) = timer.expires_ns {
                let now: u128 = clocks.clock_now_ns(timer.clock_id);
                if deadline <= now {
                    expired.push(timer);
                    timer.expires_ns = rearm(deadline, timer.interval_ns, now);
                    self.timers[i] = Numbered { id: entry.id, timer };
                }
            }
            i = i + 1;
        }
        proof {
            assert forall|a: int| 0 <= a < self@.len() implies (#[trigger] self@[a]).id == old(self)@[a].id by {}
            assert forall|a: int, b: int| 0 <= a < b < self@.len() implies (#[trigger] self@[a]).id
                < (#[trigger] self@[b]).id by {
                assert(old(self)@[a].id < old(self)@[b].id);
            }
        }
        expired
    }
}

/// How many numbers come before one, counted from another.
pub open spec fn steps_to(start: i32, n: i32) -> int {
    if n >= start {
        n - start
    } else {
        n - start + 0x1_0000_0000
    }
}

/// A number in the range of the timers: too large a number starts again at the smallest.
pub open spec fn wrapped(n: int) -> int {
    if n > i32::MAX {
        n - 0x1_0000_0000
    } else {
        n
    }
}

/// Returns when a timer that has run out runs out next.
fn rearm(deadline: u128, interval: u128, now: u128) -> (expires: Option<u128>)
    requires
        deadline <= now,
    ensures
        expires == if interval == 0 {
            None
        } else {
            Some(capped(deadline + capped(((now - deadline) / interval as int + 1) * interval)))
        },
{
    if interval == 0 {
        return None;
    }
    let elapsed: u128 = (now - deadline) / interval;
    proof {
        let d = now - deadline;
        assert(0 <= d / interval as int <= d) by (nonlinear_arith)
            requires
                d >= 0,
                interval > 0,
        ;
    }
    let periods: Option<u128> = elapsed.checked_add(1);
    let step: u128 = match periods {
        None => {
            assert((elapsed + 1) * interval > u128::MAX) by (nonlinear_arith)
                requires
                    elapsed + 1 > u128::MAX,
                    interval >= 1,
            ;
            u128::MAX
        },
        Some(n) => match n.checked_mul(interval) {
            None => u128::MAX,
            Some(product) => product,
        },
    };
    Some(deadline.saturating_add(step))
}

/// How the timers are after one was to be set.
pub open spec fn timer_set(
    before: &PosixTimers,
    later: &PosixTimers,
    id: i32,
    owner_pid: u64,
    new_value: ITimerSpec,
    absolute: bool,
    clocks: Clocks,
    done: Option<()>,
) -> bool {
    &&& later.wf()
    &&& later.next_id() == before.next_id()
    &&& done is Some <==> own_place(before@, id, owner_pid) is Some && ns_of(
        new_value.it_interval,
    ) is Some && ns_of(new_value.it_value) is Some
    &&& done is None ==> later@ == before@
    &&& done is Some ==> {
        let i = own_place(before@, id, owner_pid)->Some_0;
        let timer = before@[i].timer;
        later@ == before@.update(
            i,
            Numbered {
                id,
                timer: PosixTimer {
                    interval_ns: ns_of(new_value.it_interval)->Some_0 as u128,
                    expires_ns: expiry(
                        ns_of(new_value.it_value)->Some_0,
                        absolute,
                        now_of(clocks, timer.clock_id),
                    ),
                    ..timer
                },
            },
        )
    }
}

/// How the timers are after the clocks were read, and which have run out.
pub open spec fn timers_checked(
    before: &PosixTimers,
    later: &PosixTimers,
    clocks: Clocks,
    expired: Seq<PosixTimer>,
) -> bool {
    &&& later.wf()
    &&& later.next_id() == before.next_id()
    &&& expired == expired_of(before@, clocks, before@.len() as int)
    &&& later@.len() == before@.len()
    &&& forall|i: int|
        0 <= i < before@.len() ==> #[trigger] later@[i] == (Numbered {
            id: before@[i].id,
            timer: checked(before@[i].timer, clocks),
        })
}

/// How the timers are after one was to be made.
pub open spec fn timer_added(
    before: &PosixTimers,
    later: &PosixTimers,
    timer: PosixTimer,
    id: Option<i32>,
) -> bool {
    &&& later.wf()
    &&& match id {
        Some(n) => {
            &&& n >= 0
            &&& !taken(before@, n)
            &&& later.next_id() == after(n)
            &&& forall|k: int|
                0 <= k < steps_to(before.next_id(), n) ==> #[trigger] wrapped(
                    before.next_id() + k,
                ) < 0 || taken(before@, wrapped(before.next_id() + k) as i32)
            &&& exists|k: int|
                0 <= k <= before@.len() && later@ == #[trigger] before@.insert(
                    k,
                    Numbered { id: n, timer },
                )
        },
        None => {
            &&& forall|n: i32| n >= 0 ==> #[trigger] taken(before@, n)
            &&& later@ == before@
        },
    }
}

/// How the timers are after one was to be deleted.
pub open spec fn timer_deleted(
    before: &PosixTimers,
    later: &PosixTimers,
    id: i32,
    owner_pid: u64,
    done: bool,
) -> bool {
    &&& later.wf()
    &&& done == (own_place(before@, id, owner_pid) is Some)
    &&& later@ == match own_place(before@, id, owner_pid) {
        Some(i) => before@.remove(i),
        None => before@,
    }
}

/// What a process is told of its timer: the period, and what is left until it runs out.
pub open spec fn time_told(s: Seq<Numbered>, id: i32, owner_pid: u64, clocks: Clocks) -> Option<
    ITimerSpec,
> {
    match own_place(s, id, owner_pid) {
        None => None,
        Some(i) => {
            let timer = s[i].timer;
            let left: u128 = match timer.expires_ns {
                None => 0,
                Some(expires) => if expires >= now_of(clocks, timer.clock_id) {
                    (expires - now_of(clocks, timer.clock_id)) as u128
                } else {
                    0
                },
            };
            Some(
                ITimerSpec {
                    it_interval: spec_of(timer.interval_ns),
                    it_value: spec_of(left),
                },
            )
        },
    }
}

/// Whom a timer that has run out is told to, with which signal.
pub open spec fn whom_to_tell(timer: PosixTimer) -> Notify {
    if timer.notify == SIGEV_NONE {
        Notify::Nobody
    } else if timer.notify == SIGEV_THREAD_ID {
        Notify::Thread(timer.target_tid, 1u64 << ((timer.signo - 1) as u64))
    } else {
        Notify::Process(timer.owner_pid, 1u64 << ((timer.signo - 1) as u64))
    }
}

/// A timer with a period runs out next after now, and at one of its times.
pub proof fn law_rearmed_is_later(timer: PosixTimer, now: u128)
    requires
        timer.expires_ns matches Some(deadline) && deadline <= now,
        timer.interval_ns > 0,
        now + timer.interval_ns <= u128::MAX,
    ensures
        rearmed(timer, now).expires_ns matches Some(next) && next > now && next <= now
            + timer.interval_ns && (next - timer.expires_ns->Some_0) % (timer.interval_ns as int)
            == 0,
{
    let d = timer.expires_ns->Some_0;
    let p = timer.interval_ns as int;
    let q = (now - d) / p;
    assert(q * p <= now - d < (q + 1) * p) by (nonlinear_arith)
        requires
            q == (now - d) / p,
            p > 0,
    ;
    assert((q + 1) * p <= now - d + p) by (nonlinear_arith)
        requires
            q * p <= now - d,
    ;
    assert(((q + 1) * p) % p == 0) by (nonlinear_arith)
        requires
            p > 0,
    ;
}

/// Which threads a timer that ran out tells.
#[derive(Clone, Copy, Debug, PartialEq, Eq, Structural)]
pub enum Notify {
    /// None.
    Nobody,
    /// One thread, with the bit of the signal.
    Thread(u64, u64),
    /// All threads of a process, with the bit of the signal.
    Process(u64, u64),
}

/// Tells whom a timer that ran out tells.
pub fn notify_target(timer: PosixTimer) -> (target: Notify)
    requires
        timer.notify != SIGEV_NONE ==> 1 <= timer.signo <= 64,
    ensures
        target == whom_to_tell(timer),
{
    if timer.notify == SIGEV_NONE {
        return Notify::Nobody;
    }
    let bit: u64 = 1u64 << ((timer.signo - 1) as u64);
    if timer.notify == SIGEV_THREAD_ID {
        Notify::Thread(timer.target_tid, bit)
    } else {
        Notify::Process(timer.owner_pid, bit)
    }
}

} // verus!
