//! Timers: when they run out, and when they run out again.

use vstd::prelude::*;

use crate::process::timer::{
    expired_of, now_of, ns_of, spec_of, time_told, timer_added, timer_deleted, timer_place,
    timer_set, timers_checked, whom_to_tell, Clocks, ITimerSpec, Notify, Numbered, PosixTimer,
    PosixTimers, TimeSpec,
};

verus! {

/// A second has 1,000,000,000 nanoseconds, and a time with as many or more of them is no time.
pub proof fn law_nanoseconds(time: TimeSpec, ns: u128)
    ensures
        ns_of(time) is Some <==> time.tv_nsec < 1_000_000_000,
        time.tv_nsec < 1_000_000_000 ==> ns_of(time)->Some_0 == time.tv_sec * 1_000_000_000
            + time.tv_nsec,
        spec_of(ns).tv_nsec < 1_000_000_000,
        ns < 0xffff_ffff * 1_000_000_000 ==> spec_of(ns).tv_sec * 1_000_000_000
            + spec_of(ns).tv_nsec == ns,
{
}

/// Clock 0 is the time of day; all others count from the start.
pub proof fn law_which_clock(clocks: Clocks, clock_id: i32)
    ensures
        now_of(clocks, 0) == clocks.realtime,
        clock_id != 0 ==> now_of(clocks, clock_id) == clocks.monotonic,
{
}

/// The place of a timer is that of its number.
proof fn lemma_timer_place(s: Seq<Numbered>, id: i32, i: int, k: int)
    requires
        0 <= i <= k < s.len(),
        s[k].id == id,
        forall|a: int, b: int| 0 <= a < b < s.len() ==> (#[trigger] s[a]).id < (#[trigger] s[b]).id,
    ensures
        timer_place(s, id, i) == Some(k),
    decreases k - i,
{
    if i < k {
        assert(s[i].id < s[k].id);
        lemma_timer_place(s, id, i + 1, k);
    }
}

/// A number that no timer has has no place.
proof fn lemma_no_timer(s: Seq<Numbered>, id: i32, i: int)
    requires
        0 <= i,
    ensures
        timer_place(s, id, i) matches Some(k) ==> i <= k < s.len() && s[k].id == id,
    decreases s.len() - i,
{
    if i < s.len() {
        lemma_no_timer(s, id, i + 1);
    }
}

/// A process sets its own timers and no others. A timer set to zero is stopped; otherwise it runs
/// out at the time that is given, or that much later than now.
pub proof fn law_timer_is_set(
    before: &PosixTimers,
    later: &PosixTimers,
    id: i32,
    owner_pid: u64,
    new_value: ITimerSpec,
    absolute: bool,
    clocks: Clocks,
    done: Option<()>,
    k: int,
)
    requires
        before.wf(),
        timer_set(before, later, id, owner_pid, new_value, absolute, clocks, done),
        0 <= k < before@.len(),
    ensures
        later@.len() == before@.len(),
        later@[k].id == before@[k].id,
        before@[k].id != id || before@[k].timer.owner_pid != owner_pid || new_value.it_value.tv_nsec
            >= 1_000_000_000 || new_value.it_interval.tv_nsec >= 1_000_000_000 ==> later@[k]
            == before@[k],
        before@[k].id == id && before@[k].timer.owner_pid == owner_pid
            && new_value.it_value.tv_nsec < 1_000_000_000 && new_value.it_interval.tv_nsec
            < 1_000_000_000 ==> {
            let was = before@[k].timer;
            let timer = later@[k].timer;
            let value = new_value.it_value.tv_sec * 1_000_000_000 + new_value.it_value.tv_nsec;
            let now: u128 = if was.clock_id == 0 {
                clocks.realtime
            } else {
                clocks.monotonic
            };
            &&& done is Some
            &&& timer.interval_ns == new_value.it_interval.tv_sec * 1_000_000_000
                + new_value.it_interval.tv_nsec
            &&& value == 0 ==> timer.expires_ns is None
            &&& value != 0 && absolute ==> timer.expires_ns == Some(value as u128)
            &&& value != 0 && !absolute && now + value <= u128::MAX ==> timer.expires_ns == Some(
                (now + value) as u128,
            )
            &&& timer.owner_pid == was.owner_pid
            &&& timer.clock_id == was.clock_id
            &&& timer.signo == was.signo
            &&& timer.notify == was.notify
            &&& timer.target_tid == was.target_tid
            &&& timer.value == was.value
        },
{
    if before@[k].id == id {
        lemma_timer_place(before@, id, 0, k);
    } else {
        lemma_no_timer(before@, id, 0);
    }
}

/// The timers that have run out are told of, each once and no others, in the order of their
/// numbers.
pub proof fn law_who_has_run_out(s: Seq<Numbered>, clocks: Clocks, n: int, k: int)
    requires
        0 <= k < n <= s.len(),
        s[k].timer.expires_ns matches Some(deadline) && deadline <= now_of(
            clocks,
            s[k].timer.clock_id,
        ),
    ensures
        expired_of(s, clocks, n).contains(s[k].timer),
    decreases n,
{
    let rest = expired_of(s, clocks, n - 1);
    let all = expired_of(s, clocks, n);
    if k == n - 1 {
        assert(all[rest.len() as int] == s[k].timer);
    } else {
        law_who_has_run_out(s, clocks, n - 1, k);
        let i = choose|i: int| 0 <= i < rest.len() && rest[i] == s[k].timer;
        assert(all[i] == s[k].timer);
    }
}

/// Nothing is told of a timer that is stopped or still runs.
pub proof fn law_told_of_has_run_out(s: Seq<Numbered>, clocks: Clocks, n: int, i: int)
    requires
        0 <= n <= s.len(),
        0 <= i < expired_of(s, clocks, n).len(),
    ensures
        expired_of(s, clocks, n).len() <= n,
        expired_of(s, clocks, n)[i].expires_ns is Some,
        expired_of(s, clocks, n)[i].expires_ns->Some_0 <= now_of(
            clocks,
            expired_of(s, clocks, n)[i].clock_id,
        ),
    decreases n,
{
    if n > 0 {
        let rest = expired_of(s, clocks, n - 1);
        if i < rest.len() {
            law_told_of_has_run_out(s, clocks, n - 1, i);
        } else if rest.len() > 0 {
            law_told_of_has_run_out(s, clocks, n - 1, 0);
        }
    }
}

/// A timer that has run out is stopped where it has no period, and else runs out next a whole
/// number of periods later, the first time after now. A timer that has not run out stays.
pub proof fn law_next_time(
    before: &PosixTimers,
    later: &PosixTimers,
    clocks: Clocks,
    expired: Seq<PosixTimer>,
    k: int,
)
    requires
        timers_checked(before, later, clocks, expired),
        0 <= k < before@.len(),
    ensures
        ({
            let was = before@[k].timer;
            let timer = later@[k].timer;
            let now = now_of(clocks, was.clock_id);
            let over = was.expires_ns is Some && was.expires_ns->Some_0 <= now;
            &&& later@.len() == before@.len()
            &&& later@[k].id == before@[k].id
            &&& timer.interval_ns == was.interval_ns
            &&& timer.owner_pid == was.owner_pid
            &&& timer.clock_id == was.clock_id
            &&& !over ==> timer == was
            &&& over && was.interval_ns == 0 ==> timer.expires_ns is None
            &&& over && was.interval_ns > 0 && now + was.interval_ns <= u128::MAX ==> {
                let next = timer.expires_ns->Some_0;
                &&& timer.expires_ns is Some
                &&& now < next <= now + was.interval_ns
                &&& (next - was.expires_ns->Some_0) % (was.interval_ns as int) == 0
            }
            &&& over ==> expired.contains(was)
        }),
{
    let was = before@[k].timer;
    let now = now_of(clocks, was.clock_id);
    if was.expires_ns is Some && was.expires_ns->Some_0 <= now {
        law_who_has_run_out(before@, clocks, before@.len() as int, k);
        if was.interval_ns > 0 {
            let d = was.expires_ns->Some_0 as int;
            let p = was.interval_ns as int;
            let q = (now - d) / p;
            assert((now - d) == q * p + (now - d) % p) by (nonlinear_arith)
                requires
                    p > 0,
                    q == (now - d) / p,
            ;
            assert((q + 1) * p == q * p + p) by (nonlinear_arith);
            assert(((q + 1) * p) % p == 0) by (nonlinear_arith)
                requires
                    p > 0,
            ;
        }
    }
}

/// A new timer has a number that is not negative and that no other has; it is kept as it is, with
/// all the others.
pub proof fn law_timer_is_added(
    before: &PosixTimers,
    later: &PosixTimers,
    timer: PosixTimer,
    id: i32,
    k: int,
)
    requires
        timer_added(before, later, timer, Some(id)),
        0 <= k < before@.len(),
    ensures
        id >= 0,
        before@[k].id != id,
        later@.len() == before@.len() + 1,
        later@.contains(Numbered { id, timer }),
        later@.contains(before@[k]),
{
    let at = choose|at: int|
        0 <= at <= before@.len() && later@ == #[trigger] before@.insert(at, Numbered { id, timer });
    assert(later@[at] == Numbered { id, timer });
    if k < at {
        assert(later@[k] == before@[k]);
    } else {
        assert(later@[k + 1] == before@[k]);
    }
}

/// A process deletes its own timer of a number, and nothing else.
pub proof fn law_timer_is_deleted(
    before: &PosixTimers,
    later: &PosixTimers,
    id: i32,
    owner_pid: u64,
    done: bool,
    k: int,
)
    requires
        before.wf(),
        timer_deleted(before, later, id, owner_pid, done),
        0 <= k < before@.len(),
    ensures
        before@[k].id == id && before@[k].timer.owner_pid == owner_pid ==> done && later@.len()
            == before@.len() - 1,
        before@[k].id == id && before@[k].timer.owner_pid != owner_pid ==> !done && later@ == before@,
        before@[k].id != id ==> later@.contains(before@[k]),
{
    if before@[k].id == id {
        lemma_timer_place(before@, id, 0, k);
    } else {
        lemma_no_timer(before@, id, 0);
        let place = timer_place(before@, id, 0);
        if later@ == before@ {
            assert(later@[k] == before@[k]);
        } else if k < place->Some_0 {
            assert(later@[k] == before@[k]);
        } else {
            assert(later@[k - 1] == before@[k]);
        }
    }
}

/// A process is told of its own timer what is left of it, and its period; of a timer that is
/// stopped or has run out nothing is left, and of another's timer it is told nothing.
pub proof fn law_time_left(s: Seq<Numbered>, id: i32, owner_pid: u64, clocks: Clocks, k: int)
    requires
        0 <= k < s.len(),
        s[k].id == id,
        forall|a: int, b: int| 0 <= a < b < s.len() ==> (#[trigger] s[a]).id < (#[trigger] s[b]).id,
    ensures
        s[k].timer.owner_pid != owner_pid ==> time_told(s, id, owner_pid, clocks) is None,
        s[k].timer.owner_pid == owner_pid ==> {
            let told = time_told(s, id, owner_pid, clocks)->Some_0;
            let timer = s[k].timer;
            let now = now_of(clocks, timer.clock_id);
            &&& time_told(s, id, owner_pid, clocks) is Some
            &&& timer.expires_ns is None ==> told.it_value.tv_sec == 0 && told.it_value.tv_nsec == 0
            &&& timer.expires_ns matches Some(at) ==> at <= now ==> told.it_value.tv_sec == 0
                && told.it_value.tv_nsec == 0
            &&& timer.expires_ns matches Some(at) ==> now < at && at - now < 0xffff_ffff
                * 1_000_000_000 ==> told.it_value.tv_sec * 1_000_000_000 + told.it_value.tv_nsec
                == at - now
            &&& timer.interval_ns < 0xffff_ffff * 1_000_000_000 ==> told.it_interval.tv_sec
                * 1_000_000_000 + told.it_interval.tv_nsec == timer.interval_ns
        },
{
    lemma_timer_place(s, id, 0, k);
}

/// A timer that asks for it tells nobody, one of kind 4 tells its thread, and all others tell their
/// process, by the bit of their signal.
pub proof fn law_whom_a_timer_tells(timer: PosixTimer)
    requires
        1 <= timer.signo <= 64,
    ensures
        timer.notify == 1 ==> whom_to_tell(timer) == Notify::Nobody,
        timer.notify == 4 ==> whom_to_tell(timer) == Notify::Thread(
            timer.target_tid,
            1u64 << ((timer.signo - 1) as u64),
        ),
        timer.notify != 1 && timer.notify != 4 ==> whom_to_tell(timer) == Notify::Process(
            timer.owner_pid,
            1u64 << ((timer.signo - 1) as u64),
        ),
{
}

} // verus!
