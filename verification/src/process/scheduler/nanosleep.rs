//! Tasks that sleep until a time.

use vstd::prelude::*;

use super::runqueue::SchedTask;
use crate::process::task::status::TaskStatus;

verus! {

/// A task that sleeps, and when it asked to.
#[derive(Clone, Copy, Debug, PartialEq, Eq, Structural)]
pub struct SleepEntry {
    pub deadline_ns: u64,
    pub order: u64,
    pub tid: u64,
}

/// The tasks that sleep. A task sleeps for one time at most.
pub struct SleepQueue {
    pub entries: Vec<SleepEntry>,
    pub enqueue_order: u64,
}

/// Entry `a` is due no later than `b`; of two for one time, the first to ask goes first.
pub open spec fn due_before(a: SleepEntry, b: SleepEntry) -> bool {
    a.deadline_ns < b.deadline_ns || (a.deadline_ns == b.deadline_ns && a.order <= b.order)
}

/// The entries of other tasks.
pub open spec fn of_others(s: Seq<SleepEntry>, tid: u64) -> Seq<SleepEntry> {
    s.filter(|entry: SleepEntry| entry.tid != tid)
}

/// A task sleeps.
pub open spec fn sleeps(s: Seq<SleepEntry>, tid: u64) -> bool {
    exists|i: int| 0 <= i < s.len() && (#[trigger] s[i]).tid == tid
}

/// No task is to be woken yet.
pub open spec fn none_due(s: Seq<SleepEntry>, now_ns: u64) -> bool {
    forall|i: int| 0 <= i < s.len() ==> (#[trigger] s[i]).deadline_ns > now_ns
}

/// The task that is due first was taken out, and its time has come.
pub open spec fn first_due(
    before: Seq<SleepEntry>,
    after: Seq<SleepEntry>,
    tid: u64,
    now_ns: u64,
) -> bool {
    exists|k: int|
        {
            &&& 0 <= k < before.len()
            &&& (#[trigger] before[k]).tid == tid
            &&& before[k].deadline_ns <= now_ns
            &&& forall|i: int| 0 <= i < before.len() ==> due_before(before[k], #[trigger] before[i])
            &&& after == before.remove(k)
        }
}

/// Returns the microseconds of a clock as nanoseconds.
pub fn monotonic_now_ns(now_us: u64) -> (ns: u64)
    ensures
        ns == if now_us * 1000 <= u64::MAX {
            now_us * 1000
        } else {
            u64::MAX as int
        },
{
    match now_us.checked_mul(1000) {
        Some(ns) => ns,
        None => u64::MAX,
    }
}

impl SleepQueue {
    /// No task is there twice.
    pub open spec fn wf(&self) -> bool {
        forall|i: int, j: int|
            0 <= i < j < self.entries@.len() ==> (#[trigger] self.entries@[i]).tid != (
            #[trigger] self.entries@[j]).tid
    }

    /// Makes a queue without tasks.
    pub fn new() -> (queue: Self)
        ensures
            queue.wf(),
            queue.entries@.len() == 0,
            queue.enqueue_order == 0,
    {
        SleepQueue { entries: Vec::new(), enqueue_order: 0 }
    }

    /// Lets a task sleep until a time; a time it asked for before does not count any more.
    pub fn push(&mut self, deadline_ns: u64, tid: u64)
        requires
            old(self).wf(),
        ensures
            final(self).wf(),
            final(self).entries@ == of_others(old(self).entries@, tid).push(
                SleepEntry { deadline_ns, order: old(self).enqueue_order, tid },
            ),
            final(self).enqueue_order == (old(self).enqueue_order + 1) % 0x1_0000_0000_0000_0000,
    {
        let ghost s = self.entries@;
        let ghost other = |entry: SleepEntry| entry.tid != tid;
        let mut kept: Vec<SleepEntry> = Vec::new();
        let mut i: usize = 0;
        assert(s.take(0) =~= Seq::<SleepEntry>::empty());
        assert(s.take(0).filter(other) =~= Seq::<SleepEntry>::empty()) by {
            reveal(Seq::filter);
        }
        while i < self.entries.len()
            invariant
                i <= s.len(),
                self.entries@ == s,
                self.enqueue_order == old(self).enqueue_order,
                other == (|entry: SleepEntry| entry.tid != tid),
                kept@ == s.take(i as int).filter(other),
                old(self).wf(),
                s == old(self).entries@,
                forall|a: int|
                    0 <= a < kept@.len() ==> (#[trigger] kept@[a]).tid != tid && exists|b: int|
                        0 <= b < i && #[trigger] s[b] == kept@[a],
                forall|a: int, b: int|
                    0 <= a < b < kept@.len() ==> (#[trigger] kept@[a]).tid != (
                    #[trigger] kept@[b]).tid,
            decreases s.len() - i,
        {
            let entry = self.entries[i];
            let ghost k0 = kept@;
            proof {
                reveal(Seq::filter);
                assert(s.take(i + 1).drop_last() =~= s.take(i as int));
                assert(s.take(i + 1).last() == entry);
            }
            if entry.tid != tid {
                kept.push(entry);
                proof {
                    assert forall|a: int| 0 <= a < kept@.len() implies (#[trigger] kept@[a]).tid
                        != tid && exists|b: int| 0 <= b < i + 1 && #[trigger] s[b] == kept@[a] by {
                        if a < k0.len() {
                            assert(kept@[a] == k0[a]);
                        } else {
                            assert(s[i as int] == kept@[a]);
                        }
                    }
                    assert forall|a: int, b: int| 0 <= a < b < kept@.len() implies (
                    #[trigger] kept@[a]).tid != (#[trigger] kept@[b]).tid by {
                        assert(kept@[a] == k0[a]);
                        if b < k0.len() {
                            assert(kept@[b] == k0[b]);
                        } else {
                            let c = choose|c: int| 0 <= c < i && #[trigger] s[c] == k0[a];
                            assert(s[c].tid != s[i as int].tid);
                        }
                    }
                }
            }
            i = i + 1;
        }
        assert(s.take(s.len() as int) =~= s);
        kept.push(SleepEntry { deadline_ns, order: self.enqueue_order, tid });
        self.entries = kept;
        self.enqueue_order = self.enqueue_order.wrapping_add(1);
    }

    /// Takes the task out that is due first, where its time has come.
    pub fn pop_expired(&mut self, now_ns: u64) -> (tid: Option<u64>)
        requires
            old(self).wf(),
        ensures
            final(self).wf(),
            final(self).enqueue_order == old(self).enqueue_order,
            match tid {
                None => none_due(old(self).entries@, now_ns) && final(self).entries@ == old(self).entries@,
                Some(t) => first_due(old(self).entries@, final(self).entries@, t, now_ns),
            },
    {
        if self.entries.len() == 0 {
            return None;
        }
        let mut best: usize = 0;
        let mut i: usize = 1;
        while i < self.entries.len()
            invariant
                self.entries@ == old(self).entries@,
                0 < i <= self.entries@.len(),
                best < i,
                forall|j: int|
                    0 <= j < i ==> due_before(
                        self.entries@[best as int],
                        #[trigger] self.entries@[j],
                    ),
            decreases self.entries@.len() - i,
        {
            let a = self.entries[i];
            let b = self.entries[best];
            if a.deadline_ns < b.deadline_ns || (a.deadline_ns == b.deadline_ns && a.order
                < b.order) {
                best = i;
            }
            i = i + 1;
        }
        if self.entries[best].deadline_ns > now_ns {
            return None;
        }
        let entry = self.entries.remove(best);
        proof {
            let s = old(self).entries@;
            assert(first_due(s, self.entries@, entry.tid, now_ns)) by {
                assert(s[best as int].tid == entry.tid);
            }
            let n = s.remove(best as int);
            assert(s[best as int] == entry);
            assert forall|a: int, b: int| 0 <= a < b < n.len() implies (#[trigger] n[a]).tid != (
            #[trigger] n[b]).tid by {
                let x = if a < best {
                    a
                } else {
                    a + 1
                };
                let y = if b < best {
                    b
                } else {
                    b + 1
                };
                assert(n[a] == s[x] && n[b] == s[y]);
            }
        }
        Some(entry.tid)
    }

    /// Puts the task that runs to sleep until a time.
    pub fn sleep_current_until(&mut self, task: &mut SchedTask, deadline_ns: u64)
        requires
            old(self).wf(),
        ensures
            final(self).wf(),
            *final(task) == (SchedTask { state: TaskStatus::BlockSaving, ..*old(task) }),
            final(self).entries@ == of_others(old(self).entries@, old(task).tid).push(
                SleepEntry { deadline_ns, order: old(self).enqueue_order, tid: old(task).tid },
            ),
            final(self).enqueue_order == (old(self).enqueue_order + 1) % 0x1_0000_0000_0000_0000,
    {
        task.state = TaskStatus::BlockSaving;
        self.push(deadline_ns, task.tid);
    }
}

/// Nobody is woken before the time: a task whose time has not come still sleeps after another
/// was woken.
pub proof fn law_sleeps_until_due(
    before: Seq<SleepEntry>,
    after: Seq<SleepEntry>,
    tid: u64,
    now_ns: u64,
    i: int,
)
    requires
        0 <= i < before.len(),
        before[i].deadline_ns > now_ns,
        first_due(before, after, tid, now_ns),
    ensures
        sleeps(after, before[i].tid),
{
    let k = choose|k: int|
        {
            &&& 0 <= k < before.len()
            &&& (#[trigger] before[k]).tid == tid
            &&& before[k].deadline_ns <= now_ns
            &&& forall|j: int| 0 <= j < before.len() ==> due_before(before[k], #[trigger] before[j])
            &&& after == before.remove(k)
        };
    let j = if i < k {
        i
    } else {
        i - 1
    };
    assert(after[j] == before[i]);
}

} // verus!
