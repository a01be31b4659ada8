//! Tasks that run by a fixed priority.

use vstd::prelude::*;

use super::cfs_rq::Queued;

verus! {

/// The highest priority.
pub const MAX_RT_PRIO: u64 = 99;

/// A task with its priority; a round-robin task goes behind its equals when its time is up.
#[derive(Clone, Copy, Debug, PartialEq, Eq, Structural)]
pub struct RtTask {
    pub task: Queued,
    pub priority: u64,
    pub round_robin: bool,
}

/// The tasks with fixed priorities, the highest first and equals as they came.
pub struct RtRq {
    pub tasks: Vec<RtTask>,
}

/// The tasks stand with the highest priority first.
pub open spec fn by_priority(s: Seq<RtTask>) -> bool {
    forall|i: int, j: int|
        0 <= i <= j < s.len() ==> (#[trigger] s[i]).priority >= (#[trigger] s[j]).priority
}

/// The number of tasks from the front whose priority is at least `priority`.
pub open spec fn at_least(s: Seq<RtTask>, priority: u64) -> nat
    decreases s.len(),
{
    if s.len() == 0 {
        0
    } else if s[0].priority >= priority {
        1 + at_least(s.skip(1), priority)
    } else {
        0
    }
}

/// The place of a task, from place `i` on.
pub open spec fn rt_place(s: Seq<RtTask>, tid: u64, i: int) -> Option<int>
    decreases s.len() - i,
{
    if i < 0 || i >= s.len() {
        None
    } else if s[i].task.tid == tid {
        Some(i)
    } else {
        rt_place(s, tid, i + 1)
    }
}

impl RtRq {
    /// The highest priority comes first.
    pub open spec fn wf(&self) -> bool {
        by_priority(self.tasks@)
    }

    /// Makes a queue without tasks.
    pub fn new() -> (rq: Self)
        ensures
            rq.wf(),
            rq.tasks@.len() == 0,
    {
        RtRq { tasks: Vec::new() }
    }

    /// Adds a task behind those with the same priority or a higher one.
    pub fn enqueue(&mut self, task: Queued, priority: u64, round_robin: bool)
        requires
            old(self).wf(),
        ensures
            final(self).wf(),
            final(self).tasks@ == old(self).tasks@.insert(
                at_least(old(self).tasks@, priority) as int,
                RtTask { task, priority, round_robin },
            ),
    {
        let ghost s = self.tasks@;
        let mut i: usize = 0;
        assert(s.skip(0) =~= s);
        while i < self.tasks.len() && self.tasks[i].priority >= priority
            invariant
                i <= s.len(),
                s == self.tasks@,
                at_least(s, priority) == i + at_least(s.skip(i as int), priority),
                forall|k: int| 0 <= k < i ==> (#[trigger] s[k]).priority >= priority,
            decreases s.len() - i,
        {
            assert(s.skip(i as int).skip(1) =~= s.skip(i + 1));
            i = i + 1;
        }
        let entry = RtTask { task, priority, round_robin };
        self.tasks.insert(i, entry);
        proof {
            let n = self.tasks@;
            assert forall|a: int, b: int| 0 <= a <= b < n.len() implies (#[trigger] n[a]).priority
                >= (#[trigger] n[b]).priority by {
                let a2 = if a <= i {
                    a
                } else {
                    a - 1
                };
                let b2 = if b <= i {
                    b
                } else {
                    b - 1
                };
                if a != i && b != i {
                    assert(s[a2].priority >= s[b2].priority);
                } else if a == i && b > i {
                    assert(s[i as int].priority >= s[b2].priority);
                }
            }
        }
    }

    /// Returns the task to run next, which stays.
    pub fn pick_next(&self) -> (task: Option<Queued>)
        ensures
            task == if self.tasks@.len() > 0 {
                Some(self.tasks@[0].task)
            } else {
                None
            },
    {
        if self.tasks.len() > 0 {
            Some(self.tasks[0].task)
        } else {
            None
        }
    }

    /// Takes the task to run next out.
    pub fn pop_next(&mut self) -> (task: Option<Queued>)
        requires
            old(self).wf(),
        ensures
            final(self).wf(),
            if old(self).tasks@.len() > 0 {
                task == Some(old(self).tasks@[0].task) && final(self).tasks@ == old(self).tasks@.remove(0)
            } else {
                task is None && *final(self) == *old(self)
            },
    {
        if self.tasks.len() == 0 {
            return None;
        }
        let entry = self.tasks.remove(0);
        Some(entry.task)
    }

    /// Takes a task out.
    pub fn remove_task(&mut self, tid: u64) -> (task: Option<Queued>)
        requires
            old(self).wf(),
        ensures
            final(self).wf(),
            match rt_place(old(self).tasks@, tid, 0) {
                None => task is None && *final(self) == *old(self),
                Some(i) => task == Some(old(self).tasks@[i].task) && task->Some_0.tid == tid
                    && final(self).tasks@ == old(self).tasks@.remove(i),
            },
    {
        let mut i: usize = 0;
        while i < self.tasks.len()
            invariant
                i <= self.tasks@.len(),
                *self == *old(self),
                rt_place(self.tasks@, tid, 0) == rt_place(self.tasks@, tid, i as int),
                by_priority(self.tasks@),
            decreases self.tasks@.len() - i,
        {
            if self.tasks[i].task.tid == tid {
                let entry = self.tasks.remove(i);
                return Some(entry.task);
            }
            i = i + 1;
        }
        None
    }
}

/// The task that runs next has the highest priority.
pub proof fn law_highest_first(s: Seq<RtTask>, i: int)
    requires
        by_priority(s),
        0 <= i < s.len(),
    ensures
        s[0].priority >= s[i].priority,
{
}

} // verus!
