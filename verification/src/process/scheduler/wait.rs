//! Queues of tasks that wait for something.

use vstd::prelude::*;

use super::nanosleep::{of_others, SleepEntry, SleepQueue};
use super::runqueue::SchedTask;
use crate::process::task::status::TaskStatus;
use std::collections::BTreeMap;

verus! {

broadcast use {vstd::std_specs::btree::group_btree_axioms, vstd::laws_cmp::group_laws_cmp};

/// Lets another task run; the one that ran can run on.
pub fn suspend_current_and_run_next(task: &mut SchedTask)
    ensures
        *final(task) == (SchedTask { state: TaskStatus::Ready, ..*old(task) }),
{
    task.state = TaskStatus::Ready;
}

/// Puts the task that runs to sleep where it has to; tells whether it sleeps.
pub fn block_current_and_run_next_if_task(task: &mut SchedTask, should_block: bool) -> (blocked:
    bool)
    ensures
        blocked == should_block,
        *final(task) == if blocked {
            SchedTask { state: TaskStatus::BlockSaving, ..*old(task) }
        } else {
            *old(task)
        },
{
    if should_block {
        task.state = TaskStatus::BlockSaving;
    }
    should_block
}

/// What is to be done with a task at the front of a queue.
#[derive(Clone, Copy, Debug, PartialEq, Eq, Structural)]
pub enum Waiter {
    /// It sleeps and can be woken.
    Wake(u64),
    /// It is still being put to sleep; it keeps its place.
    Saving(u64),
    /// Nobody waits.
    Nobody,
}

/// The task at a place of a queue is of no use: it does not sleep, or is not known.
pub open spec fn is_stale(tasks: Map<u64, SchedTask>, tid: u64) -> bool {
    !tasks.contains_key(tid) || (tasks[tid].state != TaskStatus::Blocked && tasks[tid].state
        != TaskStatus::BlockSaving)
}

/// The number of tasks at the front that are of no use.
pub open spec fn stale_front(s: Seq<u64>, tasks: Map<u64, SchedTask>) -> int
    decreases s.len(),
{
    if s.len() > 0 && is_stale(tasks, s[0]) {
        1 + stale_front(s.skip(1), tasks)
    } else {
        0
    }
}

/// What comes of waking all that wait.
#[verifier::ext_equal]
pub struct Wakeups {
    /// The tasks that are woken.
    pub tids: Seq<u64>,
    /// The task that is still being put to sleep.
    pub saving: Option<u64>,
    /// The tasks that are left: that one, and those behind it.
    pub left: Seq<u64>,
}

/// The tasks to wake of those in a queue.
pub open spec fn to_wake(s: Seq<u64>, tasks: Map<u64, SchedTask>) -> Wakeups
    decreases s.len(),
{
    if s.len() == 0 {
        Wakeups { tids: Seq::empty(), saving: None, left: Seq::empty() }
    } else {
        let tid = s[0];
        if tasks.contains_key(tid) && tasks[tid].state == TaskStatus::BlockSaving {
            Wakeups { tids: Seq::empty(), saving: Some(tid), left: s }
        } else {
            let rest = to_wake(s.skip(1), tasks);
            if tasks.contains_key(tid) && tasks[tid].state == TaskStatus::Blocked {
                Wakeups { tids: seq![tid] + rest.tids, ..rest }
            } else {
                rest
            }
        }
    }
}

/// The tasks that wait, in the order they came.
pub struct WaitQueue {
    pub queue: Vec<u64>,
}

impl WaitQueue {
    /// Makes a queue without tasks.
    pub fn new() -> (queue: Self)
        ensures
            queue.queue@.len() == 0,
    {
        WaitQueue { queue: Vec::new() }
    }

    /// Puts a task at the end.
    pub fn push_back(&mut self, tid: u64)
        ensures
            final(self).queue@ == old(self).queue@.push(tid),
    {
        self.queue.push(tid);
    }

    /// Takes the task at the front out.
    pub fn pop_front(&mut self) -> (tid: Option<u64>)
        ensures
            old(self).queue@.len() == 0 ==> tid is None && final(self).queue@ == old(self).queue@,
            old(self).queue@.len() > 0 ==> tid == Some(old(self).queue@[0]) && final(self).queue@
                == old(self).queue@.skip(1),
    {
        if self.queue.len() == 0 {
            None
        } else {
            let tid: u64 = self.queue.remove(0);
            assert(old(self).queue@.remove(0) =~= old(self).queue@.skip(1));
            Some(tid)
        }
    }

    /// Puts the task that runs to sleep in the queue.
    pub fn block_current_and_run_next(&mut self, task: &mut SchedTask)
        ensures
            *final(task) == (SchedTask { state: TaskStatus::BlockSaving, ..*old(task) }),
            final(self).queue@ == old(self).queue@.push(old(task).tid),
    {
        task.state = TaskStatus::BlockSaving;
        self.queue.push(task.tid);
    }

    /// Puts the task that runs to sleep in the queue where it has to; tells whether it sleeps.
    pub fn block_current_and_run_next_if(&mut self, task: &mut SchedTask, should_block: bool) -> (blocked:
        bool)
        ensures
            blocked == should_block,
            blocked ==> *final(task) == (SchedTask {
                state: TaskStatus::BlockSaving,
                ..*old(task)
            }) && final(self).queue@ == old(self).queue@.push(old(task).tid),
            !blocked ==> *final(task) == *old(task) && *final(self) == *old(self),
    {
        if should_block {
            self.block_current_and_run_next(task);
        }
        should_block
    }

    /// Finds the task to wake: tasks at the front that do not sleep any more are dropped,
    /// and one that sleeps is taken out.
    pub fn wake_up_one(&mut self, tasks: &BTreeMap<u64, SchedTask>) -> (next: Waiter)
        ensures
            one_woken(*old(self), *final(self), tasks@, next),
    {
        let ghost s = self.queue@;
        let ghost mut k: int = 0;
        assert(s.skip(0) =~= s);
        proof {
            lemma_stale_front(s, tasks@);
        }
        loop
            invariant
                0 <= k <= s.len(),
                self.queue@ == s.skip(k),
                stale_front(s, tasks@) == k + stale_front(s.skip(k), tasks@),
                0 <= stale_front(s, tasks@) <= s.len(),
                s == old(self).queue@,
            decreases s.len() - k,
        {
            if self.queue.len() == 0 {
                return Waiter::Nobody;
            }
            let tid: u64 = self.queue[0];
            let state: Option<TaskStatus> = match tasks.get(&tid) {
                None => None,
                Some(task) => Some(task.state),
            };
            if state == Some(TaskStatus::BlockSaving) {
                return Waiter::Saving(tid);
            }
            let _ = self.pop_front();
            assert(s.skip(k).skip(1) =~= s.skip(k + 1));
            if state == Some(TaskStatus::Blocked) {
                return Waiter::Wake(tid);
            }
            proof {
                k = k + 1;
            }
        }
    }

    /// Puts the task that runs to sleep in the queue where it has to, and until a time at most;
    /// tells whether it sleeps.
    pub fn block_current_and_run_next_if_timeout(
        &mut self,
        task: &mut SchedTask,
        sleepers: &mut SleepQueue,
        deadline_ns: u64,
        should_block: bool,
    ) -> (blocked: bool)
        requires
            old(sleepers).wf(),
        ensures
            final(sleepers).wf(),
            blocked == should_block,
            blocked ==> {
                &&& *final(task) == (SchedTask { state: TaskStatus::BlockSaving, ..*old(task) })
                &&& final(self).queue@ == old(self).queue@.push(old(task).tid)
                &&& final(sleepers).entries@ == of_others(
                    old(sleepers).entries@,
                    old(task).tid,
                ).push(
                    SleepEntry {
                        deadline_ns,
                        order: old(sleepers).enqueue_order,
                        tid: old(task).tid,
                    },
                )
                &&& final(sleepers).enqueue_order == (old(sleepers).enqueue_order + 1)
                    % 0x1_0000_0000_0000_0000
            },
            !blocked ==> *final(task) == *old(task) && *final(self) == *old(self)
                && *final(sleepers) == *old(sleepers),
    {
        if should_block {
            sleepers.push(deadline_ns, task.tid);
            self.block_current_and_run_next(task);
        }
        should_block
    }

    /// Takes all tasks out that are to be woken, up to one that is still being put to sleep.
    pub fn wake_up_all(&mut self, tasks: &BTreeMap<u64, SchedTask>) -> (all: (
        Vec<u64>,
        Option<u64>,
    ))
        ensures
            all.0@ == to_wake(old(self).queue@, tasks@).tids,
            all.1 == to_wake(old(self).queue@, tasks@).saving,
            final(self).queue@ == to_wake(old(self).queue@, tasks@).left,
    {
        let mut tids: Vec<u64> = Vec::new();
        loop
            invariant
                ({
                    let rest = to_wake(self.queue@, tasks@);
                    to_wake(old(self).queue@, tasks@) == (Wakeups {
                        tids: tids@ + rest.tids,
                        ..rest
                    })
                }),
            decreases self.queue@.len(),
        {
            if self.queue.len() == 0 {
                assert(tids@ + to_wake(self.queue@, tasks@).tids =~= tids@);
                return (tids, None);
            }
            let tid: u64 = self.queue[0];
            let state: Option<TaskStatus> = match tasks.get(&tid) {
                None => None,
                Some(task) => Some(task.state),
            };
            if state == Some(TaskStatus::BlockSaving) {
                assert(tids@ + to_wake(self.queue@, tasks@).tids =~= tids@);
                return (tids, Some(tid));
            }
            let ghost before = tids@;
            let ghost rest = to_wake(self.queue@.skip(1), tasks@);
            let _ = self.pop_front();
            if state == Some(TaskStatus::Blocked) {
                tids.push(tid);
                assert(before + (seq![tid] + rest.tids) =~= tids@ + rest.tids);
            }
        }
    }

    /// Takes all tasks out, in their order.
    pub fn drain(&mut self) -> (all: Vec<u64>)
        ensures
            all@ == old(self).queue@,
            final(self).queue@.len() == 0,
    {
        let mut all: Vec<u64> = Vec::new();
        std::mem::swap(&mut all, &mut self.queue);
        all
    }
}

proof fn lemma_stale_front(s: Seq<u64>, tasks: Map<u64, SchedTask>)
    ensures
        0 <= stale_front(s, tasks) <= s.len(),
    decreases s.len(),
{
    if s.len() > 0 {
        lemma_stale_front(s.skip(1), tasks);
    }
}

/// How a queue is after the first who waits was to be woken.
pub open spec fn one_woken(
    before: WaitQueue,
    after: WaitQueue,
    tasks: Map<u64, SchedTask>,
    next: Waiter,
) -> bool {
    &&& {
        let s = before.queue@;
        let k = stale_front(s, tasks);
        if k == s.len() {
            next == Waiter::Nobody && after.queue@.len() == 0
        } else if tasks[s[k]].state == TaskStatus::Blocked {
            next == Waiter::Wake(s[k]) && after.queue@ == s.skip(k + 1)
        } else {
            next == Waiter::Saving(s[k]) && after.queue@ == s.skip(k)
        }
    }
}

/// A task that sleeps is not passed over: it is the first of those that wait.
pub proof fn law_first_waiter(s: Seq<u64>, tasks: Map<u64, SchedTask>, i: int)
    requires
        0 <= i < s.len(),
        !is_stale(tasks, s[i]),
    ensures
        0 <= stale_front(s, tasks) <= i,
        !is_stale(tasks, s[stale_front(s, tasks)]),
    decreases s.len(),
{
    if is_stale(tasks, s[0]) {
        law_first_waiter(s.skip(1), tasks, i - 1);
    }
}

} // verus!
