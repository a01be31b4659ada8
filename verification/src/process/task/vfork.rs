//! A parent that waits until its child runs another program or has ended.

use vstd::prelude::*;

use crate::process::scheduler::runqueue::SchedTask;
use crate::process::scheduler::wait::WaitQueue;
use crate::process::task::status::TaskStatus;

verus! {

/// What a parent does next.
#[derive(Clone, Copy, Debug, PartialEq, Eq, Structural)]
pub enum VforkWait {
    /// It goes on.
    Finished,
    /// It sleeps until it is woken.
    Sleeping,
}

/// Whether the child is done, and who waits for that.
pub struct VforkCompletion {
    pub done: bool,
    pub waiters: WaitQueue,
}

/// The numbers but for one.
pub open spec fn others_than(tid: u64) -> spec_fn(u64) -> bool {
    |t: u64| t != tid
}

impl VforkCompletion {
    /// The child is not done, and nobody waits.
    pub fn new() -> (completion: Self)
        ensures
            !completion.done,
            completion.waiters.queue@.len() == 0,
    {
        VforkCompletion { done: false, waiters: WaitQueue::new() }
    }

    /// Lets the parent wait: it goes on where the child is done or where it is to be killed,
    /// and sleeps otherwise.
    pub fn wait(&mut self, task: &mut SchedTask, has_sigkill: bool) -> (next: VforkWait)
        ensures
            final(self).done == old(self).done,
            next == vfork_next(old(self).done, has_sigkill),
            if next == VforkWait::Finished {
                &&& *final(self) == *old(self)
                &&& *final(task) == *old(task)
            } else {
                &&& final(self).waiters.queue@ == old(self).waiters.queue@.push(old(task).tid)
                &&& *final(task) == (SchedTask { state: TaskStatus::BlockSaving, ..*old(task) })
            },
    {
        if self.done || has_sigkill {
            return VforkWait::Finished;
        }
        self.waiters.block_current_and_run_next(task);
        VforkWait::Sleeping
    }

    /// Takes a parent that was woken by something else out of the queue.
    pub fn woken(&mut self, tid: u64)
        ensures
            final(self).done == old(self).done,
            final(self).waiters.queue@ == if old(self).done {
                old(self).waiters.queue@
            } else {
                old(self).waiters.queue@.filter(others_than(tid))
            },
    {
        if !self.done {
            self.waiters.remove_by_tid(tid);
        }
    }

    /// The child is done. Returns those that waited, the first time.
    pub fn complete(&mut self) -> (waiters: Vec<u64>)
        ensures
            final(self).done,
            if old(self).done {
                &&& waiters@.len() == 0
                &&& final(self).waiters.queue@ == old(self).waiters.queue@
            } else {
                &&& waiters@ == old(self).waiters.queue@
                &&& final(self).waiters.queue@.len() == 0
            },
    {
        if self.done {
            return Vec::new();
        }
        self.done = true;
        self.waiters.drain()
    }
}

impl WaitQueue {
    /// Takes a task out, wherever it stands.
    pub fn remove_by_tid(&mut self, tid: u64)
        ensures
            final(self).queue@ == old(self).queue@.filter(others_than(tid)),
    {
        let ghost s = self.queue@;
        let ghost other = others_than(tid);
        let mut kept: Vec<u64> = Vec::new();
        let mut i: usize = 0;
        assert(s.take(0) =~= Seq::<u64>::empty());
        assert(s.take(0).filter(other) =~= Seq::<u64>::empty()) by {
            reveal(Seq::filter);
        }
        while i < self.queue.len()
            invariant
                i <= s.len(),
                self.queue@ == s,
                other == others_than(tid),
                kept@ == s.take(i as int).filter(other),
            decreases s.len() - i,
        {
            proof {
                reveal(Seq::filter);
                assert(s.take(i + 1).drop_last() =~= s.take(i as int));
            }
            let t: u64 = self.queue[i];
            if t != tid {
                kept.push(t);
            }
            i = i + 1;
        }
        assert(s.take(s.len() as int) =~= s);
        self.queue = kept;
    }
}

/// Who waits is told once: after the child is done, nobody sleeps any more.
pub proof fn law_no_wait_after_completion(completion: VforkCompletion)
    requires
        completion.done,
    ensures
        vfork_next(completion.done, false) == VforkWait::Finished,
        vfork_next(completion.done, true) == VforkWait::Finished,
{
}

/// What a parent does next.
pub open spec fn vfork_next(done: bool, has_sigkill: bool) -> VforkWait {
    if done || has_sigkill {
        VforkWait::Finished
    } else {
        VforkWait::Sleeping
    }
}

} // verus!
