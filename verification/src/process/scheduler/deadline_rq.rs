//! Tasks that have to be done by a time.

use vstd::prelude::*;

use super::cfs_rq::Queued;
use super::rbtree::{law_pairs_sorted, RbRootCached, SortKey};

verus! {

/// The order of tasks with deadlines: by the deadline, and for one deadline by number.
#[derive(Clone, Copy, Debug, PartialEq, Eq, Structural)]
pub struct DeadlineKey {
    pub deadline: u64,
    pub tid: u64,
}

impl SortKey for DeadlineKey {
    open spec fn rank(&self) -> int {
        self.deadline * 0x1_0000_0000_0000_0000 + self.tid
    }

    fn before(&self, other: &Self) -> (b: bool) {
        self.deadline < other.deadline || (self.deadline == other.deadline && self.tid < other.tid)
    }
}

/// The tasks with deadlines, the earliest first.
pub struct DeadlineRq {
    tasks: RbRootCached<DeadlineKey, Queued>,
}

impl View for DeadlineRq {
    type V = Seq<(DeadlineKey, Queued)>;

    closed spec fn view(&self) -> Seq<(DeadlineKey, Queued)> {
        self.tasks@
    }
}

impl DeadlineRq {
    /// Every task stands under its own number.
    pub closed spec fn wf(&self) -> bool {
        &&& self.tasks.wf()
        &&& forall|i: int|
            0 <= i < self.tasks@.len() ==> (#[trigger] self.tasks@[i]).0.tid == self.tasks@[i].1.tid
    }

    /// The earliest deadline comes first.
    pub proof fn law_earliest_first(&self, i: int, j: int)
        requires
            self.wf(),
            0 <= i <= j < self@.len(),
        ensures
            self@[i].0.deadline <= self@[j].0.deadline,
            self@[i].0.tid == self@[i].1.tid,
    {
        law_pairs_sorted(self.tasks, i, j);
        assert(self.tasks@[i].0.tid == self.tasks@[i].1.tid);
    }

    /// Makes a queue without tasks.
    pub fn new() -> (rq: Self)
        ensures
            rq.wf(),
            rq@.len() == 0,
    {
        DeadlineRq { tasks: RbRootCached::new() }
    }

    /// Adds a task where its deadline puts it.
    pub fn enqueue(&mut self, task: Queued, deadline: u64)
        requires
            old(self).wf(),
            old(self)@.len() < usize::MAX,
        ensures
            final(self).wf(),
            exists|k: int|
                0 <= k <= old(self)@.len() && final(self)@ == #[trigger] old(self)@.insert(
                    k,
                    (DeadlineKey { deadline, tid: task.tid }, task),
                ) && (forall|j: int|
                    0 <= j < k ==> (#[trigger] old(self)@[j]).0.rank() <= (DeadlineKey {
                        deadline,
                        tid: task.tid,
                    }).rank()) && (forall|j: int|
                    k <= j < old(self)@.len() ==> (#[trigger] old(self)@[j]).0.rank() > (
                    DeadlineKey { deadline, tid: task.tid }).rank()),
    {
        let key = DeadlineKey { deadline, tid: task.tid };
        self.tasks.insert(key, task);
        proof {
            let k = choose|k: int|
                0 <= k <= old(self)@.len() && self.tasks@ == #[trigger] old(self)@.insert(
                    k,
                    (key, task),
                );
            assert forall|i: int| 0 <= i < self.tasks@.len() implies (
            #[trigger] self.tasks@[i]).0.tid == self.tasks@[i].1.tid by {
                if i < k {
                    assert(self.tasks@[i] == old(self).tasks@[i]);
                } else if i > k {
                    assert(self.tasks@[i] == old(self).tasks@[i - 1]);
                }
            }
        }
    }

    /// Returns the task with the earliest deadline, which stays.
    pub fn pick_next(&self) -> (task: Option<Queued>)
        requires
            self.wf(),
        ensures
            task == if self@.len() > 0 {
                Some(self@[0].1)
            } else {
                None
            },
    {
        match self.tasks.first() {
            None => None,
            Some(task) => Some(*task),
        }
    }

    /// Takes the task with the earliest deadline out.
    pub fn pop_next(&mut self) -> (task: Option<Queued>)
        requires
            old(self).wf(),
        ensures
            final(self).wf(),
            match task {
                None => old(self)@.len() == 0 && final(self)@ == old(self)@,
                Some(next) => old(self)@.len() > 0 && next == old(self)@[0].1 && final(self)@ == old(self)@.remove(0),
            },
    {
        let task = self.tasks.pop_first();
        proof {
            if task is Some {
                self.lemma_without(old(self), 0);
            }
        }
        task
    }

    proof fn lemma_without(&self, before: &Self, k: int)
        requires
            before.wf(),
            self.tasks.wf(),
            0 <= k < before@.len(),
            self.tasks@ == before@.remove(k),
        ensures
            self.wf(),
    {
        assert forall|i: int| 0 <= i < self.tasks@.len() implies (#[trigger] self.tasks@[i]).0.tid
            == self.tasks@[i].1.tid by {
            if i < k {
                assert(self.tasks@[i] == before.tasks@[i]);
            } else {
                assert(self.tasks@[i] == before.tasks@[i + 1]);
            }
        }
    }

    /// Takes a task out.
    pub fn remove_task(&mut self, tid: u64) -> (task: Option<Queued>)
        requires
            old(self).wf(),
        ensures
            final(self).wf(),
            match task {
                None => final(self)@ == old(self)@ && forall|i: int|
                    0 <= i < old(self)@.len() ==> (#[trigger] old(self)@[i]).1.tid != tid,
                Some(gone) => gone.tid == tid && exists|k: int|
                    0 <= k < old(self)@.len() && gone == (#[trigger] old(self)@[k]).1 && final(self)@ == old(self)@.remove(k),
            },
    {
        let is_it = |task: &Queued| -> (yes: bool)
            ensures
                yes == (task.tid == tid),
            { task.tid == tid };
        let task = self.tasks.remove_where(is_it);
        proof {
            if task is Some {
                let k = choose|k: int|
                    0 <= k < old(self)@.len() && call_ensures(
                        is_it,
                        (&(#[trigger] old(self)@[k]).1,),
                        true,
                    ) && task->Some_0 == old(self)@[k].1 && self.tasks@ == old(self)@.remove(k);
                self.lemma_without(old(self), k);
            } else {
                assert forall|i: int| 0 <= i < old(self)@.len() implies (#[trigger] old(self)@[i]).1.tid != tid by {
                    assert(call_ensures(is_it, (&old(self)@[i].1,), false));
                }
            }
        }
        task
    }
}

} // verus!
