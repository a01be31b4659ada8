//! Tasks that are ready, by priority, and all processes.

use vstd::prelude::*;

use super::registry::{known, Entry, Registry};
use super::scheduler::runqueue::{SchedTask, SCHED_FIFO, SCHED_IDLE, SCHED_RR};
use super::task::status::TaskStatus;
use std::collections::BTreeMap;

verus! {

broadcast use {vstd::std_specs::btree::group_btree_axioms, vstd::laws_cmp::group_laws_cmp};

/// A processor with fewer tasks asks for more.
pub const LOCAL_QUEUE_LOW_WATERMARK: usize = 2;

/// A processor takes tasks until it has so many.
pub const LOCAL_QUEUE_REFILL_TARGET: usize = 4;

/// A task that is ready: its class, its priority in it, and when it came.
#[derive(Clone, Copy, Debug, PartialEq, Eq, Structural)]
pub struct ReadyEntry {
    pub class: u64,
    pub priority: i64,
    pub order: u64,
    pub tid: u64,
}

/// Entry `a` goes before `b`: its class is higher, or its priority, or it came first.
pub open spec fn goes_first(a: ReadyEntry, b: ReadyEntry) -> bool {
    a.class > b.class || (a.class == b.class && (a.priority > b.priority || (a.priority
        == b.priority && a.order <= b.order)))
}

/// A task is in a queue.
pub open spec fn is_in(s: Seq<ReadyEntry>, tid: u64) -> bool {
    exists|i: int| 0 <= i < s.len() && (#[trigger] s[i]).tid == tid
}

/// Tells other tasks from one.
pub open spec fn other_tasks(tid: u64) -> spec_fn(ReadyEntry) -> bool {
    |entry: ReadyEntry| entry.tid != tid
}

/// Tasks that are ready; none is there twice.
pub struct ReadyQueue {
    pub entries: Vec<ReadyEntry>,
    pub enqueue_order: u64,
}

/// The entry that goes first was taken out.
pub open spec fn first_taken(before: Seq<ReadyEntry>, after: Seq<ReadyEntry>, tid: u64) -> bool {
    exists|k: int|
        {
            &&& 0 <= k < before.len()
            &&& (#[trigger] before[k]).tid == tid
            &&& forall|i: int|
                0 <= i < before.len() ==> goes_first(before[k], #[trigger] before[i])
            &&& after == before.remove(k)
        }
}

impl ReadyQueue {
    /// No task is there twice.
    pub open spec fn wf(&self) -> bool {
        forall|i: int, j: int|
            0 <= i < j < self.entries@.len() ==> (#[trigger] self.entries@[i]).tid != (
            #[trigger] self.entries@[j]).tid
    }

    /// Makes a queue without tasks.
    pub fn new() -> (queue: Self)
        ensures
            queue.wf(),
            queue.entries@.len() == 0,
            queue.enqueue_order == 0,
    {
        ReadyQueue { entries: Vec::new(), enqueue_order: 0 }
    }

    /// Tells whether a task is there.
    pub fn contains(&self, tid: u64) -> (yes: bool)
        ensures
            yes == is_in(self.entries@, tid),
    {
        let mut i: usize = 0;
        while i < self.entries.len()
            invariant
                i <= self.entries@.len(),
                forall|j: int| 0 <= j < i ==> (#[trigger] self.entries@[j]).tid != tid,
            decreases self.entries@.len() - i,
        {
            if self.entries[i].tid == tid {
                return true;
            }
            i = i + 1;
        }
        false
    }

    /// Adds a task; one that is there stays where it is.
    pub fn push(&mut self, tid: u64, class: u64, priority: i64)
        requires
            old(self).wf(),
        ensures
            final(self).wf(),
            if is_in(old(self).entries@, tid) {
                *final(self) == *old(self)
            } else {
                &&& final(self).entries@ == old(self).entries@.push(
                    ReadyEntry { class, priority, order: old(self).enqueue_order, tid },
                )
                &&& final(self).enqueue_order == (old(self).enqueue_order + 1)
                    % 0x1_0000_0000_0000_0000
            },
    {
        if self.contains(tid) {
            return;
        }
        let order: u64 = self.enqueue_order;
        self.enqueue_order = self.enqueue_order.wrapping_add(1);
        self.entries.push(ReadyEntry { class, priority, order, tid });
    }

    /// Takes the task out that goes first.
    pub fn pop(&mut self) -> (tid: Option<u64>)
        requires
            old(self).wf(),
        ensures
            final(self).wf(),
            final(self).enqueue_order == old(self).enqueue_order,
            match tid {
                None => old(self).entries@.len() == 0 && final(self).entries@
                    == old(self).entries@,
                Some(t) => first_taken(old(self).entries@, final(self).entries@, t),
            },
    {
        if self.entries.len() == 0 {
            return None;
        }
        let mut best: usize = 0;
        let mut i: usize = 1;
        while i < self.entries.len()
            invariant
                self.entries@ == old(self).entries@,
                self.enqueue_order == old(self).enqueue_order,
                0 < i <= self.entries@.len(),
                best < i,
                forall|j: int|
                    0 <= j < i ==> goes_first(
                        self.entries@[best as int],
                        #[trigger] self.entries@[j],
                    ),
            decreases self.entries@.len() - i,
        {
            let a = self.entries[i];
            let b = self.entries[best];
            let better: bool = a.class > b.class || (a.class == b.class && (a.priority > b.priority
                || (a.priority == b.priority && a.order < b.order)));
            if better {
                best = i;
            }
            i = i + 1;
        }
        let entry = self.entries.remove(best);
        proof {
            let s = old(self).entries@;
            let n = s.remove(best as int);
            assert(s[best as int] == entry);
            assert forall|a: int, b: int| 0 <= a < b < n.len() implies (#[trigger] n[a]).tid != (
            #[trigger] n[b]).tid by {
                let x = if a < best {
                    a
                } else {
                    a + 1
                };
                let y = if b < best {
                    b
                } else {
                    b + 1
                };
                assert(n[a] == s[x] && n[b] == s[y]);
            }
        }
        Some(entry.tid)
    }

    /// Takes a task out.
    pub fn remove(&mut self, tid: u64)
        requires
            old(self).wf(),
        ensures
            final(self).wf(),
            final(self).entries@ == old(self).entries@.filter(other_tasks(tid)),
            final(self).enqueue_order == old(self).enqueue_order,
            !is_in(final(self).entries@, tid),
    {
        let ghost s = self.entries@;
        let ghost other = other_tasks(tid);
        let mut kept: Vec<ReadyEntry> = Vec::new();
        let mut i: usize = 0;
        assert(s.take(0) =~= Seq::<ReadyEntry>::empty());
        assert(s.take(0).filter(other) =~= Seq::<ReadyEntry>::empty()) by {
            reveal(Seq::filter);
        }
        while i < self.entries.len()
            invariant
                i <= s.len(),
                self.entries@ == s,
                s == old(self).entries@,
                old(self).wf(),
                self.enqueue_order == old(self).enqueue_order,
                other == other_tasks(tid),
                kept@ == s.take(i as int).filter(other),
                forall|a: int|
                    0 <= a < kept@.len() ==> (#[trigger] kept@[a]).tid != tid && exists|b: int|
                        0 <= b < i && #[trigger] s[b] == kept@[a],
                forall|a: int, b: int|
                    0 <= a < b < kept@.len() ==> (#[trigger] kept@[a]).tid != (
                    #[trigger] kept@[b]).tid,
            decreases s.len() - i,
        {
            proof {
                reveal(Seq::filter);
                assert(s.take(i + 1).drop_last() =~= s.take(i as int));
            }
            let entry = self.entries[i];
            let ghost k0 = kept@;
            if entry.tid != tid {
                kept.push(entry);
                proof {
                    assert forall|a: int| 0 <= a < kept@.len() implies (#[trigger] kept@[a]).tid
                        != tid && exists|b: int| 0 <= b < i + 1 && #[trigger] s[b] == kept@[a] by {
                        if a < k0.len() {
                            assert(kept@[a] == k0[a]);
                        } else {
                            assert(s[i as int] == kept@[a]);
                        }
                    }
                    assert forall|a: int, b: int| 0 <= a < b < kept@.len() implies (
                    #[trigger] kept@[a]).tid != (#[trigger] kept@[b]).tid by {
                        assert(kept@[a] == k0[a]);
                        if b < k0.len() {
                            assert(kept@[b] == k0[b]);
                        } else {
                            let c = choose|c: int| 0 <= c < i && #[trigger] s[c] == k0[a];
                            assert(s[c].tid != s[i as int].tid);
                        }
                    }
                }
            }
            i = i + 1;
        }
        assert(s.take(s.len() as int) =~= s);
        self.entries = kept;
    }
}

/// The class and the priority of a task: fixed priorities go first, and what is for when there
/// is nothing else to do goes last.
pub open spec fn sched_rank(policy: i64, priority: i32) -> (u64, i64) {
    if (policy == SCHED_FIFO || policy == SCHED_RR) && priority > 0 {
        (2, priority as i64)
    } else if policy == SCHED_IDLE {
        (0, 0)
    } else {
        (1, 0)
    }
}

/// Returns the class and the priority of a task.
pub fn task_sched_rank(policy: i64, priority: i32) -> (rank: (u64, i64))
    ensures
        rank == sched_rank(policy, priority),
{
    if (policy == SCHED_FIFO || policy == SCHED_RR) && priority > 0 {
        (2, priority as i64)
    } else if policy == SCHED_IDLE {
        (0, 0)
    } else {
        (1, 0)
    }
}

/// The tasks that wait for one processor.
pub struct TaskManager {
    pub ready_queue: ReadyQueue,
}

/// The priority of a task among all classes.
pub open spec fn flat_priority(rank: (u64, i64)) -> i64 {
    (rank.0 * 100 + rank.1) as i64
}

/// A task stands behind those that were there; one that was among them stays where it is.
pub open spec fn task_added(
    before: TaskManager,
    after: TaskManager,
    tid: u64,
    policy: i64,
    priority: i32,
) -> bool {
    if is_in(before.ready_queue.entries@, tid) {
        after == before
    } else {
        &&& after.ready_queue.entries@ == before.ready_queue.entries@.push(
            ReadyEntry {
                class: 0,
                priority: flat_priority(sched_rank(policy, priority)),
                order: before.ready_queue.enqueue_order,
                tid,
            },
        )
        &&& after.ready_queue.enqueue_order == (before.ready_queue.enqueue_order + 1)
            % 0x1_0000_0000_0000_0000
    }
}

impl TaskManager {
    /// No task is there twice.
    pub open spec fn wf(&self) -> bool {
        self.ready_queue.wf()
    }

    /// Starts without tasks.
    pub fn new() -> (manager: Self)
        ensures
            manager.wf(),
            manager.ready_queue.entries@.len() == 0,
            manager.ready_queue.enqueue_order == 0,
    {
        TaskManager { ready_queue: ReadyQueue::new() }
    }

    /// Adds a task; one that is there stays where it is.
    pub fn add(&mut self, tid: u64, policy: i64, priority: i32)
        requires
            old(self).wf(),
        ensures
            final(self).wf(),
            task_added(*old(self), *final(self), tid, policy, priority),
    {
        let (class, level) = task_sched_rank(policy, priority);
        self.ready_queue.push(tid, 0, class as i64 * 100 + level);
    }

    /// Takes the task out that goes first.
    pub fn fetch(&mut self) -> (tid: Option<u64>)
        requires
            old(self).wf(),
        ensures
            final(self).wf(),
            final(self).ready_queue.enqueue_order == old(self).ready_queue.enqueue_order,
            match tid {
                None => old(self).ready_queue.entries@.len() == 0
                    && final(self).ready_queue.entries@.len() == 0,
                Some(t) => first_taken(
                    old(self).ready_queue.entries@,
                    final(self).ready_queue.entries@,
                    t,
                ),
            },
    {
        self.ready_queue.pop()
    }

    /// Returns the number of tasks.
    pub fn task_count(&self) -> (count: usize)
        ensures
            count == self.ready_queue.entries@.len(),
    {
        self.ready_queue.entries.len()
    }

    /// Takes a task out.
    pub fn remove(&mut self, tid: u64)
        requires
            old(self).wf(),
        ensures
            final(self).wf(),
            final(self).ready_queue.entries@ == old(self).ready_queue.entries@.filter(
                other_tasks(tid),
            ),
            final(self).ready_queue.enqueue_order == old(self).ready_queue.enqueue_order,
            !is_in(final(self).ready_queue.entries@, tid),
    {
        self.ready_queue.remove(tid);
    }

    /// Takes the first task out that can run, and lets it run; those before it are dropped.
    pub fn fetch_task(&mut self, tasks: &mut BTreeMap<u64, SchedTask>) -> (tid: Option<u64>)
        requires
            old(self).wf(),
        ensures
            final(self).wf(),
            match tid {
                None => {
                    &&& final(self).ready_queue.entries@.len() == 0
                    &&& passed_over(
                        old(self).ready_queue.entries@,
                        final(self).ready_queue.entries@,
                        old(tasks)@,
                    )
                    &&& final(tasks)@ == old(tasks)@
                },
                Some(t) => {
                    &&& can_run(old(tasks)@, t)
                    &&& exists|mid: Seq<ReadyEntry>| #[trigger]
                        passed_over(old(self).ready_queue.entries@, mid, old(tasks)@)
                            && first_taken(mid, final(self).ready_queue.entries@, t)
                    &&& final(tasks)@ == old(tasks)@.insert(
                        t,
                        SchedTask { state: TaskStatus::Running, ..old(tasks)@[t] },
                    )
                },
            },
    {
        let ghost s = self.ready_queue.entries@;
        let ghost mut left: Seq<Seq<ReadyEntry>> = seq![s];
        let ghost mut tids: Seq<u64> = Seq::empty();
        loop
            invariant
                self.wf(),
                s == old(self).ready_queue.entries@,
                tasks@ == old(tasks)@,
                drops(left, tids, s, self.ready_queue.entries@, old(tasks)@),
            decreases self.ready_queue.entries@.len(),
        {
            let ghost mid = self.ready_queue.entries@;
            assert(passed_over(s, mid, old(tasks)@));
            let tid: u64 = match self.fetch() {
                None => {
                    assert(self.ready_queue.entries@ =~= mid);
                    return None;
                },
                Some(tid) => tid,
            };
            let found: Option<SchedTask> = match tasks.get(&tid) {
                None => None,
                Some(task) => Some(*task),
            };
            if let Some(task) = found {
                if task.state == TaskStatus::Ready && !task.on_cpu {
                    let mut task = task;
                    task.state = TaskStatus::Running;
                    tasks.insert(tid, task);
                    return Some(tid);
                }
            }
            proof {
                let before = left;
                left = left.push(self.ready_queue.entries@);
                tids = tids.push(tid);
                assert forall|i: int| 0 <= i < tids.len() implies first_taken(
                    #[trigger] left[i],
                    left[i + 1],
                    tids[i],
                ) && !can_run(old(tasks)@, tids[i]) by {
                    assert(left[i] == before[i]);
                    if i + 1 < tids.len() {
                        assert(left[i + 1] == before[i + 1]);
                    }
                }
            }
        }
    }
}

/// Tasks that cannot run were taken out, each the one that went first of those that were left.
pub open spec fn drops(
    left: Seq<Seq<ReadyEntry>>,
    tids: Seq<u64>,
    before: Seq<ReadyEntry>,
    after: Seq<ReadyEntry>,
    tasks: Map<u64, SchedTask>,
) -> bool {
    &&& left.len() == tids.len() + 1
    &&& left[0] == before
    &&& left.last() == after
    &&& forall|i: int|
        0 <= i < tids.len() ==> first_taken(#[trigger] left[i], left[i + 1], tids[i]) && !can_run(
            tasks,
            tids[i],
        )
}

/// Of a queue, tasks that cannot run were taken out from the front on.
pub open spec fn passed_over(
    before: Seq<ReadyEntry>,
    after: Seq<ReadyEntry>,
    tasks: Map<u64, SchedTask>,
) -> bool {
    exists|left: Seq<Seq<ReadyEntry>>, tids: Seq<u64>| #[trigger]
        drops(left, tids, before, after, tasks)
}

/// A task is ready and on no processor.
pub open spec fn can_run(tasks: Map<u64, SchedTask>, tid: u64) -> bool {
    tasks.contains_key(tid) && tasks[tid].state == TaskStatus::Ready && !tasks[tid].on_cpu
}

/// All processes, by number.
pub struct ProcessManager {
    process_pool: Registry,
}

impl ProcessManager {
    /// The numbers of the processes, each with the number under which the process is kept.
    pub closed spec fn pool(&self) -> Seq<Entry> {
        self.process_pool@
    }

    /// The processes stand in the order of their numbers.
    pub closed spec fn wf(&self) -> bool {
        self.process_pool.wf()
    }

    /// Starts without processes.
    pub fn new() -> (manager: Self)
        ensures
            manager.wf(),
            manager.pool().len() == 0,
    {
        ProcessManager { process_pool: Registry::new() }
    }

    /// Adds a process; one that is known under the number is replaced.
    pub fn add_process(&mut self, pid: u64, process: u64)
        requires
            old(self).wf(),
        ensures
            final(self).wf(),
            forall|e: Entry|
                #[trigger] final(self).pool().contains(e) <==> e == (Entry {
                    tid: pid,
                    tgid: process,
                }) || (old(self).pool().contains(e) && e.tid != pid),
    {
        self.process_pool.add_task(pid, process);
    }

    /// Returns a process.
    pub fn get_process(&self, pid: u64) -> (process: Option<u64>)
        requires
            self.wf(),
        ensures
            match process {
                Some(p) => self.pool().contains(Entry { tid: pid, tgid: p }),
                None => !known(self.pool(), pid),
            },
    {
        self.process_pool.tid2task(pid)
    }

    /// Forgets a process.
    pub fn remove_process(&mut self, pid: u64)
        requires
            old(self).wf(),
            known(old(self).pool(), pid),
        ensures
            final(self).wf(),
            !known(final(self).pool(), pid),
            forall|e: Entry|
                e.tid != pid ==> (#[trigger] final(self).pool().contains(e)
                    <==> old(self).pool().contains(e)),
    {
        self.process_pool.remove_from_tid2task(pid);
    }
}

/// Of two tasks of one class and priority, the one that came first goes first.
pub proof fn law_first_come_first_served(
    before: Seq<ReadyEntry>,
    after: Seq<ReadyEntry>,
    tid: u64,
    i: int,
    j: int,
)
    requires
        first_taken(before, after, tid),
        0 <= i < before.len(),
        0 <= j < before.len(),
        before[i].class == before[j].class,
        before[i].priority == before[j].priority,
        before[i].order < before[j].order,
        forall|a: int, b: int|
            0 <= a < b < before.len() ==> (#[trigger] before[a]).tid != (#[trigger] before[b]).tid,
    ensures
        tid != before[j].tid,
{
    let k = choose|k: int|
        {
            &&& 0 <= k < before.len()
            &&& (#[trigger] before[k]).tid == tid
            &&& forall|m: int|
                0 <= m < before.len() ==> goes_first(before[k], #[trigger] before[m])
            &&& after == before.remove(k)
        };
    if tid == before[j].tid {
        assert(k == j);
        assert(goes_first(before[k], before[i]));
    }
}

} // verus!
