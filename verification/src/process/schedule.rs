//! The tasks that no processor has taken yet.

use vstd::prelude::*;

use super::manager::{
    first_taken, flat_priority, goes_first, is_in, other_tasks, sched_rank, task_added,
    task_sched_rank, ProcessManager, ReadyEntry, ReadyQueue, TaskManager, LOCAL_QUEUE_LOW_WATERMARK,
    LOCAL_QUEUE_REFILL_TARGET,
};
use super::registry::{Entry, Registry};

verus! {

/// The tasks that any processor can take.
pub struct TaskPool {
    pub queue: ReadyQueue,
}

impl TaskPool {
    /// No task is there twice.
    pub open spec fn wf(&self) -> bool {
        self.queue.wf()
    }

    /// Starts without tasks.
    pub fn new() -> (pool: Self)
        ensures
            pool.wf(),
            pool.queue.entries@.len() == 0,
            pool.queue.enqueue_order == 0,
    {
        TaskPool { queue: ReadyQueue::new() }
    }

    /// Returns the number of tasks.
    pub fn count(&self) -> (count: usize)
        ensures
            count == self.queue.entries@.len(),
    {
        self.queue.entries.len()
    }

    /// Takes a task out.
    pub fn remove_task(&mut self, tid: u64)
        requires
            old(self).wf(),
        ensures
            final(self).wf(),
            final(self).queue.entries@ == old(self).queue.entries@.filter(other_tasks(tid)),
            final(self).queue.enqueue_order == old(self).queue.enqueue_order,
            !is_in(final(self).queue.entries@, tid),
    {
        self.queue.remove(tid);
    }

    /// Adds a task; one that is there stays where it is.
    pub fn add_task(&mut self, tid: u64, policy: i64, priority: i32)
        requires
            old(self).wf(),
        ensures
            final(self).wf(),
            if is_in(old(self).queue.entries@, tid) {
                *final(self) == *old(self)
            } else {
                final(self).queue.entries@ == old(self).queue.entries@.push(
                    ReadyEntry {
                        class: sched_rank(policy, priority).0,
                        priority: sched_rank(policy, priority).1,
                        order: old(self).queue.enqueue_order,
                        tid,
                    },
                ) && final(self).queue.enqueue_order == (old(self).queue.enqueue_order + 1)
                    % 0x1_0000_0000_0000_0000
            },
    {
        let (class, level) = task_sched_rank(policy, priority);
        self.queue.push(tid, class, level);
    }

    /// Takes a task out, where it is known.
    pub fn take_task(&mut self, tid: u64, known: bool) -> (taken: Option<u64>)
        requires
            old(self).wf(),
        ensures
            final(self).wf(),
            taken == if known {
                Some(tid)
            } else {
                None
            },
            final(self).queue.entries@ == if known {
                old(self).queue.entries@.filter(other_tasks(tid))
            } else {
                old(self).queue.entries@
            },
            final(self).queue.enqueue_order == old(self).queue.enqueue_order,
    {
        if known {
            self.queue.remove(tid);
            Some(tid)
        } else {
            None
        }
    }

    /// Takes the task out that goes first.
    pub fn take_a_task(&mut self) -> (tid: Option<u64>)
        requires
            old(self).wf(),
        ensures
            final(self).wf(),
            final(self).queue.enqueue_order == old(self).queue.enqueue_order,
            match tid {
                None => old(self).queue.entries@.len() == 0 && final(self).queue.entries@.len()
                    == 0,
                Some(t) => first_taken(old(self).queue.entries@, final(self).queue.entries@, t),
            },
    {
        self.queue.pop()
    }

    /// Returns the tasks, which stay.
    pub fn get_task_list(&self) -> (tids: Vec<u64>)
        ensures
            tids@ == self.queue.entries@.map_values(|entry: ReadyEntry| entry.tid),
    {
        let ghost all = self.queue.entries@.map_values(|entry: ReadyEntry| entry.tid);
        let mut tids: Vec<u64> = Vec::new();
        let mut i: usize = 0;
        while i < self.queue.entries.len()
            invariant
                i <= self.queue.entries@.len(),
                all == self.queue.entries@.map_values(|entry: ReadyEntry| entry.tid),
                tids@ == all.take(i as int),
            decreases self.queue.entries@.len() - i,
        {
            tids.push(self.queue.entries[i].tid);
            i = i + 1;
            assert(tids@ =~= all.take(i as int));
        }
        assert(tids@ =~= all);
        tids
    }

    /// Puts a task that can run back, behind those that came before.
    pub fn add_task_into_pool(&mut self, tid: u64, policy: i64, priority: i32)
        requires
            old(self).wf(),
        ensures
            final(self).wf(),
            final(self).queue.entries@ == old(self).queue.entries@.filter(other_tasks(tid)).push(
                ReadyEntry {
                    class: sched_rank(policy, priority).0,
                    priority: sched_rank(policy, priority).1,
                    order: old(self).queue.enqueue_order,
                    tid,
                },
            ),
            final(self).queue.enqueue_order == (old(self).queue.enqueue_order + 1)
                % 0x1_0000_0000_0000_0000,
    {
        self.remove_task(tid);
        self.add_task(tid, policy, priority);
    }

    /// Returns all tasks in the order in which they go, and takes them out.
    pub fn auto_get_task(&mut self) -> (tids: Vec<u64>)
        requires
            old(self).wf(),
        ensures
            final(self).wf(),
            final(self).queue.entries@.len() == 0,
            final(self).queue.enqueue_order == old(self).queue.enqueue_order,
            tids@.len() == old(self).queue.entries@.len(),
            taken_in_order(old(self).queue.entries@, tids@),
    {
        let mut tids: Vec<u64> = Vec::new();
        let ghost s = self.queue.entries@;
        let ghost mut left: Seq<Seq<ReadyEntry>> = seq![s];
        loop
            invariant
                self.wf(),
                self.queue.enqueue_order == old(self).queue.enqueue_order,
                left.len() == tids@.len() + 1,
                left[0] == s,
                left.last() == self.queue.entries@,
                self.queue.entries@.len() + tids@.len() == s.len(),
                s == old(self).queue.entries@,
                forall|i: int|
                    0 <= i < tids@.len() ==> first_taken(
                        #[trigger] left[i],
                        left[i + 1],
                        tids@[i],
                    ),
            decreases self.queue.entries@.len(),
        {
            match self.take_a_task() {
                None => {
                    assert(taken_in_order(s, tids@)) by {
                        assert(steps_of(left, s, tids@));
                    }
                    return tids;
                },
                Some(tid) => {
                    let ghost before = left;
                    let ghost count = tids@.len() as int;
                    tids.push(tid);
                    proof {
                        left = left.push(self.queue.entries@);
                        assert forall|i: int| 0 <= i < tids@.len() implies first_taken(
                            #[trigger] left[i],
                            left[i + 1],
                            tids@[i],
                        ) by {
                            assert(left[i] == before[i]);
                            if i < count {
                                assert(left[i + 1] == before[i + 1]);
                            }
                        }
                    }
                },
            }
        }
    }
}

/// The queues between steps.
pub open spec fn steps_of(left: Seq<Seq<ReadyEntry>>, s: Seq<ReadyEntry>, tids: Seq<u64>) -> bool {
    &&& left.len() == tids.len() + 1
    &&& left[0] == s
    &&& left.last().len() == 0
    &&& forall|i: int|
        0 <= i < tids.len() ==> first_taken(#[trigger] left[i], left[i + 1], tids[i])
}

/// The tasks are those of a queue, each the one that goes first of those that are left.
pub open spec fn taken_in_order(s: Seq<ReadyEntry>, tids: Seq<u64>) -> bool {
    exists|left: Seq<Seq<ReadyEntry>>| #[trigger] steps_of(left, s, tids)
}

/// The other tasks stay where one is taken out.
proof fn lemma_taken(before: Seq<ReadyEntry>, after: Seq<ReadyEntry>, tid: u64)
    requires
        first_taken(before, after, tid),
    ensures
        forall|t: u64| #[trigger] is_in(before, t) <==> is_in(after, t) || t == tid,
{
    let k = choose|k: int|
        {
            &&& 0 <= k < before.len()
            &&& (#[trigger] before[k]).tid == tid
            &&& forall|i: int|
                0 <= i < before.len() ==> goes_first(before[k], #[trigger] before[i])
            &&& after == before.remove(k)
        };
    assert forall|t: u64| #[trigger] is_in(before, t) <==> is_in(after, t) || t == tid by {
        if is_in(before, t) {
            let i = choose|i: int| 0 <= i < before.len() && (#[trigger] before[i]).tid == t;
            if i < k {
                assert(after[i] == before[i]);
            } else if i > k {
                assert(after[i - 1] == before[i]);
            }
        }
        if is_in(after, t) {
            let i = choose|i: int| 0 <= i < after.len() && (#[trigger] after[i]).tid == t;
            if i < k {
                assert(after[i] == before[i]);
            } else {
                assert(after[i] == before[i + 1]);
            }
        }
    }
}

/// A task that was added is there, and so are those that were.
proof fn lemma_added(
    before: TaskManager,
    after: TaskManager,
    tid: u64,
    policy: i64,
    priority: i32,
    t: u64,
)
    requires
        task_added(before, after, tid, policy, priority),
    ensures
        is_in(after.ready_queue.entries@, t) <==> is_in(before.ready_queue.entries@, t) || t == tid,
{
    let s = before.ready_queue.entries@;
    let n = after.ready_queue.entries@;
    if !is_in(s, tid) {
        if is_in(n, t) {
            let i = choose|i: int| 0 <= i < n.len() && (#[trigger] n[i]).tid == t;
            if i < s.len() {
                assert(s[i] == n[i]);
            }
        }
        if is_in(s, t) {
            let i = choose|i: int| 0 <= i < s.len() && (#[trigger] s[i]).tid == t;
            assert(n[i] == s[i]);
        }
        assert(n[s.len() as int].tid == tid);
    }
}

/// The class and the priority of a task; those of an ordinary one where they are not known.
pub open spec fn rank_of(ranks: Map<u64, (i64, i32)>, tid: u64) -> (i64, i32) {
    if ranks.contains_key(tid) {
        ranks[tid]
    } else {
        (0i64, 0i32)
    }
}

/// A processor has got tasks of the pool, those that go first before the others, until it has
/// enough or the pool is empty.
pub open spec fn refilled(
    manager: TaskManager,
    pool: Seq<ReadyEntry>,
    ranks: Map<u64, (i64, i32)>,
    manager_after: TaskManager,
    pool_after: Seq<ReadyEntry>,
) -> bool
    decreases pool.len(),
{
    if manager.ready_queue.entries@.len() >= LOCAL_QUEUE_REFILL_TARGET || pool.len() == 0 {
        manager_after == manager && pool_after == pool
    } else {
        exists|mid: TaskManager, rest: Seq<ReadyEntry>, tid: u64|
            rest.len() < pool.len() && #[trigger] first_taken(pool, rest, tid)
                && #[trigger] task_added(
                manager,
                mid,
                tid,
                rank_of(ranks, tid).0,
                rank_of(ranks, tid).1,
            ) && refilled(mid, rest, ranks, manager_after, pool_after)
    }
}

/// No task is lost or made where a processor gets tasks of the pool.
pub proof fn law_refill_keeps_tasks(
    manager: TaskManager,
    pool: Seq<ReadyEntry>,
    ranks: Map<u64, (i64, i32)>,
    manager_after: TaskManager,
    pool_after: Seq<ReadyEntry>,
    t: u64,
)
    requires
        refilled(manager, pool, ranks, manager_after, pool_after),
    ensures
        is_in(manager.ready_queue.entries@, t) || is_in(pool, t) <==> is_in(
            manager_after.ready_queue.entries@,
            t,
        ) || is_in(pool_after, t),
        manager_after.ready_queue.entries@.len() >= LOCAL_QUEUE_REFILL_TARGET || pool_after.len()
            == 0,
    decreases pool.len(),
{
    if !(manager.ready_queue.entries@.len() >= LOCAL_QUEUE_REFILL_TARGET || pool.len() == 0) {
        let (mid, rest, tid) = choose|mid: TaskManager, rest: Seq<ReadyEntry>, tid: u64|
            rest.len() < pool.len() && #[trigger] first_taken(pool, rest, tid)
                && #[trigger] task_added(
                manager,
                mid,
                tid,
                rank_of(ranks, tid).0,
                rank_of(ranks, tid).1,
            ) && refilled(mid, rest, ranks, manager_after, pool_after);
        law_refill_keeps_tasks(mid, rest, ranks, manager_after, pool_after, t);
        lemma_taken(pool, rest, tid);
        let (policy, priority) = rank_of(ranks, tid);
        lemma_added(manager, mid, tid, policy, priority, t);
        assert(is_in(pool, t) <==> is_in(rest, t) || t == tid);
    }
}

/// Gives a processor tasks where it has few.
pub fn current_add_tasks(
    manager: &mut TaskManager,
    pool: &mut TaskPool,
    policy_of: &std::collections::BTreeMap<u64, (i64, i32)>,
)
    requires
        old(manager).wf(),
        old(pool).wf(),
    ensures
        final(manager).wf(),
        final(pool).wf(),
        final(pool).queue.enqueue_order == old(pool).queue.enqueue_order,
        if old(manager).ready_queue.entries@.len() >= LOCAL_QUEUE_LOW_WATERMARK {
            *final(manager) == *old(manager) && *final(pool) == *old(pool)
        } else {
            refilled(
                *old(manager),
                old(pool).queue.entries@,
                policy_of@,
                *final(manager),
                final(pool).queue.entries@,
            )
        },
{
    if manager.task_count() >= LOCAL_QUEUE_LOW_WATERMARK {
        return;
    }
    loop
        invariant
            manager.wf(),
            pool.wf(),
            pool.queue.enqueue_order == old(pool).queue.enqueue_order,
            forall|manager_after: TaskManager, pool_after: Seq<ReadyEntry>| #[trigger]
                refilled(*manager, pool.queue.entries@, policy_of@, manager_after, pool_after)
                    ==> refilled(
                    *old(manager),
                    old(pool).queue.entries@,
                    policy_of@,
                    manager_after,
                    pool_after,
                ),
            old(manager).ready_queue.entries@.len() < LOCAL_QUEUE_LOW_WATERMARK,
        decreases pool.queue.entries@.len(),
    {
        let ghost m0 = *manager;
        let ghost p0 = pool.queue.entries@;
        if manager.task_count() >= LOCAL_QUEUE_REFILL_TARGET {
            assert(refilled(m0, p0, policy_of@, *manager, pool.queue.entries@));
            return;
        }
        match pool.take_a_task() {
            None => {
                assert(pool.queue.entries@ =~= p0);
                assert(refilled(m0, p0, policy_of@, *manager, pool.queue.entries@));
                return;
            },
            Some(tid) => {
                let (policy, priority) = match policy_of.get(&tid) {
                    Some(found) => *found,
                    None => (0i64, 0i32),
                };
                manager.add(tid, policy, priority);
                proof {
                    assert(first_taken(p0, pool.queue.entries@, tid));
                    assert((policy, priority) == rank_of(policy_of@, tid));
                    assert(task_added(m0, *manager, tid, policy, priority));
                    assert forall|manager_after: TaskManager, pool_after: Seq<ReadyEntry>|
                        #[trigger] refilled(
                            *manager,
                            pool.queue.entries@,
                            policy_of@,
                            manager_after,
                            pool_after,
                        ) implies refilled(
                        *old(manager),
                        old(pool).queue.entries@,
                        policy_of@,
                        manager_after,
                        pool_after,
                    ) by {
                        assert(refilled(m0, p0, policy_of@, manager_after, pool_after));
                    }
                }
            },
        }
    }
}

/// All managers are in order.
pub open spec fn all_wf(managers: Seq<TaskManager>) -> bool {
    forall|i: int| 0 <= i < managers.len() ==> (#[trigger] managers[i]).wf()
}

/// The number of tasks that wait for the first processors.
pub open spec fn waiting(managers: Seq<TaskManager>) -> nat
    decreases managers.len(),
{
    if managers.len() == 0 {
        0
    } else {
        waiting(managers.drop_last()) + managers.last().ready_queue.entries@.len()
    }
}

proof fn lemma_waiting(managers: Seq<TaskManager>, i: int)
    requires
        0 <= i <= managers.len(),
    ensures
        waiting(managers.take(i)) <= waiting(managers),
    decreases managers.len() - i,
{
    if i < managers.len() {
        lemma_waiting(managers, i + 1);
        assert(managers.take(i + 1).drop_last() =~= managers.take(i));
    } else {
        assert(managers.take(i) =~= managers);
    }
}

/// Returns how many tasks wait for one of the processors.
pub fn get_task_count(managers: &Vec<TaskManager>) -> (count: usize)
    requires
        waiting(managers@) <= usize::MAX,
    ensures
        count == waiting(managers@),
{
    let mut sum: usize = 0;
    let mut i: usize = 0;
    assert(managers@.take(0) =~= Seq::<TaskManager>::empty());
    while i < managers.len()
        invariant
            i <= managers@.len(),
            waiting(managers@) <= usize::MAX,
            sum == waiting(managers@.take(i as int)),
        decreases managers@.len() - i,
    {
        proof {
            lemma_waiting(managers@, i + 1);
            assert(managers@.take(i + 1).drop_last() =~= managers@.take(i as int));
        }
        sum = sum + managers[i].task_count();
        i = i + 1;
    }
    assert(managers@.take(managers@.len() as int) =~= managers@);
    sum
}

/// A task was taken out of all queues.
pub open spec fn removed_everywhere(
    before: Seq<TaskManager>,
    after: Seq<TaskManager>,
    tid: u64,
) -> bool {
    &&& after.len() == before.len()
    &&& forall|i: int|
        0 <= i < after.len() ==> (#[trigger] after[i]).ready_queue.entries@
            == before[i].ready_queue.entries@.filter(other_tasks(tid))
}

/// Takes a task out of the queues of all processors.
pub fn remove_task_from_all_local_queues(managers: &mut Vec<TaskManager>, tid: u64)
    requires
        all_wf(old(managers)@),
    ensures
        all_wf(final(managers)@),
        removed_everywhere(old(managers)@, final(managers)@, tid),
        forall|i: int|
            0 <= i < final(managers)@.len() ==> (#[trigger] final(managers)@[i]).ready_queue.enqueue_order == old(managers)@[i].ready_queue.enqueue_order
                && !is_in(final(managers)@[i].ready_queue.entries@, tid),
{
    let mut i: usize = 0;
    while i < managers.len()
        invariant
            i <= managers@.len(),
            managers@.len() == old(managers)@.len(),
            all_wf(managers@),
            all_wf(old(managers)@),
            forall|k: int|
                i <= k < managers@.len() ==> #[trigger] managers@[k] == old(managers)@[k],
            forall|k: int|
                0 <= k < i ==> (#[trigger] managers@[k]).ready_queue.entries@
                    == old(managers)@[k].ready_queue.entries@.filter(other_tasks(tid))
                    && managers@[k].ready_queue.enqueue_order
                    == old(managers)@[k].ready_queue.enqueue_order && !is_in(
                    managers@[k].ready_queue.entries@,
                    tid,
                ),
        decreases managers@.len() - i,
    {
        assert(managers@[i as int].wf());
        managers[i].remove(tid);
        i = i + 1;
    }
}

/// Where the processes and threads are known, and where the ready threads wait.
pub struct TaskTables {
    pub processes: ProcessManager,
    pub threads: Registry,
    pub managers: Vec<TaskManager>,
    pub pool: TaskPool,
}

/// A thread is known and waits for any processor, behind those that wait; nothing else changed.
pub open spec fn task_handed_over(
    before: TaskTables,
    after: TaskTables,
    tid: u64,
    tgid: u64,
    policy: i64,
    priority: i32,
) -> bool {
    &&& after.pool.queue.entries@ == before.pool.queue.entries@.filter(other_tasks(tid)).push(
        ReadyEntry {
            class: sched_rank(policy, priority).0,
            priority: sched_rank(policy, priority).1,
            order: before.pool.queue.enqueue_order,
            tid,
        },
    )
    &&& after.pool.queue.enqueue_order == (before.pool.queue.enqueue_order + 1)
        % 0x1_0000_0000_0000_0000
    &&& removed_everywhere(before.managers@, after.managers@, tid)
    &&& forall|e: Entry| #[trigger]
        after.threads@.contains(e) <==> e == (Entry { tid, tgid }) || (before.threads@.contains(e)
            && e.tid != tid)
}

impl TaskTables {
    /// The tables are in order.
    pub open spec fn wf(&self) -> bool {
        &&& self.processes.wf()
        &&& self.threads.wf()
        &&& all_wf(self.managers@)
        &&& self.pool.wf()
    }

    /// Makes a thread known and lets it wait for any processor.
    pub fn add_task(&mut self, tid: u64, tgid: u64, policy: i64, priority: i32)
        requires
            old(self).wf(),
        ensures
            final(self).wf(),
            task_handed_over(*old(self), *final(self), tid, tgid, policy, priority),
            final(self).processes == old(self).processes,
    {
        self.threads.add_task(tid, tgid);
        remove_task_from_all_local_queues(&mut self.managers, tid);
        self.pool.add_task_into_pool(tid, policy, priority);
    }
}

/// Lets a task wait for one processor, and for no other.
pub fn add_task_in_current_hart(
    managers: &mut Vec<TaskManager>,
    pool: &mut TaskPool,
    hart: usize,
    tid: u64,
    policy: i64,
    priority: i32,
)
    requires
        all_wf(old(managers)@),
        old(pool).wf(),
        hart < old(managers)@.len(),
    ensures
        all_wf(final(managers)@),
        final(pool).wf(),
        final(pool).queue.entries@ == old(pool).queue.entries@.filter(other_tasks(tid)),
        final(managers)@.len() == old(managers)@.len(),
        forall|i: int|
            0 <= i < final(managers)@.len() ==> (#[trigger] final(managers)@[i]).ready_queue.entries@
                == if i == hart {
                old(managers)@[i].ready_queue.entries@.filter(other_tasks(tid)).push(
                    ReadyEntry {
                        class: 0,
                        priority: flat_priority(sched_rank(policy, priority)),
                        order: old(managers)@[i].ready_queue.enqueue_order,
                        tid,
                    },
                )
            } else {
                old(managers)@[i].ready_queue.entries@.filter(other_tasks(tid))
            },
{
    remove_task_from_all_local_queues(managers, tid);
    pool.remove_task(tid);
    assert(managers@[hart as int].wf());
    managers[hart].add(tid, policy, priority);
}

/// A processor has got the task that goes first of those in the pool, where there is one.
pub open spec fn core_fetched(
    before: TaskManager,
    after: TaskManager,
    pool: Seq<ReadyEntry>,
    pool_after: Seq<ReadyEntry>,
    ranks: Map<u64, (i64, i32)>,
) -> bool {
    if pool.len() == 0 {
        pool_after == pool && after == before
    } else {
        exists|tid: u64| #[trigger]
            first_taken(pool, pool_after, tid) && task_added(
                before,
                after,
                tid,
                rank_of(ranks, tid).0,
                rank_of(ranks, tid).1,
            )
    }
}

/// Gives every processor one task of the pool, from the first processor on.
pub fn cores_fetch_task(
    managers: &mut Vec<TaskManager>,
    pool: &mut TaskPool,
    policy_of: &std::collections::BTreeMap<u64, (i64, i32)>,
)
    requires
        all_wf(old(managers)@),
        old(pool).wf(),
    ensures
        all_wf(final(managers)@),
        final(pool).wf(),
        final(managers)@.len() == old(managers)@.len(),
        exists|pools: Seq<Seq<ReadyEntry>>| #[trigger]
            fetched_in_turn(
                pools,
                old(managers)@,
                final(managers)@,
                old(pool).queue.entries@,
                final(pool).queue.entries@,
                policy_of@,
            ),
{
    let ghost mut pools: Seq<Seq<ReadyEntry>> = seq![pool.queue.entries@];
    let mut i: usize = 0;
    while i < managers.len()
        invariant
            i <= managers@.len(),
            managers@.len() == old(managers)@.len(),
            all_wf(managers@),
            pool.wf(),
            pools.len() == i + 1,
            pools[0] == old(pool).queue.entries@,
            pools[i as int] == pool.queue.entries@,
            forall|k: int|
                i <= k < managers@.len() ==> #[trigger] managers@[k] == old(managers)@[k],
            forall|k: int|
                0 <= k < i ==> core_fetched(
                    old(managers)@[k],
                    #[trigger] managers@[k],
                    pools[k],
                    pools[k + 1],
                    policy_of@,
                ),
        decreases managers@.len() - i,
    {
        let ghost before = managers@;
        let ghost p0 = pool.queue.entries@;
        assert(managers@[i as int].wf());
        match pool.take_a_task() {
            None => {
                assert(pool.queue.entries@ =~= p0);
            },
            Some(tid) => {
                let (policy, priority) = match policy_of.get(&tid) {
                    Some(found) => *found,
                    None => (0i64, 0i32),
                };
                managers[i].add(tid, policy, priority);
                proof {
                    assert((policy, priority) == rank_of(policy_of@, tid));
                    assert(first_taken(p0, pool.queue.entries@, tid));
                }
            },
        }
        proof {
            let old_pools = pools;
            pools = pools.push(pool.queue.entries@);
            assert(core_fetched(
                old(managers)@[i as int],
                managers@[i as int],
                pools[i as int],
                pools[i + 1],
                policy_of@,
            ));
            assert forall|k: int| 0 <= k < i + 1 implies core_fetched(
                old(managers)@[k],
                #[trigger] managers@[k],
                pools[k],
                pools[k + 1],
                policy_of@,
            ) by {
                if k < i {
                    assert(managers@[k] == before[k]);
                    assert(pools[k] == old_pools[k] && pools[k + 1] == old_pools[k + 1]);
                }
            }
        }
        i = i + 1;
    }
    assert(fetched_in_turn(
        pools,
        old(managers)@,
        managers@,
        old(pool).queue.entries@,
        pool.queue.entries@,
        policy_of@,
    ));
}

/// Every processor has got a task of what those before it left.
pub open spec fn fetched_in_turn(
    pools: Seq<Seq<ReadyEntry>>,
    before: Seq<TaskManager>,
    after: Seq<TaskManager>,
    pool: Seq<ReadyEntry>,
    pool_after: Seq<ReadyEntry>,
    ranks: Map<u64, (i64, i32)>,
) -> bool {
    &&& pools.len() == before.len() + 1
    &&& pools[0] == pool
    &&& pools.last() == pool_after
    &&& forall|k: int|
        0 <= k < before.len() ==> core_fetched(
            before[k],
            #[trigger] after[k],
            pools[k],
            pools[k + 1],
            ranks,
        )
}

} // verus!
