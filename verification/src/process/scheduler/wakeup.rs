//! Tasks that have slept long enough.

use vstd::prelude::*;

use super::nanosleep::{first_due, none_due, SleepEntry, SleepQueue};
use super::runqueue::{known_policy, woken, Enqueued, RqArray, SchedTask};
use std::collections::BTreeMap;

verus! {

broadcast use {vstd::std_specs::btree::group_btree_axioms, vstd::laws_cmp::group_laws_cmp};

/// The processors to be sent an interrupt, and one more where there is one.
pub open spec fn kicks_and(kicks: Seq<u64>, result: Enqueued) -> Seq<u64> {
    match result.kick {
        Some(cpu) => kicks.push(cpu),
        None => kicks,
    }
}

/// What comes of waking the tasks whose time has come, one after the other. A task that is not
/// known any more is dropped.
pub open spec fn all_woken(
    entries: Seq<SleepEntry>,
    array: RqArray,
    tasks: Map<u64, SchedTask>,
    kicks: Seq<u64>,
    now_ns: u64,
    cpu: u64,
    entries_after: Seq<SleepEntry>,
    array_after: RqArray,
    tasks_after: Map<u64, SchedTask>,
    kicks_after: Seq<u64>,
) -> bool
    decreases entries.len(),
{
    if none_due(entries, now_ns) {
        &&& entries_after == entries
        &&& array_after == array
        &&& tasks_after == tasks
        &&& kicks_after == kicks
    } else {
        exists|rest: Seq<SleepEntry>, tid: u64|
            #![trigger first_due(entries, rest, tid, now_ns)]
            rest.len() < entries.len() && first_due(entries, rest, tid, now_ns) && if tasks.contains_key(
                tid,
            ) {
                exists|mid: RqArray, task: SchedTask, result: Enqueued|
                    #[trigger] woken(array, mid, tasks[tid], task, cpu, cpu, result) && all_woken(
                        rest,
                        mid,
                        tasks.insert(tid, task),
                        kicks_and(kicks, result),
                        now_ns,
                        cpu,
                        entries_after,
                        array_after,
                        tasks_after,
                        kicks_after,
                    )
            } else {
                all_woken(
                    rest,
                    array,
                    tasks,
                    kicks,
                    now_ns,
                    cpu,
                    entries_after,
                    array_after,
                    tasks_after,
                    kicks_after,
                )
            }
    }
}

/// Every queue can take so many more.
pub open spec fn room_for(array: RqArray, n: int) -> bool {
    forall|i: int|
        0 <= i < array.rqs@.len() ==> (#[trigger] array.rqs@[i]).nr_running + n <= usize::MAX
}

/// All tasks are of a kind that can be queued.
pub open spec fn all_known(tasks: Map<u64, SchedTask>) -> bool {
    forall|tid: u64| tasks.contains_key(tid) ==> known_policy((#[trigger] tasks[tid]).policy)
}

/// Waking a task takes one place at most, and leaves the kind of the task.
proof fn lemma_woken(
    before: RqArray,
    after: RqArray,
    task: SchedTask,
    task_after: SchedTask,
    cpu: u64,
    result: Enqueued,
    n: int,
)
    requires
        woken(before, after, task, task_after, cpu, cpu, result),
        room_for(before, n),
    ensures
        room_for(after, n - 1),
        task_after.policy == task.policy,
{
    assert forall|i: int| 0 <= i < after.rqs@.len() implies (
    #[trigger] after.rqs@[i]).nr_running + (n - 1) <= usize::MAX by {
        assert(before.rqs@[i].nr_running + n <= usize::MAX);
    }
}

impl SleepQueue {
    /// Wakes the tasks whose time has come; returns the processors to be sent an interrupt.
    pub fn wake_expired_sleep_tasks(
        &mut self,
        array: &mut RqArray,
        tasks: &mut BTreeMap<u64, SchedTask>,
        now_ns: u64,
        cpu: u64,
    ) -> (kicks: Vec<u64>)
        requires
            old(self).wf(),
            old(array).wf(),
            room_for(*old(array), old(self).entries@.len() as int),
            all_known(old(tasks)@),
        ensures
            final(self).wf(),
            final(array).wf(),
            final(self).enqueue_order == old(self).enqueue_order,
            all_woken(
                old(self).entries@,
                *old(array),
                old(tasks)@,
                Seq::empty(),
                now_ns,
                cpu,
                final(self).entries@,
                *final(array),
                final(tasks)@,
                kicks@,
            ),
    {
        let mut kicks: Vec<u64> = Vec::new();
        loop
            invariant
                self.wf(),
                array.wf(),
                self.enqueue_order == old(self).enqueue_order,
                room_for(*array, self.entries@.len() as int),
                all_known(tasks@),
                forall|
                    entries_after: Seq<SleepEntry>,
                    array_after: RqArray,
                    tasks_after: Map<u64, SchedTask>,
                    kicks_after: Seq<u64>,
                |
                    #[trigger] all_woken(
                        self.entries@,
                        *array,
                        tasks@,
                        kicks@,
                        now_ns,
                        cpu,
                        entries_after,
                        array_after,
                        tasks_after,
                        kicks_after,
                    ) ==> all_woken(
                        old(self).entries@,
                        *old(array),
                        old(tasks)@,
                        Seq::empty(),
                        now_ns,
                        cpu,
                        entries_after,
                        array_after,
                        tasks_after,
                        kicks_after,
                    ),
            decreases self.entries@.len(),
        {
            let ghost entries = self.entries@;
            let ghost a0 = *array;
            let ghost t0 = tasks@;
            let ghost k0 = kicks@;
            let tid: u64 = match self.pop_expired(now_ns) {
                None => {
                    assert(all_woken(
                        entries,
                        a0,
                        t0,
                        k0,
                        now_ns,
                        cpu,
                        self.entries@,
                        *array,
                        tasks@,
                        kicks@,
                    ));
                    return kicks;
                },
                Some(tid) => tid,
            };
            let found: Option<SchedTask> = match tasks.get(&tid) {
                None => None,
                Some(task) => Some(*task),
            };
            if let Some(task) = found {
                let mut task = task;
                let ghost sleeping = task;
                let result = array.wake_up_task(&mut task, cpu, cpu);
                proof {
                    lemma_woken(a0, *array, sleeping, task, cpu, result, entries.len() as int);
                    assert(woken(a0, *array, t0[tid], task, cpu, cpu, result));
                }
                tasks.insert(tid, task);
                if let Some(other) = result.kick {
                    kicks.push(other);
                }
                assert(kicks@ == kicks_and(k0, result));
                assert(tasks@ == t0.insert(tid, task));
            }
            proof {
                assert(first_due(entries, self.entries@, tid, now_ns));
                assert forall|
                    entries_after: Seq<SleepEntry>,
                    array_after: RqArray,
                    tasks_after: Map<u64, SchedTask>,
                    kicks_after: Seq<u64>,
                | #[trigger]
                    all_woken(
                        self.entries@,
                        *array,
                        tasks@,
                        kicks@,
                        now_ns,
                        cpu,
                        entries_after,
                        array_after,
                        tasks_after,
                        kicks_after,
                    ) implies all_woken(
                    old(self).entries@,
                    *old(array),
                    old(tasks)@,
                    Seq::empty(),
                    now_ns,
                    cpu,
                    entries_after,
                    array_after,
                    tasks_after,
                    kicks_after,
                ) by {
                    assert(all_woken(
                        entries,
                        a0,
                        t0,
                        k0,
                        now_ns,
                        cpu,
                        entries_after,
                        array_after,
                        tasks_after,
                        kicks_after,
                    ));
                }
            }
        }
    }
}

/// Once the tasks whose time has come are woken, nobody sleeps whose time has come.
pub proof fn law_none_oversleeps(
    entries: Seq<SleepEntry>,
    array: RqArray,
    tasks: Map<u64, SchedTask>,
    kicks: Seq<u64>,
    now_ns: u64,
    cpu: u64,
    entries_after: Seq<SleepEntry>,
    array_after: RqArray,
    tasks_after: Map<u64, SchedTask>,
    kicks_after: Seq<u64>,
)
    requires
        all_woken(
            entries,
            array,
            tasks,
            kicks,
            now_ns,
            cpu,
            entries_after,
            array_after,
            tasks_after,
            kicks_after,
        ),
    ensures
        none_due(entries_after, now_ns),
    decreases entries.len(),
{
    if !none_due(entries, now_ns) {
        let (rest, tid) = choose|rest: Seq<SleepEntry>, tid: u64|
            #![trigger first_due(entries, rest, tid, now_ns)]
            rest.len() < entries.len() && first_due(entries, rest, tid, now_ns) && if tasks.contains_key(
                tid,
            ) {
                exists|mid: RqArray, task: SchedTask, result: Enqueued|
                    #[trigger] woken(array, mid, tasks[tid], task, cpu, cpu, result) && all_woken(
                        rest,
                        mid,
                        tasks.insert(tid, task),
                        kicks_and(kicks, result),
                        now_ns,
                        cpu,
                        entries_after,
                        array_after,
                        tasks_after,
                        kicks_after,
                    )
            } else {
                all_woken(
                    rest,
                    array,
                    tasks,
                    kicks,
                    now_ns,
                    cpu,
                    entries_after,
                    array_after,
                    tasks_after,
                    kicks_after,
                )
            };
        if tasks.contains_key(tid) {
            let (mid, task, result) = choose|mid: RqArray, task: SchedTask, result: Enqueued|
                #[trigger] woken(array, mid, tasks[tid], task, cpu, cpu, result) && all_woken(
                    rest,
                    mid,
                    tasks.insert(tid, task),
                    kicks_and(kicks, result),
                    now_ns,
                    cpu,
                    entries_after,
                    array_after,
                    tasks_after,
                    kicks_after,
                );
            law_none_oversleeps(
                rest,
                mid,
                tasks.insert(tid, task),
                kicks_and(kicks, result),
                now_ns,
                cpu,
                entries_after,
                array_after,
                tasks_after,
                kicks_after,
            );
        } else {
            law_none_oversleeps(
                rest,
                array,
                tasks,
                kicks,
                now_ns,
                cpu,
                entries_after,
                array_after,
                tasks_after,
                kicks_after,
            );
        }
    }
}

} // verus!
