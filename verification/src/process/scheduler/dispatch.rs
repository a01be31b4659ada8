//! Which task a processor runs next, from its own queues or those of another.

use vstd::prelude::*;

use super::cfs_rq::{at_top, stands_in, weight_of, Queued, BOOST_INTERVAL};
use super::idle_rq::{busiest, busiest_cpu, law_busiest_in};
use super::runqueue::{
    allowed, boosted, counted_on, counted_weight, cpu_allowed, in_queue, kicked, known_policy, must_kick,
    popped, queued, stays_empty, task_weight_from_value, uncounted_on, RqArray, RqView, Rqinner, SchedTask,
    StealResult,
};
use crate::process::task::status::TaskStatus;
use std::collections::BTreeMap;

verus! {

broadcast use {vstd::std_specs::btree::group_btree_axioms, vstd::laws_cmp::group_laws_cmp};

/// The task has ended, or is not known any more.
pub open spec fn is_over(tasks: Map<u64, SchedTask>, tid: u64) -> bool {
    !tasks.contains_key(tid) || tasks[tid].state == TaskStatus::Zombie
}

/// A task that a processor runs.
pub open spec fn running_on(task: SchedTask, cpu: u64) -> SchedTask {
    SchedTask {
        on_rq: false,
        cpu,
        on_cpu: true,
        state: TaskStatus::Running,
        need_resched: false,
        ..task
    }
}

/// A task that ended and left its queue.
pub open spec fn left(task: SchedTask) -> SchedTask {
    SchedTask { on_rq: false, on_cpu: false, ..task }
}

/// What comes of taking tasks out of the queues of a processor, one after the other, until one
/// has not ended: those that have do not count any more.
pub open spec fn fetched(
    rq: Rqinner,
    views: Seq<RqView>,
    tasks: Map<u64, SchedTask>,
    cpu: u64,
    rq_after: Rqinner,
    views_after: Seq<RqView>,
    tasks_after: Map<u64, SchedTask>,
    tid: Option<u64>,
) -> bool
    decreases rq.count(),
{
    if rq.count() == 0 {
        &&& tid is None
        &&& stays_empty(rq, rq_after)
        &&& views_after == views
        &&& tasks_after == tasks
    } else {
        exists|mid: Rqinner, next: Queued| #[trigger]
            popped(rq, tasks, mid, next) && mid.count() < rq.count() && if is_over(tasks, next.tid) {
                fetched(
                    mid,
                    uncounted_on(views, cpu as int, counted_weight(weight_of(tasks, next))),
                    passed_over(boosted(rq, tasks), next.tid),
                    cpu,
                    rq_after,
                    views_after,
                    tasks_after,
                    tid,
                )
            } else {
                &&& tid == Some(next.tid)
                &&& rq_after == mid
                &&& views_after == views
                &&& tasks_after == boosted(rq, tasks).insert(
                    next.tid,
                    running_on(boosted(rq, tasks)[next.tid], cpu),
                )
            }
    }
}

/// The tasks after one that has ended left its queue.
pub open spec fn passed_over(tasks: Map<u64, SchedTask>, tid: u64) -> Map<u64, SchedTask> {
    if tasks.contains_key(tid) {
        tasks.insert(tid, left(tasks[tid]))
    } else {
        tasks
    }
}

/// A processor runs no task that has ended, and a task that it is given was known.
pub proof fn law_fetched_alive(
    rq: Rqinner,
    views: Seq<RqView>,
    tasks: Map<u64, SchedTask>,
    cpu: u64,
    rq_after: Rqinner,
    views_after: Seq<RqView>,
    tasks_after: Map<u64, SchedTask>,
    tid: Option<u64>,
)
    requires
        fetched(rq, views, tasks, cpu, rq_after, views_after, tasks_after, tid),
    ensures
        tid matches Some(t) ==> !is_over(tasks, t) && (tasks_after[t] == running_on(tasks[t], cpu)
            || tasks_after[t] == running_on(at_top(tasks[t]), cpu)) && rq_after.count()
            < rq.count(),
        tid is None ==> rq_after.count() == 0,
        tasks_after.dom() == tasks.dom(),
    decreases rq.count(),
{
    if rq.count() > 0 {
        let (mid, next) = choose|mid: Rqinner, next: Queued| #[trigger]
            popped(rq, tasks, mid, next) && mid.count() < rq.count() && if is_over(tasks, next.tid) {
                fetched(
                    mid,
                    uncounted_on(views, cpu as int, counted_weight(weight_of(tasks, next))),
                    passed_over(boosted(rq, tasks), next.tid),
                    cpu,
                    rq_after,
                    views_after,
                    tasks_after,
                    tid,
                )
            } else {
                &&& tid == Some(next.tid)
                &&& rq_after == mid
                &&& views_after == views
                &&& tasks_after == boosted(rq, tasks).insert(
                    next.tid,
                    running_on(boosted(rq, tasks)[next.tid], cpu),
                )
            };
        if is_over(tasks, next.tid) {
            law_fetched_alive(
                mid,
                uncounted_on(views, cpu as int, counted_weight(weight_of(tasks, next))),
                passed_over(boosted(rq, tasks), next.tid),
                cpu,
                rq_after,
                views_after,
                tasks_after,
                tid,
            );
            assert(passed_over(boosted(rq, tasks), next.tid).dom() =~= tasks.dom());
        } else {
            assert(tasks_after.dom() =~= tasks.dom());
        }
    }
}

/// A task of the highest level stays one while tasks are taken out.
proof fn lemma_top_stays(
    rq: Rqinner,
    views: Seq<RqView>,
    tasks: Map<u64, SchedTask>,
    cpu: u64,
    rq_after: Rqinner,
    views_after: Seq<RqView>,
    tasks_after: Map<u64, SchedTask>,
    tid: Option<u64>,
    lifted: u64,
)
    requires
        fetched(rq, views, tasks, cpu, rq_after, views_after, tasks_after, tid),
        tasks.contains_key(lifted),
        tasks[lifted].se.queue_level == 0 || rq.count() > 0 && boosted(
            rq,
            tasks,
        )[lifted].se.queue_level == 0,
    ensures
        tasks_after.contains_key(lifted),
        tasks_after[lifted].se.queue_level == 0,
    decreases rq.count(),
{
    if rq.count() > 0 {
        let (mid, next) = choose|mid: Rqinner, next: Queued| #[trigger]
            popped(rq, tasks, mid, next) && mid.count() < rq.count() && if is_over(tasks, next.tid) {
                fetched(
                    mid,
                    uncounted_on(views, cpu as int, counted_weight(weight_of(tasks, next))),
                    passed_over(boosted(rq, tasks), next.tid),
                    cpu,
                    rq_after,
                    views_after,
                    tasks_after,
                    tid,
                )
            } else {
                &&& tid == Some(next.tid)
                &&& rq_after == mid
                &&& views_after == views
                &&& tasks_after == boosted(rq, tasks).insert(
                    next.tid,
                    running_on(boosted(rq, tasks)[next.tid], cpu),
                )
            };
        if is_over(tasks, next.tid) {
            lemma_top_stays(
                mid,
                uncounted_on(views, cpu as int, counted_weight(weight_of(tasks, next))),
                passed_over(boosted(rq, tasks), next.tid),
                cpu,
                rq_after,
                views_after,
                tasks_after,
                tid,
                lifted,
            );
        }
    }
}

/// Once it is time, every task of the lowest level is one of the highest after a processor has
/// taken its next task, whichever that is; so it runs no longer than those.
pub proof fn law_lifted_tasks_are_of_the_highest_level(
    rq: Rqinner,
    views: Seq<RqView>,
    tasks: Map<u64, SchedTask>,
    cpu: u64,
    rq_after: Rqinner,
    views_after: Seq<RqView>,
    tasks_after: Map<u64, SchedTask>,
    tid: Option<u64>,
    lifted: u64,
)
    requires
        fetched(rq, views, tasks, cpu, rq_after, views_after, tasks_after, tid),
        rq.deadline@.len() == 0,
        rq.rt.tasks@.len() == 0,
        rq.cfs@.dispatches >= BOOST_INTERVAL,
        stands_in(rq.cfs@.third, lifted),
        tasks.contains_key(lifted),
    ensures
        tasks_after.contains_key(lifted),
        tasks_after[lifted].se.queue_level == 0,
{
    lemma_top_stays(rq, views, tasks, cpu, rq_after, views_after, tasks_after, tid, lifted);
}

impl RqArray {
    /// Takes the task that a processor runs next out of its queues.
    /// Tasks that have ended are passed over and do not count any more.
    pub fn fetch_task(&mut self, tasks: &mut BTreeMap<u64, SchedTask>, cpu_id: u64) -> (tid: Option<
        u64,
    >)
        requires
            old(self).wf(),
        ensures
            final(self).wf(),
            final(self).rqs@.len() == old(self).rqs@.len(),
            forall|i: int|
                0 <= i < old(self).rqs@.len() && i != cpu_id ==> #[trigger] final(self).rqs@[i]
                    == old(self).rqs@[i],
            cpu_id < old(self).rqs@.len() ==> fetched(
                old(self).rqs@[cpu_id as int],
                old(self).views@,
                old(tasks)@,
                cpu_id,
                final(self).rqs@[cpu_id as int],
                final(self).views@,
                final(tasks)@,
                tid,
            ),
            cpu_id >= old(self).rqs@.len() ==> tid is None && *final(self) == *old(self)
                && final(tasks)@ == old(tasks)@,
    {
        if cpu_id >= self.rqs.len() as u64 {
            return None;
        }
        let i: usize = cpu_id as usize;
        loop
            invariant
                self.wf(),
                i == cpu_id,
                i < self.rqs@.len(),
                self.rqs@.len() == old(self).rqs@.len(),
                forall|j: int|
                    0 <= j < old(self).rqs@.len() && j != cpu_id ==> #[trigger] self.rqs@[j]
                        == old(self).rqs@[j],
                forall|
                    rq_after: Rqinner,
                    views_after: Seq<RqView>,
                    tasks_after: Map<u64, SchedTask>,
                    chosen: Option<u64>,
                |
                    #[trigger] fetched(
                        self.rqs@[i as int],
                        self.views@,
                        tasks@,
                        cpu_id,
                        rq_after,
                        views_after,
                        tasks_after,
                        chosen,
                    ) ==> fetched(
                        old(self).rqs@[i as int],
                        old(self).views@,
                        old(tasks)@,
                        cpu_id,
                        rq_after,
                        views_after,
                        tasks_after,
                        chosen,
                    ),
            decreases self.rqs@[i as int].count(),
        {
            let ghost known = tasks@;
            let ghost views = self.views@;
            let ghost rq = self.rqs@[i as int];
            let next = match self.rqs[i].pop_next_task(tasks) {
                None => {
                    assert(tasks@ =~= known);
                    assert(fetched(
                        rq,
                        views,
                        known,
                        cpu_id,
                        self.rqs@[i as int],
                        self.views@,
                        tasks@,
                        None,
                    ));
                    return None;
                },
                Some(next) => next,
            };
            let ghost mid = self.rqs@[i as int];
            assert(popped(rq, known, mid, next));
            assert(is_over(tasks@, next.tid) == is_over(known, next.tid));
            assert(weight_of(tasks@, next) == weight_of(known, next));
            let found: Option<SchedTask> = match tasks.get(&next.tid) {
                None => None,
                Some(task) => Some(*task),
            };
            match found {
                None => {
                    self.views[i].remove_runnable(task_weight_from_value(next.weight));
                },
                Some(task) => {
                    let mut task = task;
                    task.on_rq = false;
                    if task.state == TaskStatus::Zombie {
                        task.on_cpu = false;
                        tasks.insert(next.tid, task);
                        self.views[i].remove_runnable(task_weight_from_value(task.se.load_weight));
                    } else {
                        task.cpu = cpu_id;
                        task.on_cpu = true;
                        task.state = TaskStatus::Running;
                        task.need_resched = false;
                        tasks.insert(next.tid, task);
                        assert(fetched(
                            rq,
                            views,
                            known,
                            cpu_id,
                            self.rqs@[i as int],
                            self.views@,
                            tasks@,
                            Some(next.tid),
                        ));
                        return Some(next.tid);
                    }
                },
            }
            proof {
                assert(self.views@ =~= uncounted_on(
                    views,
                    cpu_id as int,
                    counted_weight(weight_of(known, next)),
                ));
                assert(tasks@ =~= passed_over(boosted(rq, known), next.tid));
                assert forall|
                    rq_after: Rqinner,
                    views_after: Seq<RqView>,
                    tasks_after: Map<u64, SchedTask>,
                    chosen: Option<u64>,
                | #[trigger]
                    fetched(
                        self.rqs@[i as int],
                        self.views@,
                        tasks@,
                        cpu_id,
                        rq_after,
                        views_after,
                        tasks_after,
                        chosen,
                    ) implies fetched(
                    old(self).rqs@[i as int],
                    old(self).views@,
                    old(tasks)@,
                    cpu_id,
                    rq_after,
                    views_after,
                    tasks_after,
                    chosen,
                ) by {
                    assert(fetched(
                        rq,
                        views,
                        known,
                        cpu_id,
                        rq_after,
                        views_after,
                        tasks_after,
                        chosen,
                    ));
                }
            }
        }
    }
}

/// Queues are as they were, or still without tasks.
pub open spec fn same_or_empty(before: Rqinner, after: Rqinner) -> bool {
    after == before || stays_empty(before, after)
}

/// A task may move to a processor.
pub open spec fn can_move(task: SchedTask, target: u64) -> bool {
    !task.on_main_hart && allowed(task.cpus_allowed, target as int) && task.rt.migratable
}

/// What becomes of the first task of the queues when another processor asks for it, once those
/// of the lowest level were lifted where it is time.
pub open spec fn stolen(
    before: Rqinner,
    after: Rqinner,
    known: Map<u64, SchedTask>,
    tasks_after: Map<u64, SchedTask>,
    target: u64,
    mid: Rqinner,
    next: Queued,
    result: StealResult,
) -> bool {
    let tid = next.tid;
    let tasks = boosted(before, known);
    let task = SchedTask { on_rq: false, ..tasks[tid] };
    if !tasks.contains_key(tid) {
        &&& result == StealResult::Dropped(counted_weight(next.weight))
        &&& after == mid
        &&& tasks_after == tasks
    } else if task.state == TaskStatus::Zombie {
        &&& result == StealResult::Dropped(counted_weight(task.se.load_weight))
        &&& after == mid
        &&& tasks_after == tasks.insert(tid, task)
    } else if can_move(task, target) {
        &&& result == StealResult::Stolen(tid, counted_weight(task.se.load_weight))
        &&& after == mid
        &&& tasks_after == tasks.insert(tid, SchedTask { cpu: target, ..task })
    } else {
        &&& result == StealResult::Nothing
        &&& queued(mid, after, task)
        &&& tasks_after == tasks.insert(tid, in_queue(task))
    }
}

/// Once it is time, every task of the lowest level is one of the highest after another processor
/// has asked for a task, also one that may not move and goes back into its queue.
pub proof fn law_lifted_by_stealing(
    before: Rqinner,
    after: Rqinner,
    known: Map<u64, SchedTask>,
    tasks_after: Map<u64, SchedTask>,
    target: u64,
    mid: Rqinner,
    next: Queued,
    result: StealResult,
    lifted: u64,
)
    requires
        stolen(before, after, known, tasks_after, target, mid, next, result),
        before.deadline@.len() == 0,
        before.rt.tasks@.len() == 0,
        before.cfs@.dispatches >= BOOST_INTERVAL,
        stands_in(before.cfs@.third, lifted),
        known.contains_key(lifted),
    ensures
        tasks_after.contains_key(lifted),
        tasks_after[lifted].se.queue_level == 0,
{
}

impl Rqinner {
    /// Hands the first task of the queues to another processor, where it may move.
    /// One that may not goes back into its queue.
    pub fn steal_task(&mut self, tasks: &mut BTreeMap<u64, SchedTask>, target_cpu: u64) -> (result:
        StealResult)
        requires
            old(self).wf(),
            old(self).nr_running <= usize::MAX,
            forall|tid: u64|
                old(tasks)@.contains_key(tid) ==> known_policy((#[trigger] old(tasks)@[tid]).policy),
        ensures
            final(self).wf(),
            old(self).count() == 0 ==> result == StealResult::Nothing && stays_empty(
                *old(self),
                *final(self),
            ) && final(tasks)@ == old(tasks)@,
            old(self).count() > 0 ==> exists|mid: Rqinner, next: Queued|
                #[trigger] popped(*old(self), old(tasks)@, mid, next) && stolen(
                    *old(self),
                    *final(self),
                    old(tasks)@,
                    final(tasks)@,
                    target_cpu,
                    mid,
                    next,
                    result,
                ),
    {
        let next = match self.pop_next_task(tasks) {
            None => {
                return StealResult::Nothing;
            },
            Some(next) => next,
        };
        let ghost mid = *self;
        assert(popped(*old(self), old(tasks)@, mid, next));
        let found: Option<SchedTask> = match tasks.get(&next.tid) {
            None => None,
            Some(task) => Some(*task),
        };
        let mut task = match found {
            None => {
                return StealResult::Dropped(task_weight_from_value(next.weight));
            },
            Some(task) => task,
        };
        task.on_rq = false;
        let weight: u64 = task_weight_from_value(task.se.load_weight);
        if task.state == TaskStatus::Zombie {
            tasks.insert(next.tid, task);
            return StealResult::Dropped(weight);
        }
        if !task.on_main_hart && cpu_allowed(task.cpus_allowed, target_cpu) && task.rt.migratable {
            task.cpu = target_cpu;
            tasks.insert(next.tid, task);
            return StealResult::Stolen(next.tid, weight);
        }
        let _ = self.enqueue_task(&mut task);
        tasks.insert(next.tid, task);
        StealResult::Nothing
    }
}

/// The views after a task was asked for.
pub open spec fn stolen_views(
    views: Seq<RqView>,
    source: int,
    target: int,
    local: int,
    result: StealResult,
) -> Seq<RqView> {
    match result {
        StealResult::Stolen(_, weight) => {
            let moved = if source == target {
                views
            } else {
                counted_on(uncounted_on(views, source, weight), target, weight)
            };
            kicked(moved, target, local)
        },
        StealResult::Dropped(weight) => uncounted_on(views, source, weight),
        StealResult::Nothing => views,
    }
}

impl RqArray {
    /// Moves a task from the queues of a processor to another; its load goes along.
    /// The second result tells whether the processor has to be sent an interrupt.
    pub fn steal_task_from_cpu(
        &mut self,
        tasks: &mut BTreeMap<u64, SchedTask>,
        source_cpu: u64,
        target_cpu: u64,
        local_cpu: u64,
    ) -> (result: (StealResult, bool))
        requires
            old(self).wf(),
            old(self).room(),
            forall|tid: u64|
                old(tasks)@.contains_key(tid) ==> known_policy((#[trigger] old(tasks)@[tid]).policy),
        ensures
            final(self).wf(),
            final(self).rqs@.len() == old(self).rqs@.len(),
            forall|i: int|
                0 <= i < old(self).rqs@.len() && i != source_cpu ==> #[trigger] final(self).rqs@[i]
                    == old(self).rqs@[i],
            final(self).views@ == stolen_views(
                old(self).views@,
                source_cpu as int,
                target_cpu as int,
                local_cpu as int,
                result.0,
            ),
            result.1 == (result.0 is Stolen && must_kick(
                old(self).views@,
                target_cpu as int,
                local_cpu as int,
            )),
            if source_cpu >= old(self).rqs@.len() || target_cpu >= old(self).rqs@.len()
                || old(self).rqs@[source_cpu as int].count() == 0 {
                &&& result.0 == StealResult::Nothing
                &&& final(tasks)@ == old(tasks)@
                &&& source_cpu < old(self).rqs@.len() ==> same_or_empty(
                    old(self).rqs@[source_cpu as int],
                    final(self).rqs@[source_cpu as int],
                )
            } else {
                exists|mid: Rqinner, next: Queued|
                    #[trigger] popped(old(self).rqs@[source_cpu as int], old(tasks)@, mid, next) && stolen(
                        old(self).rqs@[source_cpu as int],
                        final(self).rqs@[source_cpu as int],
                        old(tasks)@,
                        final(tasks)@,
                        target_cpu,
                        mid,
                        next,
                        result.0,
                    )
            },
    {
        let n: u64 = self.rqs.len() as u64;
        if target_cpu >= n || source_cpu >= n {
            return (StealResult::Nothing, false);
        }
        let i: usize = source_cpu as usize;
        let result = self.rqs[i].steal_task(tasks, target_cpu);
        match result {
            StealResult::Stolen(_, weight) => {
                if source_cpu != target_cpu {
                    self.views[i].remove_runnable(weight);
                    self.views[target_cpu as usize].add_runnable(weight);
                }
                let send: bool = self.mark_resched_and_kick(target_cpu, local_cpu);
                (result, send)
            },
            StealResult::Dropped(weight) => {
                self.views[i].remove_runnable(weight);
                (result, false)
            },
            StealResult::Nothing => (result, false),
        }
    }
}

/// What the processors count.
pub open spec fn loads_of(views: Seq<RqView>) -> Seq<u64> {
    views.map_values(|view: RqView| view.runnable_count)
}

/// What comes of a processor without tasks looking for one: it takes the first of the
/// processor that has the most, where that may move.
pub open spec fn idled(
    before: RqArray,
    after: RqArray,
    tasks: Map<u64, SchedTask>,
    tasks_after: Map<u64, SchedTask>,
    cpu: u64,
    local: u64,
    result: (Option<u64>, bool),
) -> bool {
    let n = before.rqs@.len() as int;
    let from = busiest(loads_of(before.views@), cpu as int, n);
    &&& after.rqs@.len() == n
    &&& forall|i: int|
        0 <= i < n && Some(i) != from ==> #[trigger] after.rqs@[i] == before.rqs@[i]
    &&& result.1 == (result.0 is Some && must_kick(before.views@, cpu as int, local as int))
    &&& if cpu >= n || from is None || before.rqs@[from->Some_0].count() == 0 {
        &&& result.0 is None
        &&& tasks_after == tasks
        &&& after.views@ == before.views@
        &&& forall|i: int|
            0 <= i < n ==> same_or_empty(before.rqs@[i], #[trigger] after.rqs@[i])
    } else {
        let source = from->Some_0;
        exists|mid: Rqinner, next: Queued, stolen_one: StealResult|
            #[trigger] popped(before.rqs@[source], tasks, mid, next) && #[trigger] stolen(
                before.rqs@[source],
                after.rqs@[source],
                tasks,
                tasks_after,
                cpu,
                mid,
                next,
                stolen_one,
            ) && after.views@ == stolen_views(
                before.views@,
                source,
                cpu as int,
                local as int,
                stolen_one,
            ) && result.0 == match stolen_one {
                StealResult::Stolen(tid, _) => Some(tid),
                _ => None,
            }
    }
}

impl RqArray {
    /// Takes a task from the processor that has the most, where it may move.
    /// The second result tells whether the processor itself has to be sent an interrupt.
    pub fn idle_tasks(
        &mut self,
        tasks: &mut BTreeMap<u64, SchedTask>,
        cpu_id: u64,
        local_cpu: u64,
    ) -> (result: (Option<u64>, bool))
        requires
            old(self).wf(),
            old(self).room(),
            forall|tid: u64|
                old(tasks)@.contains_key(tid) ==> known_policy((#[trigger] old(tasks)@[tid]).policy),
        ensures
            final(self).wf(),
            idled(
                *old(self),
                *final(self),
                old(tasks)@,
                final(tasks)@,
                cpu_id,
                local_cpu,
                result,
            ),
    {
        if cpu_id >= self.views.len() as u64 {
            return (None, false);
        }
        let mut loads: Vec<u64> = Vec::new();
        let mut i: usize = 0;
        while i < self.views.len()
            invariant
                i <= self.views@.len(),
                loads@ == loads_of(self.views@).take(i as int),
            decreases self.views@.len() - i,
        {
            loads.push(self.views[i].runnable_count);
            i = i + 1;
            assert(loads@ =~= loads_of(self.views@).take(i as int));
        }
        assert(loads@ =~= loads_of(self.views@));
        proof {
            law_busiest_in(loads@, cpu_id as int, loads@.len() as int);
        }
        match busiest_cpu(&loads, cpu_id as usize) {
            None => (None, false),
            Some(source) => {
                let (result, send) = self.steal_task_from_cpu(
                    tasks,
                    source as u64,
                    cpu_id,
                    local_cpu,
                );
                match result {
                    StealResult::Stolen(tid, _) => (Some(tid), send),
                    _ => (None, false),
                }
            },
        }
    }
}

/// A processor has taken the next task out of its own queues.
pub open spec fn fetched_on(
    before: RqArray,
    after: RqArray,
    tasks: Map<u64, SchedTask>,
    tasks_after: Map<u64, SchedTask>,
    cpu: u64,
    tid: Option<u64>,
) -> bool {
    &&& after.rqs@.len() == before.rqs@.len()
    &&& forall|i: int|
        0 <= i < before.rqs@.len() && i != cpu ==> #[trigger] after.rqs@[i] == before.rqs@[i]
    &&& fetched(
        before.rqs@[cpu as int],
        before.views@,
        tasks,
        cpu,
        after.rqs@[cpu as int],
        after.views@,
        tasks_after,
        tid,
    )
}

impl RqArray {
    /// Finds the task that a processor runs next: one of its own, else one of the processor
    /// that has the most. The second result tells whether an interrupt has to be sent.
    pub fn next_task(&mut self, tasks: &mut BTreeMap<u64, SchedTask>, cpu_id: u64) -> (result: (
        Option<u64>,
        bool,
    ))
        requires
            old(self).wf(),
            old(self).room(),
            cpu_id < old(self).rqs@.len(),
            forall|tid: u64|
                old(tasks)@.contains_key(tid) ==> known_policy((#[trigger] old(tasks)@[tid]).policy),
        ensures
            final(self).wf(),
            exists|mid: RqArray, tasks_mid: Map<u64, SchedTask>, own: Option<u64>| #[trigger]
                fetched_on(*old(self), mid, old(tasks)@, tasks_mid, cpu_id, own) && match own {
                    Some(tid) => result == (Some(tid), false) && *final(self) == mid
                        && final(tasks)@ == tasks_mid,
                    None => idled(
                        mid,
                        *final(self),
                        tasks_mid,
                        final(tasks)@,
                        cpu_id,
                        cpu_id,
                        result,
                    ),
                },
    {
        let own = self.fetch_task(tasks, cpu_id);
        let ghost mid = *self;
        let ghost tasks_mid = tasks@;
        assert(fetched_on(*old(self), mid, old(tasks)@, tasks_mid, cpu_id, own));
        proof {
            lemma_fetched_room(
                old(self).rqs@[cpu_id as int],
                old(self).views@,
                old(tasks)@,
                cpu_id,
                mid.rqs@[cpu_id as int],
                mid.views@,
                tasks_mid,
                own,
            );
        }
        match own {
            Some(tid) => (Some(tid), false),
            None => self.idle_tasks(tasks, cpu_id, cpu_id),
        }
    }
}

/// Taking tasks out makes no more of them, and leaves their kinds.
proof fn lemma_fetched_room(
    rq: Rqinner,
    views: Seq<RqView>,
    tasks: Map<u64, SchedTask>,
    cpu: u64,
    rq_after: Rqinner,
    views_after: Seq<RqView>,
    tasks_after: Map<u64, SchedTask>,
    tid: Option<u64>,
)
    requires
        fetched(rq, views, tasks, cpu, rq_after, views_after, tasks_after, tid),
        forall|t: u64| tasks.contains_key(t) ==> known_policy((#[trigger] tasks[t]).policy),
    ensures
        rq_after.nr_running <= rq.nr_running,
        forall|t: u64|
            tasks_after.contains_key(t) ==> known_policy((#[trigger] tasks_after[t]).policy),
    decreases rq.count(),
{
    if rq.count() > 0 {
        let (mid, next) = choose|mid: Rqinner, next: Queued| #[trigger]
            popped(rq, tasks, mid, next) && mid.count() < rq.count() && if is_over(tasks, next.tid) {
                fetched(
                    mid,
                    uncounted_on(views, cpu as int, counted_weight(weight_of(tasks, next))),
                    passed_over(boosted(rq, tasks), next.tid),
                    cpu,
                    rq_after,
                    views_after,
                    tasks_after,
                    tid,
                )
            } else {
                &&& tid == Some(next.tid)
                &&& rq_after == mid
                &&& views_after == views
                &&& tasks_after == boosted(rq, tasks).insert(
                    next.tid,
                    running_on(boosted(rq, tasks)[next.tid], cpu),
                )
            };
        if is_over(tasks, next.tid) {
            lemma_fetched_room(
                mid,
                uncounted_on(views, cpu as int, counted_weight(weight_of(tasks, next))),
                passed_over(boosted(rq, tasks), next.tid),
                cpu,
                rq_after,
                views_after,
                tasks_after,
                tid,
            );
        }
    }
}

} // verus!
