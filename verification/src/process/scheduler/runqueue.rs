//! The queues of a processor, and on which processor a task is to run.

use vstd::prelude::*;

use super::cfs_rq::{more, less, weight_of, CfsRq, Levels, LoadWeight, Queued, QUEUE_COUNT};
use super::deadline_rq::{DeadlineKey, DeadlineRq};
use super::idle_rq::IdleRq;
use super::rt_rq::{at_least, rt_place, RtRq, RtTask, MAX_RT_PRIO};
use super::stop_rq::StopRq;
use crate::process::task::sched::{SchedDlEntity, SchedEntity, SchedRtEntity};
use crate::process::task::status::TaskStatus;
use std::collections::BTreeMap;

verus! {

/// An ordinary task.
pub const SCHED_OTHER: i64 = 0;

/// A task that runs until it stops.
pub const SCHED_FIFO: i64 = 1;

/// A task that takes turns with its equals.
pub const SCHED_RR: i64 = 2;

/// A task that nobody waits for.
pub const SCHED_BATCH: i64 = 3;

/// A task for when there is nothing else to do.
pub const SCHED_IDLE: i64 = 5;

/// A task with a deadline.
pub const SCHED_DEADLINE: i64 = 6;

/// What a processor does while it has no task.
#[derive(Clone, Copy, Debug, PartialEq, Eq, Structural)]
pub enum IdleState {
    Running,
    IdlePolling,
    IdleWfi,
}

/// What scheduling knows of a task.
#[derive(Clone, Copy, Debug, PartialEq, Eq, Structural)]
pub struct SchedTask {
    pub tid: u64,
    pub state: TaskStatus,
    pub policy: i64,
    pub prio: i64,
    pub se: SchedEntity,
    pub rt: SchedRtEntity,
    pub dl: SchedDlEntity,
    /// It stands in a queue.
    pub on_rq: bool,
    /// It runs on a processor.
    pub on_cpu: bool,
    /// The processor it belongs to.
    pub cpu: u64,
    /// A bit for every processor it may run on.
    pub cpus_allowed: u64,
    /// It stays on the processor that started the machine.
    pub on_main_hart: bool,
    /// It was woken while it was being put to sleep.
    pub wake_pending: bool,
    /// The processor that woke it then.
    pub wake_source_cpu: Option<u64>,
    /// Another task is to run in its place soon.
    pub need_resched: bool,
}

/// The classes of tasks that the queues know.
pub open spec fn known_policy(policy: i64) -> bool {
    by_feedback(policy) || by_fixed_priority(policy) || policy == SCHED_DEADLINE
}

/// The task stands in the feedback queue.
pub open spec fn by_feedback(policy: i64) -> bool {
    policy == SCHED_OTHER || policy == SCHED_BATCH || policy == SCHED_IDLE
}

/// The task stands in the queue of fixed priorities.
pub open spec fn by_fixed_priority(policy: i64) -> bool {
    policy == SCHED_FIFO || policy == SCHED_RR
}

/// What a task of a weight counts in the load, which is something.
pub open spec fn counted_weight(weight: u64) -> u64 {
    if weight >= 1 {
        weight
    } else {
        1
    }
}

/// A priority as the queue takes it.
pub open spec fn queue_priority(prio: i64) -> u64 {
    if prio < 0 {
        0
    } else if prio > MAX_RT_PRIO {
        MAX_RT_PRIO
    } else {
        prio as u64
    }
}

/// The level of the feedback queue that a task asks for.
pub open spec fn queue_level(level: u64) -> u64 {
    if level < QUEUE_COUNT {
        level
    } else {
        (QUEUE_COUNT - 1) as u64
    }
}

/// What is kept of a task in a queue: one of the feedback queue has a level of it.
pub open spec fn at_level(policy: i64, se: SchedEntity) -> SchedEntity {
    if by_feedback(policy) {
        SchedEntity { queue_level: queue_level(se.queue_level), ..se }
    } else {
        se
    }
}

/// A processor may run a task with the mask.
pub open spec fn allowed(mask: u64, cpu: int) -> bool {
    0 <= cpu < 64 && mask & (1u64 << (cpu as u64)) != 0
}

/// Returns what a task of a weight counts in the load.
pub fn task_weight_from_value(weight: u64) -> (counted: u64)
    ensures
        counted == counted_weight(weight),
{
    if weight >= 1 {
        weight
    } else {
        1
    }
}

/// Tells whether a processor may run a task with the mask.
pub fn cpu_allowed(mask: u64, cpu_id: u64) -> (yes: bool)
    ensures
        yes == allowed(mask, cpu_id as int),
{
    cpu_id < 64 && mask & (1u64 << cpu_id) != 0
}

/// The queues of a processor, from the class that goes first to the last:
/// stop, deadline, fixed priority, feedback, idle.
pub struct Rqinner {
    pub stop: StopRq,
    pub deadline: DeadlineRq,
    pub cfs: CfsRq,
    pub rt: RtRq,
    pub idle: IdleRq,
    /// The number of tasks in the queues.
    pub nr_running: u64,
}

/// The queues hold a task more than before: `task`, where its class puts it.
pub open spec fn queued(before: Rqinner, after: Rqinner, task: SchedTask) -> bool {
    let entry = Queued { tid: task.tid, weight: task.se.load_weight };
    &&& after.stop == before.stop
    &&& after.idle == before.idle
    &&& after.nr_running == before.nr_running + 1
    &&& if by_feedback(task.policy) {
        &&& after.cfs@ == before.cfs@.joined(entry, queue_level(task.se.queue_level) as int)
        &&& after.cfs.load.weight == more(before.cfs.load.weight as int, task.se.load_weight as int)
        &&& after.rt == before.rt
        &&& after.deadline == before.deadline
    } else if by_fixed_priority(task.policy) {
        let priority = queue_priority(task.prio);
        &&& after.rt.tasks@ == before.rt.tasks@.insert(
            at_least(before.rt.tasks@, priority) as int,
            RtTask { task: entry, priority, round_robin: task.policy == SCHED_RR },
        )
        &&& after.cfs == before.cfs
        &&& after.deadline == before.deadline
    } else {
        let key = DeadlineKey { deadline: task.dl.absolute_deadline, tid: task.tid };
        &&& exists|k: int|
            0 <= k <= before.deadline@.len() && after.deadline@ == #[trigger] before.deadline@.insert(
                k,
                (key, entry),
            )
        &&& after.rt == before.rt
        &&& after.cfs == before.cfs
    }
}

/// The queues hold the same tasks in the same order.
pub open spec fn same_tasks(before: Rqinner, after: Rqinner) -> bool {
    &&& after.stop == before.stop
    &&& after.idle == before.idle
    &&& after.nr_running == before.nr_running
    &&& after.rt == before.rt
    &&& after.cfs == before.cfs
    &&& after.deadline@ == before.deadline@
}

/// Queues without tasks still have none.
pub open spec fn stays_empty(before: Rqinner, after: Rqinner) -> bool {
    &&& before.count() == 0
    &&& after.count() == 0
    &&& after.stop == before.stop
    &&& after.idle == before.idle
    &&& after.nr_running == before.nr_running
    &&& after.rt == before.rt
    &&& after.deadline@ == before.deadline@
    &&& after.cfs@ == before.cfs@.lifted()
    &&& after.cfs.same_counts(&before.cfs)
}

/// The tasks after the one that goes first was asked for: where no other queue has one, and it
/// is time, those of the lowest level were lifted.
pub open spec fn boosted(before: Rqinner, tasks: Map<u64, SchedTask>) -> Map<u64, SchedTask> {
    if before.deadline@.len() == 0 && before.rt.tasks@.len() == 0 {
        before.cfs@.lifted_tasks(tasks)
    } else {
        tasks
    }
}

/// The queues hold a task less than before: the one that goes first. It leaves the load with
/// the weight that it has now.
pub open spec fn popped(
    before: Rqinner,
    tasks: Map<u64, SchedTask>,
    after: Rqinner,
    next: Queued,
) -> bool {
    &&& after.stop == before.stop
    &&& after.idle == before.idle
    &&& after.nr_running == before.nr_running - 1
    &&& if before.deadline@.len() > 0 {
        &&& next == before.deadline@[0].1
        &&& after.deadline@ == before.deadline@.remove(0)
        &&& after.rt == before.rt
        &&& after.cfs == before.cfs
    } else if before.rt.tasks@.len() > 0 {
        &&& next == before.rt.tasks@[0].task
        &&& after.rt.tasks@ == before.rt.tasks@.remove(0)
        &&& after.deadline@ == before.deadline@
        &&& after.cfs == before.cfs
    } else {
        &&& before.cfs@.lifted().head() matches Some((first, _)) && next == first
        &&& after.cfs@ == before.cfs@.lifted().popped()
        &&& after.cfs.accounted(&before.cfs, weight_of(tasks, next) as int)
        &&& after.deadline@ == before.deadline@
        &&& after.rt == before.rt
    }
}

/// The queues hold a task less than before: the one of a number, which has a weight now.
pub open spec fn taken_out(before: Rqinner, after: Rqinner, gone: Queued, weight: u64) -> bool {
    &&& after.stop == before.stop
    &&& after.idle == before.idle
    &&& after.nr_running == before.nr_running - 1
    &&& if before.has_deadline(gone.tid) {
        &&& exists|k: int|
            0 <= k < before.deadline@.len() && gone == (#[trigger] before.deadline@[k]).1
                && after.deadline@ == before.deadline@.remove(k)
        &&& after.rt == before.rt
        &&& after.cfs == before.cfs
    } else if rt_place(before.rt.tasks@, gone.tid, 0) is Some {
        let i = rt_place(before.rt.tasks@, gone.tid, 0)->Some_0;
        &&& gone == before.rt.tasks@[i].task
        &&& after.rt.tasks@ == before.rt.tasks@.remove(i)
        &&& after.deadline@ == before.deadline@
        &&& after.cfs == before.cfs
    } else {
        &&& before.cfs@.find(gone.tid) matches Some((level, i)) && after.cfs@
            == before.cfs@.without(level, i) && gone == before.cfs@.level(level)[i]
        &&& after.cfs.accounted(&before.cfs, weight as int)
        &&& after.deadline@ == before.deadline@
        &&& after.rt == before.rt
    }
}

/// What became of a task that another processor asked for.
#[derive(Clone, Copy, Debug, PartialEq, Eq, Structural)]
pub enum StealResult {
    /// The task moves, with what it counts in the load.
    Stolen(u64, u64),
    /// The task had ended, and its load goes.
    Dropped(u64),
    /// There was none, or it may not move.
    Nothing,
}

impl Rqinner {
    /// The number of tasks in the queues.
    pub open spec fn count(&self) -> nat {
        self.deadline@.len() + self.rt.tasks@.len() + self.cfs@.count()
    }

    /// The queues are in order and counted.
    pub open spec fn wf(&self) -> bool {
        &&& self.deadline.wf()
        &&& self.rt.wf()
        &&& self.cfs.wf()
        &&& self.nr_running == self.count()
        &&& self.cfs.nr_queued == self.cfs@.count()
        &&& self.cfs.h_nr_queued == self.cfs@.count()
    }

    /// A task with the number waits with a deadline.
    pub open spec fn has_deadline(&self, tid: u64) -> bool {
        exists|k: int| 0 <= k < self.deadline@.len() && (#[trigger] self.deadline@[k]).1.tid == tid
    }

    /// A task with the number is in a queue.
    pub open spec fn contains(&self, tid: u64) -> bool {
        self.has_deadline(tid) || rt_place(self.rt.tasks@, tid, 0) is Some || self.cfs@.find(
            tid,
        ) is Some
    }

    /// No task was ever in the queues.
    pub open spec fn is_blank(&self) -> bool {
        &&& self.count() == 0
        &&& self.stop.stop is None
        &&& !self.stop.runnable
        &&& self.idle.idle is None
        &&& self.cfs.load == LoadWeight { weight: 0, inv_weight: 0 }
        &&& self.cfs.min_vruntime == 0
        &&& self.cfs.exec_clock == 0
        &&& self.cfs.dispatches_since_boost == 0
    }

    /// Makes queues without tasks.
    pub fn new() -> (rq: Self)
        ensures
            rq.wf(),
            rq.is_blank(),
    {
        Rqinner {
            stop: StopRq::new(),
            deadline: DeadlineRq::new(),
            cfs: CfsRq::new(),
            rt: RtRq::new(),
            idle: IdleRq::new(),
            nr_running: 0,
        }
    }

    /// Returns the task that goes first, which stays.
    pub fn pick_next_task(&self) -> (tid: Option<u64>)
        requires
            self.wf(),
        ensures
            tid == next_task(*self),
    {
        if let Some(tid) = self.stop.pick_next() {
            return Some(tid);
        }
        if let Some(next) = self.deadline.pick_next() {
            return Some(next.tid);
        }
        if let Some(next) = self.rt.pick_next() {
            return Some(next.tid);
        }
        if let Some(next) = self.cfs.pick_next() {
            return Some(next.tid);
        }
        self.idle.pick_next()
    }

    /// Puts a task into the queue of its class; returns what it counts in the load,
    /// or nothing where it stood in a queue or has ended.
    pub fn enqueue_task(&mut self, task: &mut SchedTask) -> (weight: Option<u64>)
        requires
            old(self).wf(),
            old(self).nr_running < usize::MAX,
            known_policy(old(task).policy),
        ensures
            final(self).wf(),
            if old(task).on_rq || old(task).state == TaskStatus::Zombie {
                &&& weight is None
                &&& *final(self) == *old(self)
                &&& *final(task) == *old(task)
            } else {
                &&& weight == Some(counted_weight(old(task).se.load_weight))
                &&& queued(*old(self), *final(self), *old(task))
                &&& *final(task) == (SchedTask {
                    on_rq: true,
                    on_cpu: false,
                    se: at_level(old(task).policy, old(task).se),
                    ..*old(task)
                })
            },
    {
        if task.on_rq || task.state == TaskStatus::Zombie {
            return None;
        }
        task.on_rq = true;
        task.on_cpu = false;
        self.nr_running = self.nr_running + 1;
        let entry = Queued { tid: task.tid, weight: task.se.load_weight };
        if task.policy == SCHED_OTHER || task.policy == SCHED_BATCH || task.policy == SCHED_IDLE {
            let level: u64 = self.cfs.enqueue(entry, task.se.queue_level);
            task.se.queue_level = level;
        } else if task.policy == SCHED_FIFO || task.policy == SCHED_RR {
            let priority: u64 = if task.prio < 0 {
                0
            } else if task.prio > MAX_RT_PRIO as i64 {
                MAX_RT_PRIO
            } else {
                task.prio as u64
            };
            self.rt.enqueue(entry, priority, task.policy == SCHED_RR);
            proof {
                lemma_at_least_bound(old(self).rt.tasks@, priority);
            }
        } else {
            self.deadline.enqueue(entry, task.dl.absolute_deadline);
        }
        Some(task_weight_from_value(task.se.load_weight))
    }

    /// Takes the task that goes first out.
    pub fn pop_next_task(&mut self, tasks: &mut BTreeMap<u64, SchedTask>) -> (next: Option<Queued>)
        requires
            old(self).wf(),
        ensures
            final(self).wf(),
            final(tasks)@ == boosted(*old(self), old(tasks)@),
            next is None <==> old(self).count() == 0,
            next is None ==> stays_empty(*old(self), *final(self)),
            next matches Some(task) ==> popped(*old(self), old(tasks)@, *final(self), task),
    {
        if let Some(next) = self.deadline.pop_next() {
            self.nr_running = self.nr_running - 1;
            return Some(next);
        }
        if let Some(next) = self.rt.pop_next() {
            self.nr_running = self.nr_running - 1;
            return Some(next);
        }
        if let Some((next, _)) = self.cfs.pop_next(tasks) {
            self.nr_running = self.nr_running - 1;
            return Some(next);
        }
        None
    }

    /// Takes the task of a number out, which has a weight now.
    pub fn remove_task(&mut self, tid: u64, weight: u64) -> (gone: Option<Queued>)
        requires
            old(self).wf(),
        ensures
            final(self).wf(),
            gone is Some <==> old(self).contains(tid),
            gone is None ==> same_tasks(*old(self), *final(self)),
            gone matches Some(task) ==> task.tid == tid && taken_out(
                *old(self),
                *final(self),
                task,
                weight,
            ),
    {
        if let Some(gone) = self.deadline.remove_task(tid) {
            self.nr_running = self.nr_running - 1;
            proof {
                let k = choose|k: int|
                    0 <= k < old(self).deadline@.len() && gone == (
                    #[trigger] old(self).deadline@[k]).1 && self.deadline@
                        == old(self).deadline@.remove(k);
                assert(old(self).deadline@[k].1.tid == tid);
            }
            return Some(gone);
        }
        if let Some(gone) = self.rt.remove_task(tid) {
            proof {
                lemma_rt_place(old(self).rt.tasks@, tid, 0);
            }
            self.nr_running = self.nr_running - 1;
            return Some(gone);
        }
        if let Some((gone, _)) = self.cfs.remove_task(tid, weight) {
            proof {
                lemma_find(old(self).cfs@, tid);
            }
            self.nr_running = self.nr_running - 1;
            return Some(gone);
        }
        None
    }
}

impl IdleState {
    /// Returns the state of a number.
    pub fn from_raw(raw: u64) -> (state: IdleState)
        ensures
            state == if raw == 1 {
                IdleState::IdlePolling
            } else if raw == 2 {
                IdleState::IdleWfi
            } else {
                IdleState::Running
            },
    {
        if raw == 1 {
            IdleState::IdlePolling
        } else if raw == 2 {
            IdleState::IdleWfi
        } else {
            IdleState::Running
        }
    }
}

/// What other processors see of a processor when they place a task.
#[derive(Clone, Copy, Debug, PartialEq, Eq, Structural)]
pub struct RqView {
    /// The tasks in the queues and the one that runs.
    pub runnable_count: u64,
    /// What they count in the load.
    pub runnable_weight: u64,
    /// The tasks that are about to be put there.
    pub wake_reservations: u64,
    pub idle_state: IdleState,
    /// The processor takes tasks.
    pub online: bool,
    /// It was sent an interrupt that it has not seen.
    pub ipi_pending: bool,
}

/// With one task more.
pub open spec fn with_runnable(view: RqView, weight: u64) -> RqView {
    RqView {
        runnable_count: ((view.runnable_count + 1) % 0x1_0000_0000_0000_0000) as u64,
        runnable_weight: ((view.runnable_weight + weight) % 0x1_0000_0000_0000_0000) as u64,
        ..view
    }
}

/// With one task less.
pub open spec fn without_runnable(view: RqView, weight: u64) -> RqView {
    RqView {
        runnable_count: less(view.runnable_count as int, 1) as u64,
        runnable_weight: less(view.runnable_weight as int, weight as int) as u64,
        ..view
    }
}

/// The load of a processor, with what is about to be put there.
pub open spec fn score(view: RqView, weight: u64) -> int {
    let coming = view.wake_reservations * weight;
    more(
        view.runnable_weight as int,
        if coming <= u64::MAX {
            coming
        } else {
            u64::MAX as int
        },
    )
}

/// The processor has nothing to do.
pub open spec fn is_idle(view: RqView) -> bool {
    view.idle_state != IdleState::Running && view.runnable_count == 0
}

impl RqView {
    /// Starts without tasks, and takes none yet.
    pub fn new() -> (view: Self)
        ensures
            view == (RqView {
                runnable_count: 0,
                runnable_weight: 0,
                wake_reservations: 0,
                idle_state: IdleState::Running,
                online: false,
                ipi_pending: false,
            }),
    {
        RqView {
            runnable_count: 0,
            runnable_weight: 0,
            wake_reservations: 0,
            idle_state: IdleState::Running,
            online: false,
            ipi_pending: false,
        }
    }

    /// Counts a task.
    pub fn add_runnable(&mut self, weight: u64)
        ensures
            *final(self) == with_runnable(*old(self), weight),
    {
        self.runnable_count = self.runnable_count.wrapping_add(1);
        self.runnable_weight = self.runnable_weight.wrapping_add(weight);
    }

    /// Does not count a task any more.
    pub fn remove_runnable(&mut self, weight: u64)
        ensures
            *final(self) == without_runnable(*old(self), weight),
    {
        self.runnable_count = self.runnable_count.saturating_sub(1);
        self.runnable_weight = self.runnable_weight.saturating_sub(weight);
    }

    /// A task that was to come is there, or does not come.
    pub fn consume_wakeup_reservation(&mut self)
        ensures
            *final(self) == (RqView {
                wake_reservations: less(old(self).wake_reservations as int, 1) as u64,
                ..*old(self)
            }),
    {
        self.wake_reservations = self.wake_reservations.saturating_sub(1);
    }

    /// Says that a task is to come, where no other was announced since `expected` was seen.
    pub fn try_reserve_wakeup(&mut self, expected: u64) -> (done: bool)
        ensures
            done == (old(self).wake_reservations == expected),
            *final(self) == if done {
                RqView { wake_reservations: more(expected as int, 1) as u64, ..*old(self) }
            } else {
                *old(self)
            },
    {
        if self.wake_reservations == expected {
            self.wake_reservations = expected.saturating_add(1);
            true
        } else {
            false
        }
    }

    /// Returns the load with what is about to be put there.
    fn score(&self, weight: u64) -> (sum: u64)
        ensures
            sum == score(*self, weight),
    {
        let coming: u64 = match self.wake_reservations.checked_mul(weight) {
            Some(product) => product,
            None => u64::MAX,
        };
        self.runnable_weight.saturating_add(coming)
    }

    /// Tells whether the processor has nothing to do.
    fn is_idle(&self) -> (yes: bool)
        ensures
            yes == is_idle(*self),
    {
        self.idle_state != IdleState::Running && self.runnable_count == 0
    }
}

/// A task with the mask can be put on a processor.
pub open spec fn eligible(views: Seq<RqView>, mask: u64, cpu: int) -> bool {
    0 <= cpu < views.len() && allowed(mask, cpu) && views[cpu].online
}

/// Processor `a` is the better place than `b`: it has less load,
/// or it is the preferred one, or its number is lower.
pub open spec fn better(views: Seq<RqView>, weight: u64, preferred: int, a: int, b: int) -> bool {
    let x = score(views[a], weight);
    let y = score(views[b], weight);
    x < y || (x == y && ((a == preferred && b != preferred) || ((a == preferred) == (b == preferred)
        && a < b)))
}

/// Processor `cpu` is the best of those that are idle, or that are not.
pub open spec fn best_of(
    views: Seq<RqView>,
    mask: u64,
    weight: u64,
    preferred: int,
    idle: bool,
    end: int,
    cpu: Option<usize>,
) -> bool {
    match cpu {
        None => forall|j: int|
            0 <= j < end && eligible(views, mask, j) ==> is_idle(#[trigger] views[j]) != idle,
        Some(c) => {
            &&& c < end
            &&& eligible(views, mask, c as int)
            &&& is_idle(views[c as int]) == idle
            &&& forall|j: int|
                #![trigger views[j]]
                0 <= j < end && j != c && eligible(views, mask, j) && is_idle(views[j]) == idle
                    ==> better(views, weight, preferred, c as int, j)
        },
    }
}

/// The processor for a task: the best idle one, else the best.
pub open spec fn is_choice(
    views: Seq<RqView>,
    mask: u64,
    weight: u64,
    preferred: int,
    choice: Option<usize>,
) -> bool {
    let n = views.len() as int;
    if best_of(views, mask, weight, preferred, true, n, None) {
        best_of(views, mask, weight, preferred, false, n, choice)
    } else {
        choice is Some && best_of(views, mask, weight, preferred, true, n, choice)
    }
}

/// Tells whether processor `a` is the better place than `b`.
fn is_better(views: &Vec<RqView>, weight: u64, preferred: u64, a: usize, b: usize) -> (yes: bool)
    requires
        a < views@.len(),
        b < views@.len(),
    ensures
        yes == better(views@, weight, preferred as int, a as int, b as int),
{
    let x: u64 = views[a].score(weight);
    let y: u64 = views[b].score(weight);
    let near: bool = a as u64 == preferred;
    let far: bool = b as u64 == preferred;
    x < y || (x == y && ((near && !far) || (near == far && a < b)))
}

/// Picks the processor for a task.
pub fn choose_cpu(views: &Vec<RqView>, mask: u64, weight: u64, preferred: u64) -> (choice: Option<
    usize,
>)
    ensures
        is_choice(views@, mask, weight, preferred as int, choice),
{
    let mut best_idle: Option<usize> = None;
    let mut best_loaded: Option<usize> = None;
    let mut i: usize = 0;
    while i < views.len()
        invariant
            i <= views@.len(),
            best_of(views@, mask, weight, preferred as int, true, i as int, best_idle),
            best_of(views@, mask, weight, preferred as int, false, i as int, best_loaded),
        decreases views@.len() - i,
    {
        if cpu_allowed(mask, i as u64) && views[i].online {
            if views[i].is_idle() {
                let take: bool = match best_idle {
                    None => true,
                    Some(c) => is_better(views, weight, preferred, i, c),
                };
                if take {
                    best_idle = Some(i);
                }
            } else {
                let take: bool = match best_loaded {
                    None => true,
                    Some(c) => is_better(views, weight, preferred, i, c),
                };
                if take {
                    best_loaded = Some(i);
                }
            }
        }
        i = i + 1;
    }
    match best_idle {
        Some(c) => {
            assert(is_idle(views@[c as int]));
            Some(c)
        },
        None => best_loaded,
    }
}

/// The first processor from `i` on that may run a task with the mask.
pub open spec fn first_allowed(mask: u64, i: int, n: int) -> Option<int>
    decreases n - i,
{
    if i < 0 || i >= n {
        None
    } else if allowed(mask, i) {
        Some(i)
    } else {
        first_allowed(mask, i + 1, n)
    }
}

/// The processor for a task where the load does not decide.
pub open spec fn fallback(mask: u64, cpu: int, n: int) -> int {
    if allowed(mask, cpu) && cpu < n {
        cpu
    } else {
        match first_allowed(mask, 0, n) {
            Some(i) => i,
            None => if cpu < n {
                cpu
            } else {
                n - 1
            },
        }
    }
}

/// Returns the processor for a task where the load does not decide.
pub fn allowed_fallback(mask: u64, fallback_cpu: u64, count: usize) -> (cpu: u64)
    requires
        count > 0,
    ensures
        cpu == fallback(mask, fallback_cpu as int, count as int),
        cpu < count,
{
    if cpu_allowed(mask, fallback_cpu) && fallback_cpu < count as u64 {
        return fallback_cpu;
    }
    let mut i: u64 = 0;
    while i < count as u64
        invariant
            i <= count,
            first_allowed(mask, 0, count as int) == first_allowed(mask, i as int, count as int),
            !(allowed(mask, fallback_cpu as int) && fallback_cpu < count),
        decreases count - i,
    {
        if cpu_allowed(mask, i) {
            return i;
        }
        i = i + 1;
    }
    if fallback_cpu < count as u64 {
        fallback_cpu
    } else {
        count as u64 - 1
    }
}

/// The processor that a task would rather have.
pub open spec fn preferred_cpu(mask: u64, source: int, prefer: int, n: int) -> int {
    if allowed(mask, prefer) && prefer < n {
        prefer
    } else {
        fallback(mask, source, n)
    }
}

/// A processor that was picked, and whether the task was announced there.
#[derive(Clone, Copy, Debug, PartialEq, Eq, Structural)]
pub struct CpuSelection {
    pub cpu_id: u64,
    pub reserved: bool,
}

/// The place of a task: where it has to be, or the best processor.
pub open spec fn selected(
    views: Seq<RqView>,
    task: SchedTask,
    source: int,
    prefer: int,
    selection: CpuSelection,
) -> bool {
    let mask = task.cpus_allowed;
    let n = views.len() as int;
    let preferred = preferred_cpu(mask, source, prefer, n);
    if task.on_main_hart || n <= 1 {
        selection == CpuSelection {
            cpu_id: fallback(mask, preferred, n) as u64,
            reserved: false,
        }
    } else {
        exists|choice: Option<usize>|
            #[trigger] is_choice(
                views,
                mask,
                counted_weight(task.se.load_weight),
                preferred,
                choice,
            ) && selection == match choice {
                Some(c) => CpuSelection { cpu_id: c as u64, reserved: true },
                None => CpuSelection {
                    cpu_id: fallback(mask, preferred, n) as u64,
                    reserved: false,
                },
            }
    }
}

/// The views after a selection: a task is announced where one was.
pub open spec fn announced(views: Seq<RqView>, selection: CpuSelection) -> Seq<RqView> {
    if selection.reserved {
        let cpu = selection.cpu_id as int;
        views.update(
            cpu,
            RqView {
                wake_reservations: more(views[cpu].wake_reservations as int, 1) as u64,
                ..views[cpu]
            },
        )
    } else {
        views
    }
}

/// Picks the processor for a task and announces the task there.
pub fn select_task_rq(
    views: &mut Vec<RqView>,
    task: &SchedTask,
    source_cpu: u64,
    prefer_cpu: u64,
) -> (selection: CpuSelection)
    requires
        old(views)@.len() > 0,
    ensures
        selected(old(views)@, *task, source_cpu as int, prefer_cpu as int, selection),
        final(views)@ == announced(old(views)@, selection),
        selection.cpu_id < old(views)@.len(),
{
    let mask: u64 = task.cpus_allowed;
    let weight: u64 = task_weight_from_value(task.se.load_weight);
    let n: usize = views.len();
    let preferred: u64 = if cpu_allowed(mask, prefer_cpu) && prefer_cpu < n as u64 {
        prefer_cpu
    } else {
        allowed_fallback(mask, source_cpu, n)
    };
    let rest: u64 = allowed_fallback(mask, preferred, n);
    if task.on_main_hart || n <= 1 {
        return CpuSelection { cpu_id: rest, reserved: false };
    }
    match choose_cpu(views, mask, weight, preferred) {
        None => {
            assert(is_choice(old(views)@, mask, weight, preferred as int, None));
            CpuSelection { cpu_id: rest, reserved: false }
        },
        Some(c) => {
            assert(is_choice(old(views)@, mask, weight, preferred as int, Some(c)));
            let mut view = views[c];
            let seen: u64 = view.wake_reservations;
            let _ = view.try_reserve_wakeup(seen);
            views[c] = view;
            CpuSelection { cpu_id: c as u64, reserved: true }
        },
    }
}

/// How the queues and a task are after it was to be put on a processor.
pub open spec fn enqueued_on(
    before: RqArray,
    task: SchedTask,
    cpu_id: u64,
    is_new_runnable: bool,
    after: RqArray,
    task_after: SchedTask,
    done: bool,
) -> bool {
    &&& after.wf()
    &&& done == (cpu_id < before.rqs@.len() && task.state != TaskStatus::Zombie && !task.on_rq)
    &&& task_after == if cpu_id >= before.rqs@.len() {
        task
    } else if task.state == TaskStatus::Zombie {
        SchedTask { on_rq: false, on_cpu: false, ..task }
    } else if task.on_rq {
        readied(task, cpu_id)
    } else {
        in_queue(readied(task, cpu_id))
    }
    &&& !done ==> after == before
    &&& done ==> {
        &&& put_on(before, after, task, cpu_id)
        &&& after.views@ == if is_new_runnable {
            before.views@.update(
                cpu_id as int,
                with_runnable(
                    before.views@[cpu_id as int],
                    counted_weight(task.se.load_weight),
                ),
            )
        } else {
            before.views@
        }
    }
}

/// How the queues and a task are after it was to wait for a processor.
pub open spec fn pooled(
    before: RqArray,
    task: SchedTask,
    local_cpu: u64,
    after: RqArray,
    task_after: SchedTask,
    done: bool,
) -> bool {
    &&& after.wf()
    &&& after.views@ == before.views@
    &&& done == can_queue(task)
    &&& {
        let cpu = if task.cpu < before.rqs@.len() {
            task.cpu
        } else {
            local_cpu
        };
        &&& task_after == task_put(task, cpu)
        &&& if done {
            put_on(before, after, task, cpu)
        } else {
            after.rqs == before.rqs
        }
    }
}

/// The task that runs next: the one that stops all others, then by deadline, by priority and by
/// level, and last the one that idles.
pub open spec fn next_task(rq: Rqinner) -> Option<u64> {
    if rq.stop.runnable && rq.stop.stop is Some {
        rq.stop.stop
    } else if rq.deadline@.len() > 0 {
        Some(rq.deadline@[0].1.tid)
    } else if rq.rt.tasks@.len() > 0 {
        Some(rq.rt.tasks@[0].task.tid)
    } else {
        match rq.cfs@.head() {
            Some((next, _)) => Some(next.tid),
            None => rq.idle.idle,
        }
    }
}

/// A task goes to a processor that it may run on and that takes tasks, where there is one.
pub proof fn law_placed_where_allowed(
    views: Seq<RqView>,
    task: SchedTask,
    source: int,
    prefer: int,
    selection: CpuSelection,
    cpu: int,
)
    requires
        1 < views.len() <= u64::MAX,
        selected(views, task, source, prefer, selection),
        !task.on_main_hart,
        eligible(views, task.cpus_allowed, cpu),
    ensures
        eligible(views, task.cpus_allowed, selection.cpu_id as int),
        selection.reserved,
{
    let mask = task.cpus_allowed;
    let n = views.len() as int;
    let weight = counted_weight(task.se.load_weight);
    let preferred = preferred_cpu(mask, source, prefer, n);
    let choice = choose|choice: Option<usize>|
        #[trigger] is_choice(views, mask, weight, preferred, choice) && selection == match choice {
            Some(c) => CpuSelection { cpu_id: c as u64, reserved: true },
            None => CpuSelection { cpu_id: fallback(mask, preferred, n) as u64, reserved: false },
        };
    assert(is_idle(views[cpu]) || !is_idle(views[cpu]));
}

/// A processor without work goes before all that have some.
pub proof fn law_idle_goes_first(
    views: Seq<RqView>,
    mask: u64,
    weight: u64,
    preferred: int,
    choice: Option<usize>,
    cpu: int,
)
    requires
        is_choice(views, mask, weight, preferred, choice),
        eligible(views, mask, cpu),
        is_idle(views[cpu]),
    ensures
        choice matches Some(c) && is_idle(views[c as int]),
{
}

/// The queues of all processors, with what each shows the others.
pub struct RqArray {
    pub rqs: Vec<Rqinner>,
    pub views: Vec<RqView>,
}

/// A task on its way into the queue of a processor.
pub open spec fn readied(task: SchedTask, cpu: u64) -> SchedTask {
    SchedTask { cpu, state: TaskStatus::Ready, on_cpu: false, ..task }
}

/// A task in a queue.
pub open spec fn in_queue(task: SchedTask) -> SchedTask {
    SchedTask {
        on_rq: true,
        on_cpu: false,
        se: at_level(task.policy, task.se),
        ..task
    }
}

/// A task that is put on a processor: the queues of the others stay.
pub open spec fn put_on(before: RqArray, after: RqArray, task: SchedTask, cpu: u64) -> bool {
    &&& after.rqs@.len() == before.rqs@.len()
    &&& forall|i: int|
        0 <= i < before.rqs@.len() && i != cpu ==> #[trigger] after.rqs@[i] == before.rqs@[i]
    &&& queued(before.rqs@[cpu as int], after.rqs@[cpu as int], readied(task, cpu))
}

/// The views after a processor was told of work: where it sleeps, an interrupt is on the way.
pub open spec fn kicked(views: Seq<RqView>, cpu: int, source: int) -> Seq<RqView> {
    if must_kick(views, cpu, source) {
        views.update(cpu, RqView { ipi_pending: true, ..views[cpu] })
    } else {
        views
    }
}

/// An interrupt has to be sent: the other processor sleeps and none is on the way.
pub open spec fn must_kick(views: Seq<RqView>, cpu: int, source: int) -> bool {
    0 <= cpu < views.len() && cpu != source && views[cpu].idle_state == IdleState::IdleWfi
        && !views[cpu].ipi_pending
}

/// What came of putting a task on a processor.
#[derive(Clone, Copy, Debug, PartialEq, Eq, Structural)]
pub struct Enqueued {
    /// The task is in a queue now.
    pub done: bool,
    /// The processor that has to be sent an interrupt.
    pub kick: Option<u64>,
}

impl RqArray {
    /// There is a processor, and the queues of each are in order.
    pub open spec fn wf(&self) -> bool {
        &&& self.rqs@.len() == self.views@.len()
        &&& self.rqs@.len() > 0
        &&& forall|i: int| 0 <= i < self.rqs@.len() ==> (#[trigger] self.rqs@[i]).wf()
    }

    /// Every queue can take one more.
    pub open spec fn room(&self) -> bool {
        forall|i: int|
            0 <= i < self.rqs@.len() ==> (#[trigger] self.rqs@[i]).nr_running < usize::MAX
    }

    /// Makes the queues of so many processors.
    pub fn new(count: usize) -> (array: Self)
        requires
            count > 0,
        ensures
            array.wf(),
            array.room(),
            array.rqs@.len() == count,
            forall|i: int| 0 <= i < count ==> (#[trigger] array.rqs@[i]).is_blank(),
            forall|i: int|
                0 <= i < count ==> #[trigger] array.views@[i] == (RqView {
                    runnable_count: 0,
                    runnable_weight: 0,
                    wake_reservations: 0,
                    idle_state: IdleState::Running,
                    online: false,
                    ipi_pending: false,
                }),
    {
        let mut rqs: Vec<Rqinner> = Vec::new();
        let mut views: Vec<RqView> = Vec::new();
        let mut i: usize = 0;
        while i < count
            invariant
                i <= count,
                rqs@.len() == i,
                views@.len() == i,
                forall|j: int|
                    0 <= j < i ==> (#[trigger] rqs@[j]).wf() && rqs@[j].is_blank()
                        && rqs@[j].nr_running < usize::MAX,
                forall|j: int|
                    0 <= j < i ==> #[trigger] views@[j] == (RqView {
                        runnable_count: 0,
                        runnable_weight: 0,
                        wake_reservations: 0,
                        idle_state: IdleState::Running,
                        online: false,
                        ipi_pending: false,
                    }),
            decreases count - i,
        {
            rqs.push(Rqinner::new());
            views.push(RqView::new());
            i = i + 1;
        }
        RqArray { rqs, views }
    }

    /// Puts a task into the queue of a processor; a task that was not counted is counted now.
    pub fn enqueue_task_on_cpu(
        &mut self,
        task: &mut SchedTask,
        cpu_id: u64,
        is_new_runnable: bool,
    ) -> (done: bool)
        requires
            old(self).wf(),
            old(self).room(),
            known_policy(old(task).policy),
        ensures
            enqueued_on(*old(self), *old(task), cpu_id, is_new_runnable, *final(self), *final(task), done),
    {
        if cpu_id >= self.rqs.len() as u64 {
            return false;
        }
        if task.state == TaskStatus::Zombie {
            task.on_rq = false;
            task.on_cpu = false;
            return false;
        }
        task.cpu = cpu_id;
        task.state = TaskStatus::Ready;
        task.on_cpu = false;
        if task.on_rq {
            return false;
        }
        let i: usize = cpu_id as usize;
        let enqueued = self.rqs[i].enqueue_task(task);
        if let Some(weight) = enqueued {
            if is_new_runnable {
                self.views[i].add_runnable(weight);
            }
            return true;
        }
        false
    }

    /// Tells a processor that it has work; returns whether an interrupt has to be sent.
    pub fn mark_resched_and_kick(&mut self, cpu_id: u64, source_cpu: u64) -> (send: bool)
        requires
            old(self).wf(),
        ensures
            final(self).wf(),
            final(self).rqs == old(self).rqs,
            final(self).views@ == kicked(old(self).views@, cpu_id as int, source_cpu as int),
            send == must_kick(old(self).views@, cpu_id as int, source_cpu as int),
    {
        if cpu_id >= self.views.len() as u64 || cpu_id == source_cpu {
            return false;
        }
        let i: usize = cpu_id as usize;
        let mut view = self.views[i];
        if view.idle_state == IdleState::IdleWfi && !view.ipi_pending {
            view.ipi_pending = true;
            self.views[i] = view;
            return true;
        }
        false
    }
}

/// A task can be put into a queue: it has not ended and stands in none.
pub open spec fn can_queue(task: SchedTask) -> bool {
    task.state != TaskStatus::Zombie && !task.on_rq
}

/// The task after it was put on a processor, as far as it can be.
pub open spec fn task_put(task: SchedTask, cpu: u64) -> SchedTask {
    if task.state == TaskStatus::Zombie {
        SchedTask { on_rq: false, on_cpu: false, ..task }
    } else if task.on_rq {
        readied(task, cpu)
    } else {
        in_queue(readied(task, cpu))
    }
}

/// The views after a task that was announced has come, or has not.
pub open spec fn consumed(views: Seq<RqView>, selection: CpuSelection) -> Seq<RqView> {
    if selection.reserved {
        let cpu = selection.cpu_id as int;
        views.update(
            cpu,
            RqView {
                wake_reservations: less(views[cpu].wake_reservations as int, 1) as u64,
                ..views[cpu]
            },
        )
    } else {
        views
    }
}

/// The views with a task more on a processor.
pub open spec fn counted_on(views: Seq<RqView>, cpu: int, weight: u64) -> Seq<RqView> {
    views.update(cpu, with_runnable(views[cpu], weight))
}

/// The views with a task less on a processor, where there is such a processor.
pub open spec fn uncounted_on(views: Seq<RqView>, cpu: int, weight: u64) -> Seq<RqView> {
    if 0 <= cpu < views.len() {
        views.update(cpu, without_runnable(views[cpu], weight))
    } else {
        views
    }
}

/// The views after a task was placed.
pub open spec fn placed_views(
    views: Seq<RqView>,
    selection: CpuSelection,
    task: SchedTask,
    is_new: bool,
    local: int,
) -> Seq<RqView> {
    let cpu = selection.cpu_id as int;
    let told = announced(views, selection);
    let weight = counted_weight(task.se.load_weight);
    if can_queue(task) {
        let there = if is_new {
            counted_on(told, cpu, weight)
        } else {
            told
        };
        let done = consumed(there, selection);
        let moved = if is_new || task.cpu == cpu {
            done
        } else {
            counted_on(uncounted_on(done, task.cpu as int, weight), cpu, weight)
        };
        kicked(moved, cpu, local)
    } else {
        consumed(told, selection)
    }
}

/// The processor that has to be sent an interrupt after a task was placed.
pub open spec fn placed_kick(
    views: Seq<RqView>,
    selection: CpuSelection,
    task: SchedTask,
    is_new: bool,
    local: int,
) -> Option<u64> {
    let cpu = selection.cpu_id as int;
    let told = announced(views, selection);
    if can_queue(task) && must_kick(told, cpu, local) {
        Some(selection.cpu_id)
    } else {
        None
    }
}

/// A task was placed on the processor that was picked for it.
pub open spec fn placed(
    before: RqArray,
    after: RqArray,
    task: SchedTask,
    selection: CpuSelection,
    is_new: bool,
    local: int,
    result: Enqueued,
) -> bool {
    &&& result.done == can_queue(task)
    &&& after.views@ == placed_views(before.views@, selection, task, is_new, local)
    &&& result.kick == placed_kick(before.views@, selection, task, is_new, local)
    &&& if result.done {
        put_on(before, after, task, selection.cpu_id)
    } else {
        after.rqs == before.rqs
    }
}

/// A task was woken: one that waited is placed, one that is being put to sleep is marked.
pub open spec fn woken(
    before: RqArray,
    after: RqArray,
    task: SchedTask,
    task_after: SchedTask,
    source_cpu: u64,
    local_cpu: u64,
    result: Enqueued,
) -> bool {
    match task.state {
        TaskStatus::Blocked => {
            let ready = SchedTask { state: TaskStatus::Ready, ..task };
            exists|selection: CpuSelection|
                #[trigger] selected(
                    before.views@,
                    ready,
                    source_cpu as int,
                    ready.cpu as int,
                    selection,
                ) && placed(
                    before,
                    after,
                    ready,
                    selection,
                    true,
                    local_cpu as int,
                    result,
                ) && task_after == task_put(ready, selection.cpu_id)
        },
        TaskStatus::BlockSaving => {
            &&& task_after == (SchedTask {
                wake_pending: true,
                wake_source_cpu: Some(source_cpu),
                ..task
            })
            &&& result == (Enqueued { done: false, kick: None })
            &&& after == before
        },
        _ => {
            &&& task_after == task
            &&& result == (Enqueued { done: false, kick: None })
            &&& after == before
        },
    }
}

impl RqArray {
    /// Puts a task on the processor that was picked for it.
    #[verifier::spinoff_prover]
    #[verifier::rlimit(50)]
    fn enqueue_selected_task(
        &mut self,
        task: &mut SchedTask,
        selection: CpuSelection,
        source_cpu: u64,
        is_new_runnable: bool,
        Ghost(before): Ghost<RqArray>,
    ) -> (result: Enqueued)
        requires
            old(self).wf(),
            old(self).room(),
            known_policy(old(task).policy),
            selection.cpu_id < old(self).rqs@.len(),
            old(self).rqs == before.rqs,
            old(self).views@ == announced(before.views@, selection),
        ensures
            final(self).wf(),
            *final(task) == task_put(*old(task), selection.cpu_id),
            placed(
                before,
                *final(self),
                *old(task),
                selection,
                is_new_runnable,
                source_cpu as int,
                result,
            ),
    {
        let target: u64 = selection.cpu_id;
        let count: usize = self.rqs.len();
        assert(target < count);
        let i: usize = target as usize;
        let from: u64 = task.cpu;
        let weight: u64 = task_weight_from_value(task.se.load_weight);
        let done: bool = self.enqueue_task_on_cpu(task, target, is_new_runnable);
        if selection.reserved {
            self.views[i].consume_wakeup_reservation();
        }
        if !done {
            return Enqueued { done, kick: None };
        }
        if !is_new_runnable && from != target {
            if from < self.views.len() as u64 {
                self.views[from as usize].remove_runnable(weight);
            }
            self.views[i].add_runnable(weight);
        }
        let send: bool = self.mark_resched_and_kick(target, source_cpu);
        Enqueued {
            done,
            kick: if send {
                Some(target)
            } else {
                None
            },
        }
    }

    /// Places a task that starts.
    pub fn enqueue_new_task(&mut self, task: &mut SchedTask, parent_cpu: u64, local_cpu: u64) -> (result:
        Enqueued)
        requires
            old(self).wf(),
            old(self).room(),
            known_policy(old(task).policy),
        ensures
            final(self).wf(),
            exists|selection: CpuSelection|
                #[trigger] selected(
                    old(self).views@,
                    *old(task),
                    local_cpu as int,
                    parent_cpu as int,
                    selection,
                ) && placed(
                    *old(self),
                    *final(self),
                    *old(task),
                    selection,
                    true,
                    local_cpu as int,
                    result,
                ) && *final(task) == task_put(*old(task), selection.cpu_id),
    {
        let ghost before = *self;
        let selection = select_task_rq(&mut self.views, task, local_cpu, parent_cpu);
        self.enqueue_selected_task(task, selection, local_cpu, true, Ghost(before))
    }

    /// Places a task that waited.
    pub fn enqueue_woken_task(
        &mut self,
        task: &mut SchedTask,
        wake_source_cpu: u64,
        local_cpu: u64,
    ) -> (result: Enqueued)
        requires
            old(self).wf(),
            old(self).room(),
            known_policy(old(task).policy),
        ensures
            final(self).wf(),
            exists|selection: CpuSelection|
                #[trigger] selected(
                    old(self).views@,
                    *old(task),
                    wake_source_cpu as int,
                    old(task).cpu as int,
                    selection,
                ) && placed(
                    *old(self),
                    *final(self),
                    *old(task),
                    selection,
                    true,
                    local_cpu as int,
                    result,
                ) && *final(task) == task_put(*old(task), selection.cpu_id),
    {
        let ghost before = *self;
        let prefer: u64 = task.cpu;
        let selection = select_task_rq(&mut self.views, task, wake_source_cpu, prefer);
        self.enqueue_selected_task(task, selection, local_cpu, true, Ghost(before))
    }

    /// Places a task that was woken before it slept: it still counts on its old processor,
    /// and takes that along where it moves.
    pub fn enqueue_resumed_task(
        &mut self,
        task: &mut SchedTask,
        wake_source_cpu: u64,
        local_cpu: u64,
    ) -> (result: Enqueued)
        requires
            old(self).wf(),
            old(self).room(),
            known_policy(old(task).policy),
        ensures
            final(self).wf(),
            exists|selection: CpuSelection|
                #[trigger] selected(
                    old(self).views@,
                    *old(task),
                    wake_source_cpu as int,
                    old(task).cpu as int,
                    selection,
                ) && placed(
                    *old(self),
                    *final(self),
                    *old(task),
                    selection,
                    false,
                    local_cpu as int,
                    result,
                ) && *final(task) == task_put(*old(task), selection.cpu_id),
    {
        let ghost before = *self;
        let prefer: u64 = task.cpu;
        let selection = select_task_rq(&mut self.views, task, wake_source_cpu, prefer);
        self.enqueue_selected_task(task, selection, local_cpu, false, Ghost(before))
    }

    /// Puts the task that ran back into the queue of its processor.
    pub fn add_task_into_pool(&mut self, task: &mut SchedTask, local_cpu: u64) -> (done: bool)
        requires
            old(self).wf(),
            old(self).room(),
            known_policy(old(task).policy),
            local_cpu < old(self).rqs@.len(),
        ensures
            pooled(*old(self), *old(task), local_cpu, *final(self), *final(task), done),
    {
        let cpu: u64 = if task.cpu < self.rqs.len() as u64 {
            task.cpu
        } else {
            local_cpu
        };
        self.enqueue_task_on_cpu(task, cpu, false)
    }

    /// Takes a task out of the queue it stands in; returns the processor.
    pub fn remove_task_from_all_local_queues(&mut self, task: &mut SchedTask) -> (from: Option<
        usize,
    >)
        requires
            old(self).wf(),
        ensures
            final(self).wf(),
            match from {
                None => {
                    &&& forall|i: int|
                        0 <= i < old(self).rqs@.len() ==> !(#[trigger] old(self).rqs@[i]).contains(
                            old(task).tid,
                        )
                    &&& *final(task) == *old(task)
                    &&& final(self).views@ == old(self).views@
                },
                Some(cpu) => {
                    &&& cpu < old(self).rqs@.len()
                    &&& old(self).rqs@[cpu as int].contains(old(task).tid)
                    &&& forall|i: int|
                        0 <= i < cpu ==> !(#[trigger] old(self).rqs@[i]).contains(old(task).tid)
                    &&& exists|gone: Queued|
                        gone.tid == old(task).tid && #[trigger] taken_out(
                            old(self).rqs@[cpu as int],
                            final(self).rqs@[cpu as int],
                            gone,
                            old(task).se.load_weight,
                        )
                    &&& *final(task) == (SchedTask { on_rq: false, ..*old(task) })
                    &&& final(self).views@ == uncounted_on(
                        old(self).views@,
                        cpu as int,
                        counted_weight(old(task).se.load_weight),
                    )
                },
            },
            final(self).rqs@.len() == old(self).rqs@.len(),
            forall|i: int|
                0 <= i < old(self).rqs@.len() && from != Some(i as usize) ==> same_tasks(
                    old(self).rqs@[i],
                    #[trigger] final(self).rqs@[i],
                ),
    {
        let mut i: usize = 0;
        while i < self.rqs.len()
            invariant
                self.wf(),
                i <= self.rqs@.len(),
                self.rqs@.len() == old(self).rqs@.len(),
                self.views@ == old(self).views@,
                *task == *old(task),
                forall|j: int|
                    0 <= j < i ==> !(#[trigger] old(self).rqs@[j]).contains(old(task).tid),
                forall|j: int|
                    i <= j < self.rqs@.len() ==> #[trigger] self.rqs@[j] == old(self).rqs@[j],
                forall|j: int|
                    0 <= j < self.rqs@.len() ==> same_tasks(
                        old(self).rqs@[j],
                        #[trigger] self.rqs@[j],
                    ),
            decreases self.rqs@.len() - i,
        {
            let removed = self.rqs[i].remove_task(task.tid, task.se.load_weight);
            if let Some(gone) = removed {
                task.on_rq = false;
                let weight: u64 = task_weight_from_value(task.se.load_weight);
                self.views[i].remove_runnable(weight);
                assert(taken_out(
                    old(self).rqs@[i as int],
                    self.rqs@[i as int],
                    gone,
                    old(task).se.load_weight,
                ));
                return Some(i);
            }
            i = i + 1;
        }
        None
    }

    /// Wakes a task: one that waits is placed, one that is being put to sleep is marked.
    pub fn wake_up_task(&mut self, task: &mut SchedTask, source_cpu: u64, local_cpu: u64) -> (result:
        Enqueued)
        requires
            old(self).wf(),
            old(self).room(),
            known_policy(old(task).policy),
        ensures
            final(self).wf(),
            woken(
                *old(self),
                *final(self),
                *old(task),
                *final(task),
                source_cpu,
                local_cpu,
                result,
            ),
    {
        if task.state == TaskStatus::Blocked {
            task.state = TaskStatus::Ready;
            return self.enqueue_woken_task(task, source_cpu, local_cpu);
        }
        if task.state == TaskStatus::BlockSaving {
            task.wake_pending = true;
            task.wake_source_cpu = Some(source_cpu);
        }
        Enqueued { done: false, kick: None }
    }

    /// The processor takes tasks now.
    pub fn scheduler_cpu_online(&mut self, cpu_id: u64)
        requires
            old(self).wf(),
        ensures
            final(self).wf(),
            final(self).rqs == old(self).rqs,
            final(self).views@ == if cpu_id < old(self).views@.len() {
                old(self).views@.update(
                    cpu_id as int,
                    RqView { online: true, ..old(self).views@[cpu_id as int] },
                )
            } else {
                old(self).views@
            },
    {
        if cpu_id < self.views.len() as u64 {
            let i: usize = cpu_id as usize;
            let mut view = self.views[i];
            view.online = true;
            self.views[i] = view;
        }
    }

    /// Sets what a processor shows while it has no task.
    fn set_idle_state(&mut self, cpu_id: u64, state: IdleState)
        requires
            old(self).wf(),
        ensures
            final(self).wf(),
            final(self).rqs == old(self).rqs,
            final(self).views@ == idle_set(old(self).views@, cpu_id as int, state),
    {
        if cpu_id < self.views.len() as u64 {
            let i: usize = cpu_id as usize;
            let mut view = self.views[i];
            view.idle_state = state;
            self.views[i] = view;
        }
    }

    /// The processor has work.
    pub fn scheduler_cpu_running(&mut self, cpu_id: u64)
        requires
            old(self).wf(),
        ensures
            final(self).wf(),
            final(self).rqs == old(self).rqs,
            final(self).views@ == idle_set(old(self).views@, cpu_id as int, IdleState::Running),
    {
        self.set_idle_state(cpu_id, IdleState::Running);
    }

    /// The processor is about to sleep.
    pub fn scheduler_idle_prepare(&mut self, cpu_id: u64)
        requires
            old(self).wf(),
        ensures
            final(self).wf(),
            final(self).rqs == old(self).rqs,
            final(self).views@ == idle_set(old(self).views@, cpu_id as int, IdleState::IdlePolling),
    {
        self.set_idle_state(cpu_id, IdleState::IdlePolling);
    }

    /// Lets the processor sleep where its queues are empty; tells whether it may.
    pub fn scheduler_idle_arm(&mut self, cpu_id: u64) -> (empty: bool)
        requires
            old(self).wf(),
        ensures
            final(self).wf(),
            final(self).rqs == old(self).rqs,
            empty == (cpu_id < old(self).rqs@.len() && old(self).rqs@[cpu_id as int].count() == 0),
            final(self).views@ == idle_set(
                old(self).views@,
                cpu_id as int,
                if empty {
                    IdleState::IdleWfi
                } else {
                    IdleState::Running
                },
            ),
    {
        if cpu_id >= self.rqs.len() as u64 {
            return false;
        }
        let empty: bool = self.rqs[cpu_id as usize].nr_running == 0;
        self.set_idle_state(
            cpu_id,
            if empty {
                IdleState::IdleWfi
            } else {
                IdleState::Running
            },
        );
        empty
    }

    /// The processor is awake and has seen its interrupt.
    pub fn scheduler_idle_exit(&mut self, cpu_id: u64)
        requires
            old(self).wf(),
        ensures
            final(self).wf(),
            final(self).rqs == old(self).rqs,
            final(self).views@ == if cpu_id < old(self).views@.len() {
                old(self).views@.update(
                    cpu_id as int,
                    RqView {
                        idle_state: IdleState::Running,
                        ipi_pending: false,
                        ..old(self).views@[cpu_id as int]
                    },
                )
            } else {
                old(self).views@
            },
    {
        if cpu_id < self.views.len() as u64 {
            let i: usize = cpu_id as usize;
            let mut view = self.views[i];
            view.idle_state = IdleState::Running;
            view.ipi_pending = false;
            self.views[i] = view;
        }
    }

    /// The task that ran does not count any more.
    pub fn scheduler_task_stopped(&mut self, cpu_id: u64, weight: u64)
        requires
            old(self).wf(),
        ensures
            final(self).wf(),
            final(self).rqs == old(self).rqs,
            final(self).views@ == uncounted_on(
                old(self).views@,
                cpu_id as int,
                counted_weight(weight),
            ),
    {
        if cpu_id < self.views.len() as u64 {
            let counted: u64 = task_weight_from_value(weight);
            self.views[cpu_id as usize].remove_runnable(counted);
        }
    }
}

/// The views with the state of a processor set, where there is such a processor.
pub open spec fn idle_set(views: Seq<RqView>, cpu: int, state: IdleState) -> Seq<RqView> {
    if 0 <= cpu < views.len() {
        views.update(cpu, RqView { idle_state: state, ..views[cpu] })
    } else {
        views
    }
}

/// A processor does not sleep through work: after it was allowed to sleep,
/// a task that is put there from another processor sends it an interrupt.
pub proof fn law_no_lost_wakeup(
    before: RqArray,
    after: RqArray,
    task: SchedTask,
    selection: CpuSelection,
    local: int,
    result: Enqueued,
)
    requires
        before.wf(),
        selection.cpu_id < before.views@.len(),
        before.views@[selection.cpu_id as int].idle_state == IdleState::IdleWfi,
        local != selection.cpu_id,
        placed(before, after, task, selection, true, local, result),
        result.done,
    ensures
        after.views@[selection.cpu_id as int].ipi_pending,
        result.kick is None ==> before.views@[selection.cpu_id as int].ipi_pending,
{
}

/// A task that moves keeps the load as a whole: what its old processor loses, the new one gets.
pub proof fn law_load_moves(
    before: RqArray,
    after: RqArray,
    task: SchedTask,
    selection: CpuSelection,
    local: int,
    result: Enqueued,
)
    requires
        before.wf(),
        selection.cpu_id < before.views@.len(),
        task.cpu < before.views@.len(),
        task.cpu != selection.cpu_id,
        before.views@[task.cpu as int].runnable_count >= 1,
        before.views@[selection.cpu_id as int].runnable_count < u64::MAX,
        placed(before, after, task, selection, false, local, result),
        result.done,
    ensures
        after.views@[task.cpu as int].runnable_count == before.views@[task.cpu as int].runnable_count
            - 1,
        after.views@[selection.cpu_id as int].runnable_count
            == before.views@[selection.cpu_id as int].runnable_count + 1,
{
}

/// No more tasks have a priority than there are tasks.
proof fn lemma_at_least_bound(s: Seq<RtTask>, priority: u64)
    ensures
        at_least(s, priority) <= s.len(),
    decreases s.len(),
{
    if s.len() > 0 {
        lemma_at_least_bound(s.skip(1), priority);
    }
}

/// The place of a task is in the queue.
proof fn lemma_rt_place(s: Seq<RtTask>, tid: u64, i: int)
    requires
        0 <= i,
    ensures
        rt_place(s, tid, i) matches Some(k) ==> i <= k < s.len(),
    decreases s.len() - i,
{
    if i < s.len() {
        lemma_rt_place(s, tid, i + 1);
    }
}

/// The place of a task is in its level.
proof fn lemma_find(levels: Levels, tid: u64)
    ensures
        levels.find(tid) matches Some((level, i)) ==> 0 <= i < (if level == 0 {
            levels.first.len()
        } else if level == 1 {
            levels.second.len()
        } else {
            levels.third.len()
        }),
{
    lemma_place(levels.first, tid, 0);
    lemma_place(levels.second, tid, 0);
    lemma_place(levels.third, tid, 0);
}

proof fn lemma_place(s: Seq<Queued>, tid: u64, i: int)
    requires
        0 <= i,
    ensures
        super::cfs_rq::place_of(s, tid, i) matches Some(k) ==> i <= k < s.len(),
    decreases s.len() - i,
{
    if i < s.len() {
        lemma_place(s, tid, i + 1);
    }
}

} // verus!
