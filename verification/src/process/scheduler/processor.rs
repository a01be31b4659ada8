//! What happens to a task around the time it runs.

use vstd::prelude::*;

use super::cfs_rq::{more, CfsRq};
use super::runqueue::{
    by_feedback, can_queue, counted_weight, known_policy, placed, put_on, selected, task_put,
    uncounted_on, CpuSelection, Enqueued, RqArray, SchedTask, SCHED_BATCH, SCHED_IDLE, SCHED_OTHER,
};
use crate::process::task::context::TaskContext;
use crate::process::task::sched::SchedEntity;
use crate::process::task::status::TaskStatus;

verus! {

/// A processor: the task it runs, and where it goes on when that stops.
pub struct Processor {
    pub current: Option<u64>,
    pub idle_task_cx: TaskContext,
}

impl Processor {
    /// Starts without a task.
    pub fn new() -> (processor: Self)
        ensures
            processor.current is None,
            processor.idle_task_cx.ra == 0,
            processor.idle_task_cx.sp == 0,
            forall|i: int| 0 <= i < 12 ==> #[trigger] processor.idle_task_cx.s@[i] == 0,
    {
        Processor { current: None, idle_task_cx: TaskContext::zero_init() }
    }

    /// Returns the task that runs and forgets it.
    pub fn take_current(&mut self) -> (tid: Option<u64>)
        ensures
            tid == old(self).current,
            final(self).current is None,
            final(self).idle_task_cx == old(self).idle_task_cx,
    {
        let tid = self.current;
        self.current = None;
        tid
    }

    /// Returns the task that runs.
    pub fn current(&self) -> (tid: Option<u64>)
        ensures
            tid == self.current,
    {
        self.current
    }
}

/// The time that a task of a level may run; none where its class does not say.
pub open spec fn slice_of(policy: i64, level: u64) -> u64 {
    if !by_feedback(policy) {
        0
    } else if level == 0 {
        1
    } else if level == 1 {
        2
    } else {
        5
    }
}

/// The level after a task ran once more.
pub open spec fn level_after(level: u64) -> u64 {
    if level == 0 {
        1
    } else {
        2
    }
}

/// A task that a processor starts to run.
pub open spec fn started(task: SchedTask, cpu: u64, now: u64) -> SchedTask {
    SchedTask {
        cpu,
        on_rq: false,
        on_cpu: true,
        state: TaskStatus::Running,
        need_resched: false,
        se: SchedEntity {
            exec_start: now,
            queue_level: if by_feedback(task.policy) {
                level_after(task.se.queue_level)
            } else {
                task.se.queue_level
            },
            ..task.se
        },
        ..task
    }
}

/// Lets a processor run a task from now on; returns for how many milliseconds,
/// or zero where the class decides.
pub fn start_task(task: &mut SchedTask, cpu_id: u64, now: u64) -> (slice_ms: u64)
    ensures
        *final(task) == started(*old(task), cpu_id, now),
        slice_ms == slice_of(old(task).policy, old(task).se.queue_level),
{
    task.cpu = cpu_id;
    task.on_rq = false;
    task.on_cpu = true;
    task.state = TaskStatus::Running;
    task.need_resched = false;
    task.se.exec_start = now;
    if task.policy == SCHED_OTHER || task.policy == SCHED_BATCH || task.policy == SCHED_IDLE {
        let slice_ms: u64 = CfsRq::time_slice_ms(task.se.queue_level);
        task.se.queue_level = if task.se.queue_level == 0 {
            1
        } else {
            2
        };
        slice_ms
    } else {
        0
    }
}

/// The time that a task ran, which is something.
pub open spec fn ran(se: SchedEntity, now: u64) -> int {
    if now - se.exec_start >= 1 {
        now - se.exec_start
    } else {
        1
    }
}

/// The time that a task ran by its weight, which is something.
pub open spec fn weighed(delta: int, weight: u64) -> int {
    let scaled = if delta * 1024 <= u64::MAX {
        delta * 1024
    } else {
        u64::MAX as int
    };
    let share = scaled / (counted_weight(weight) as int);
    if share >= 1 {
        share
    } else {
        1
    }
}

/// The times of a task after it ran.
pub open spec fn settled(se: SchedEntity, now: u64) -> SchedEntity {
    SchedEntity {
        prev_sum_exec_runtime: se.sum_exec_runtime,
        sum_exec_runtime: more(se.sum_exec_runtime as int, ran(se, now)) as u64,
        vruntime: more(se.vruntime as int, weighed(ran(se, now), se.load_weight)) as u64,
        exec_start: 0,
        ..se
    }
}

/// Counts the time that a task ran.
pub fn settle(se: &mut SchedEntity, now: u64)
    ensures
        *final(se) == settled(*old(se), now),
{
    let passed: u64 = now.saturating_sub(se.exec_start);
    let delta: u64 = if passed >= 1 {
        passed
    } else {
        1
    };
    se.prev_sum_exec_runtime = se.sum_exec_runtime;
    se.sum_exec_runtime = se.sum_exec_runtime.saturating_add(delta);
    let weight: u64 = if se.load_weight >= 1 {
        se.load_weight
    } else {
        1
    };
    let scaled: u64 = match delta.checked_mul(1024) {
        Some(product) => product,
        None => u64::MAX,
    };
    let share: u64 = scaled / weight;
    let step: u64 = if share >= 1 {
        share
    } else {
        1
    };
    se.vruntime = se.vruntime.saturating_add(step);
    se.exec_start = 0;
}

/// What is to be done with a task that stopped running.
#[derive(Clone, Copy, Debug, PartialEq, Eq, Structural)]
pub enum Stopped {
    /// It was woken before it slept, from the processor.
    Resumed(u64),
    /// It can run on.
    Ready,
    /// It waits or has ended.
    Gone,
}

/// A task after it stopped running.
pub open spec fn stopped(task: SchedTask, now: u64) -> SchedTask {
    let se = settled(task.se, now);
    if task.state == TaskStatus::BlockSaving {
        if task.wake_pending {
            SchedTask {
                se,
                on_cpu: false,
                state: TaskStatus::Ready,
                wake_pending: false,
                wake_source_cpu: None,
                ..task
            }
        } else {
            SchedTask {
                se,
                on_cpu: false,
                state: TaskStatus::Blocked,
                wake_source_cpu: None,
                ..task
            }
        }
    } else {
        SchedTask { se, on_cpu: false, ..task }
    }
}

/// What is to be done with a task that stopped running.
pub open spec fn after_stop(task: SchedTask) -> Stopped {
    if task.state == TaskStatus::BlockSaving {
        if task.wake_pending {
            match task.wake_source_cpu {
                Some(cpu) => Stopped::Resumed(cpu),
                None => Stopped::Ready,
            }
        } else {
            Stopped::Gone
        }
    } else if task.state == TaskStatus::Ready {
        Stopped::Ready
    } else {
        Stopped::Gone
    }
}

/// Settles a task that stopped running: one that was put to sleep sleeps now,
/// unless it was woken in between.
pub fn stop_task(task: &mut SchedTask, now: u64) -> (next: Stopped)
    ensures
        *final(task) == stopped(*old(task), now),
        next == after_stop(*old(task)),
{
    let mut se = task.se;
    settle(&mut se, now);
    task.se = se;
    task.on_cpu = false;
    if task.state == TaskStatus::BlockSaving {
        if task.wake_pending {
            task.state = TaskStatus::Ready;
            task.wake_pending = false;
            let source = task.wake_source_cpu;
            task.wake_source_cpu = None;
            match source {
                Some(cpu) => Stopped::Resumed(cpu),
                None => Stopped::Ready,
            }
        } else {
            task.state = TaskStatus::Blocked;
            task.wake_source_cpu = None;
            Stopped::Gone
        }
    } else if task.state == TaskStatus::Ready {
        Stopped::Ready
    } else {
        Stopped::Gone
    }
}

/// How the queues and a task are after it left the processor.
pub open spec fn returned(
    before: RqArray,
    task: SchedTask,
    now: u64,
    local_cpu: u64,
    after: RqArray,
    task_after: SchedTask,
    kick: Option<u64>,
) -> bool {
    &&& after.wf()
    &&& {
        let done = stopped(task, now);
        match after_stop(task) {
            Stopped::Resumed(source) => exists|selection: CpuSelection|
                #[trigger] selected(
                    before.views@,
                    done,
                    source as int,
                    done.cpu as int,
                    selection,
                ) && placed(
                    before,
                    after,
                    done,
                    selection,
                    false,
                    local_cpu as int,
                    Enqueued { done: can_queue(done), kick },
                ) && task_after == task_put(done, selection.cpu_id),
            Stopped::Ready => {
                let cpu = if done.cpu < before.rqs@.len() {
                    done.cpu
                } else {
                    local_cpu
                };
                &&& kick is None
                &&& task_after == task_put(done, cpu)
                &&& after.views@ == before.views@
                &&& if can_queue(done) {
                    put_on(before, after, done, cpu)
                } else {
                    after.rqs == before.rqs
                }
            },
            Stopped::Gone => {
                &&& kick is None
                &&& task_after == done
                &&& after.rqs == before.rqs
                &&& after.views@ == uncounted_on(
                    before.views@,
                    done.cpu as int,
                    counted_weight(done.se.load_weight),
                )
            },
        }
    }
}

impl RqArray {
    /// Takes a task back that stopped running: it goes into a queue, or does not count any more.
    /// Returns the processor that has to be sent an interrupt.
    pub fn task_returned(&mut self, task: &mut SchedTask, now: u64, local_cpu: u64) -> (kick: Option<
        u64,
    >)
        requires
            old(self).wf(),
            old(self).room(),
            known_policy(old(task).policy),
            local_cpu < old(self).rqs@.len(),
        ensures
            returned(*old(self), *old(task), now, local_cpu, *final(self), *final(task), kick),
    {
        match stop_task(task, now) {
            Stopped::Resumed(source) => {
                let result = self.enqueue_resumed_task(task, source, local_cpu);
                result.kick
            },
            Stopped::Ready => {
                let _ = self.add_task_into_pool(task, local_cpu);
                None
            },
            Stopped::Gone => {
                self.scheduler_task_stopped(task.cpu, task.se.load_weight);
                None
            },
        }
    }
}

/// A task that is woken while it is being put to sleep does not sleep.
pub proof fn law_wake_is_not_lost(task: SchedTask, now: u64)
    requires
        task.state == TaskStatus::BlockSaving,
        task.wake_pending,
    ensures
        stopped(task, now).state == TaskStatus::Ready,
        after_stop(task) != Stopped::Gone,
        !stopped(task, now).wake_pending,
{
}

/// Time by weight goes forward, and for a task with the usual share as the clock does.
pub proof fn law_vruntime_advances(se: SchedEntity, now: u64)
    requires
        se.vruntime < u64::MAX,
    ensures
        settled(se, now).vruntime > se.vruntime,
        settled(se, now).sum_exec_runtime >= se.sum_exec_runtime,
        se.load_weight == 1024 && ran(se, now) * 1024 <= u64::MAX && se.vruntime + ran(se, now)
            <= u64::MAX ==> settled(se, now).vruntime == se.vruntime + ran(se, now),
{
    if se.load_weight == 1024 {
        let d = ran(se, now);
        assert(counted_weight(se.load_weight) as int == 1024);
        assert((d * 1024) / 1024 == d);
    }
}

} // verus!
