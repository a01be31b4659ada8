//! Which task runs next, for how long, and where.

use vstd::prelude::*;

use crate::process::manager::{flat_priority, goes_first, sched_rank, ReadyEntry};
use crate::process::scheduler::cfs_rq::{Levels, Queued};
use crate::process::scheduler::dispatch::{
    fetched, law_fetched_alive, running_on, stolen, stolen_views,
};
use crate::process::scheduler::futex::{first_match, left_over, requeued, woken, FutexWaiter};
use crate::process::scheduler::idle_rq::busiest;
use crate::process::scheduler::nanosleep::{due_before, first_due, of_others, SleepEntry};
use crate::process::scheduler::processor::{
    after_stop, returned, settled, slice_of, started, stopped, Stopped,
};
use crate::process::scheduler::rt_rq::{at_least, RtTask};
use crate::process::scheduler::runqueue::{
    by_feedback, by_fixed_priority, enqueued_on, fallback, first_allowed, is_choice, is_idle,
    kicked, known_policy, must_kick, next_task, placed, pooled, popped, put_on, queued, score, selected, taken_out, task_put,
    with_runnable, without_runnable, CpuSelection, Enqueued, IdleState, RqArray, RqView, Rqinner,
    SchedTask, StealResult,
};
use crate::process::scheduler::runqueue;
use crate::process::scheduler::wait::{one_woken, stale_front, to_wake, WaitQueue, Waiter};
use crate::process::task::sched::SchedEntity;
use crate::process::task::status::TaskStatus;

verus! {

/// Policies 0, 3 and 5 share the processor by levels, 1 and 2 go by fixed priorities, 6 goes by
/// deadlines, and there are no others.
pub proof fn law_policies(policy: i64)
    ensures
        by_feedback(policy) <==> policy == 0 || policy == 3 || policy == 5,
        by_fixed_priority(policy) <==> policy == 1 || policy == 2,
        known_policy(policy) <==> policy == 0 || policy == 1 || policy == 2 || policy == 3 || policy
            == 5 || policy == 6,
{
}

/// A task with a deadline goes before every task with a fixed priority, which goes before every
/// other; among those the highest level goes first, and in each the one that came first.
pub proof fn law_who_runs_next(
    before: Rqinner,
    tasks: Map<u64, SchedTask>,
    after: Rqinner,
    next: Queued,
)
    requires
        popped(before, tasks, after, next),
    ensures
        before.deadline@.len() > 0 ==> next == before.deadline@[0].1 && after.rt == before.rt
            && after.cfs == before.cfs && after.deadline@.len() == before.deadline@.len() - 1,
        before.deadline@.len() == 0 && before.rt.tasks@.len() > 0 ==> next
            == before.rt.tasks@[0].task && after.cfs == before.cfs && after.rt.tasks@.len()
            == before.rt.tasks@.len() - 1,
        before.deadline@.len() == 0 && before.rt.tasks@.len() == 0 && before.cfs@.dispatches < 20
            ==> {
            &&& before.cfs@.first.len() > 0 ==> next == before.cfs@.first[0] && after.cfs@.second
                == before.cfs@.second && after.cfs@.third == before.cfs@.third
                && after.cfs@.first.len() == before.cfs@.first.len() - 1
            &&& before.cfs@.first.len() == 0 && before.cfs@.second.len() > 0 ==> next
                == before.cfs@.second[0] && after.cfs@.third == before.cfs@.third
                && after.cfs@.second.len() == before.cfs@.second.len() - 1
            &&& before.cfs@.first.len() == 0 && before.cfs@.second.len() == 0 ==> next
                == before.cfs@.third[0] && after.cfs@.third.len() == before.cfs@.third.len() - 1
        },
        after.nr_running == before.nr_running - 1,
{
}

/// After 20 choices the tasks of the lowest level stand behind those of the highest, in their
/// order, and the count starts anew. Before that every task stays where it is.
pub proof fn law_lowest_level_is_lifted(levels: Levels)
    ensures
        levels.dispatches < 20 ==> levels.lifted() == levels,
        levels.dispatches >= 20 ==> {
            &&& levels.lifted().first == levels.first + levels.third
            &&& levels.lifted().second == levels.second
            &&& levels.lifted().third.len() == 0
            &&& levels.lifted().dispatches == 0
        },
        levels.lifted().count() == levels.count(),
{
}

/// Each choice of a task counts towards the next lift, and leaves the tasks behind it in their
/// order.
pub proof fn law_one_task_is_taken(levels: Levels)
    requires
        levels.count() > 0,
    ensures
        levels.popped().dispatches == levels.dispatches + 1,
        levels.popped().count() == levels.count() - 1,
        levels.head() is Some,
        levels.first.len() > 0 ==> levels.popped().first == levels.first.subrange(
            1,
            levels.first.len() as int,
        ),
        levels.first.len() == 0 && levels.second.len() > 0 ==> levels.popped().second
            == levels.second.subrange(1, levels.second.len() as int),
        levels.first.len() == 0 && levels.second.len() == 0 ==> levels.popped().third
            == levels.third.subrange(1, levels.third.len() as int),
{
}

/// How many at the front have at least a priority, where the priorities fall.
proof fn lemma_at_least(s: Seq<RtTask>, priority: u64)
    requires
        forall|i: int, j: int|
            0 <= i <= j < s.len() ==> (#[trigger] s[i]).priority >= (#[trigger] s[j]).priority,
    ensures
        at_least(s, priority) <= s.len(),
        forall|i: int|
            0 <= i < at_least(s, priority) ==> (#[trigger] s[i]).priority >= priority,
        forall|i: int|
            at_least(s, priority) <= i < s.len() ==> (#[trigger] s[i]).priority < priority,
    decreases s.len(),
{
    if s.len() > 0 {
        let rest = s.skip(1);
        assert forall|i: int, j: int| 0 <= i <= j < rest.len() implies (
        #[trigger] rest[i]).priority >= (#[trigger] rest[j]).priority by {
            assert(rest[i] == s[i + 1] && rest[j] == s[j + 1]);
        }
        lemma_at_least(rest, priority);
        assert forall|i: int| 0 <= i < at_least(s, priority) implies (
        #[trigger] s[i]).priority >= priority by {
            if i > 0 {
                assert(rest[i - 1] == s[i]);
            }
        }
        assert forall|i: int| at_least(s, priority) <= i < s.len() implies (
        #[trigger] s[i]).priority < priority by {
            if s[0].priority >= priority {
                assert(rest[i - 1] == s[i]);
            } else {
                assert(s[0].priority >= s[i].priority);
            }
        }
    }
}

/// A task that has to wait is put at the end of the queue of its level, the third for every level
/// from 2 on; with a fixed priority, which is taken to be from 0 to 99, behind all that have no
/// less and before all that have less; otherwise among the deadlines. It is counted once.
pub proof fn law_where_a_task_waits(before: Rqinner, after: Rqinner, task: SchedTask)
    requires
        before.wf(),
        queued(before, after, task),
    ensures
        after.nr_running == before.nr_running + 1,
        task.policy == 0 || task.policy == 3 || task.policy == 5 ==> {
            &&& after.rt == before.rt
            &&& after.deadline == before.deadline
            &&& task.se.queue_level == 0 ==> after.cfs@.first.len() == before.cfs@.first.len() + 1
                && after.cfs@.first.last().tid == task.tid && after.cfs@.second
                == before.cfs@.second && after.cfs@.third == before.cfs@.third
            &&& task.se.queue_level == 1 ==> after.cfs@.second.len() == before.cfs@.second.len()
                + 1 && after.cfs@.second.last().tid == task.tid && after.cfs@.first
                == before.cfs@.first && after.cfs@.third == before.cfs@.third
            &&& task.se.queue_level >= 2 ==> after.cfs@.third.len() == before.cfs@.third.len() + 1
                && after.cfs@.third.last().tid == task.tid && after.cfs@.first == before.cfs@.first
                && after.cfs@.second == before.cfs@.second
        },
        task.policy == 1 || task.policy == 2 ==> {
            let priority: int = if task.prio < 0 {
                0
            } else if task.prio > 99 {
                99
            } else {
                task.prio as int
            };
            &&& after.cfs == before.cfs
            &&& after.deadline == before.deadline
            &&& exists|k: int|
                0 <= k < after.rt.tasks@.len() && (#[trigger] after.rt.tasks@[k]).task.tid
                    == task.tid && after.rt.tasks@[k].priority == priority
                    && after.rt.tasks@[k].round_robin == (task.policy == 2) && (forall|i: int|
                    0 <= i < k ==> (#[trigger] after.rt.tasks@[i]).priority >= priority) && (forall|
                    i: int,
                |
                    k < i < after.rt.tasks@.len() ==> (#[trigger] after.rt.tasks@[i]).priority
                        < priority)
        },
        task.policy == 6 ==> after.cfs == before.cfs && after.rt == before.rt
            && after.deadline@.len() == before.deadline@.len() + 1,
{
    if task.policy == 1 || task.policy == 2 {
        let s = before.rt.tasks@;
        let n = after.rt.tasks@;
        let priority = runqueue::queue_priority(task.prio);
        lemma_at_least(s, priority);
        let k = at_least(s, priority) as int;
        assert(n[k].task.tid == task.tid);
        assert forall|i: int| 0 <= i < k implies (#[trigger] n[i]).priority >= priority by {
            assert(n[i] == s[i]);
        }
        assert forall|i: int| k < i < n.len() implies (#[trigger] n[i]).priority < priority by {
            assert(n[i] == s[i - 1]);
        }
    }
}

/// A turn lasts 1, 2 or 5 ticks on the three levels; a task of another kind has no end to its
/// turn.
pub proof fn law_length_of_a_turn(policy: i64, level: u64)
    ensures
        policy == 0 || policy == 3 || policy == 5 ==> {
            &&& level == 0 ==> slice_of(policy, level) == 1
            &&& level == 1 ==> slice_of(policy, level) == 2
            &&& level >= 2 ==> slice_of(policy, level) == 5
        },
        policy == 1 || policy == 2 || policy == 6 ==> slice_of(policy, level) == 0,
{
}

/// A task that is put on a processor runs there, from now on; one that shares by levels is one
/// level lower for the next time, and never lower than the last.
pub proof fn law_start_of_a_turn(task: SchedTask, cpu: u64, now: u64)
    ensures
        ({
            let run = started(task, cpu, now);
            let shares = task.policy == 0 || task.policy == 3 || task.policy == 5;
            &&& run.state == TaskStatus::Running
            &&& run.on_cpu && !run.on_rq && !run.need_resched
            &&& run.cpu == cpu
            &&& run.se.exec_start == now
            &&& shares && task.se.queue_level == 0 ==> run.se.queue_level == 1
            &&& shares && task.se.queue_level >= 1 ==> run.se.queue_level == 2
            &&& !shares ==> run.se.queue_level == task.se.queue_level
            &&& run.tid == task.tid
            &&& run.policy == task.policy
            &&& run.prio == task.prio
            &&& run.cpus_allowed == task.cpus_allowed
            &&& run.se.vruntime == task.se.vruntime
            &&& run.se.sum_exec_runtime == task.se.sum_exec_runtime
            &&& run.wake_pending == task.wake_pending
        }),
{
}

/// The time of a turn is added up. By its weight too: times the weight it is 1024 times the time,
/// but for a rest of less than the weight, and it is never nothing.
pub proof fn law_time_of_a_turn(se: SchedEntity, now: u64)
    requires
        se.exec_start < now,
        se.sum_exec_runtime + (now - se.exec_start) <= u64::MAX,
        se.vruntime + (now - se.exec_start) * 1024 <= u64::MAX,
        (now - se.exec_start) * 1024 <= u64::MAX,
    ensures
        settled(se, now).sum_exec_runtime == se.sum_exec_runtime + (now - se.exec_start),
        settled(se, now).prev_sum_exec_runtime == se.sum_exec_runtime,
        settled(se, now).exec_start == 0,
        settled(se, now).load_weight == se.load_weight,
        settled(se, now).queue_level == se.queue_level,
        ({
            let counted = settled(se, now).vruntime - se.vruntime;
            let time = now - se.exec_start;
            &&& counted >= 1
            &&& se.load_weight >= 1 && counted > 1 ==> counted * se.load_weight <= time * 1024
            &&& se.load_weight >= 1 ==> time * 1024 < (counted + 1) * se.load_weight
            &&& se.load_weight == 0 ==> counted == time * 1024
            &&& se.load_weight == 1024 ==> counted == time
        }),
        settled(se, now).vruntime > se.vruntime,
{
    let d = now - se.exec_start;
    let w: int = if se.load_weight >= 1 {
        se.load_weight as int
    } else {
        1
    };
    let q = (d * 1024) / w;
    assert(0 <= q <= d * 1024 && q * w <= d * 1024 < (q + 1) * w) by (nonlinear_arith)
        requires
            w >= 1,
            d >= 1,
            q == (d * 1024) / w,
    ;
    if q <= 1 {
        assert((1 + 1) * w >= (q + 1) * w) by (nonlinear_arith)
            requires
                w >= 1,
                q <= 1,
        ;
    }
    if se.load_weight == 1024 {
        assert(q == d) by (nonlinear_arith)
            requires
                w == 1024,
                q == (d * 1024) / w,
        ;
    }
}

/// A task that leaves the processor is not on it any more. One that was about to sleep sleeps,
/// unless it was woken meanwhile: then it can run on, and the wake is used up. Every other task
/// keeps its state.
pub proof fn law_end_of_a_turn(task: SchedTask, now: u64)
    ensures
        ({
            let after = stopped(task, now);
            let saving = task.state == TaskStatus::BlockSaving;
            &&& !after.on_cpu
            &&& saving && !task.wake_pending ==> after.state == TaskStatus::Blocked && after_stop(
                task,
            ) == Stopped::Gone && !after.wake_pending
            &&& saving && task.wake_pending ==> after.state == TaskStatus::Ready
                && !after.wake_pending && after.wake_source_cpu is None
            &&& saving && task.wake_pending ==> after_stop(task) == match task.wake_source_cpu {
                Some(cpu) => Stopped::Resumed(cpu),
                None => Stopped::Ready,
            }
            &&& !saving ==> after.state == task.state && after.wake_pending == task.wake_pending
            &&& task.state == TaskStatus::Ready ==> after_stop(task) == Stopped::Ready
            &&& !saving && task.state != TaskStatus::Ready ==> after_stop(task) == Stopped::Gone
            &&& after.tid == task.tid && after.policy == task.policy && after.cpu == task.cpu
            &&& after.on_rq == task.on_rq && after.cpus_allowed == task.cpus_allowed
        }),
{
}

/// A task that is to wait for a processor does not run. One that has ended is put nowhere.
pub proof fn law_waiting_task(task: SchedTask, cpu: u64)
    ensures
        ({
            let put = task_put(task, cpu);
            &&& !put.on_cpu
            &&& put.tid == task.tid
            &&& task.state == TaskStatus::Zombie ==> put.state == TaskStatus::Zombie && !put.on_rq
                && put.cpu == task.cpu
            &&& task.state != TaskStatus::Zombie ==> put.state == TaskStatus::Ready && put.cpu
                == cpu && put.on_rq
            &&& put.se.vruntime == task.se.vruntime
            &&& put.se.load_weight == task.se.load_weight
            &&& task.se.queue_level <= 2 ==> put.se.queue_level == task.se.queue_level
        }),
{
}

/// A processor is sent an interrupt only where it is another one, waits for interrupts, and was
/// sent none yet; then it has one.
pub proof fn law_who_is_interrupted(views: Seq<RqView>, cpu: int, source: int, k: int)
    requires
        0 <= k < views.len(),
        0 <= cpu < views.len(),
    ensures
        must_kick(views, cpu, source) <==> cpu != source && views[cpu].idle_state
            == IdleState::IdleWfi && !views[cpu].ipi_pending,
        must_kick(views, cpu, source) ==> kicked(views, cpu, source)[cpu].ipi_pending,
        !must_kick(views, cpu, source) ==> kicked(views, cpu, source) == views,
        k != cpu ==> kicked(views, cpu, source)[k] == views[k],
        kicked(views, cpu, source)[k].runnable_count == views[k].runnable_count,
        kicked(views, cpu, source)[k].online == views[k].online,
        kicked(views, cpu, source)[k].idle_state == views[k].idle_state,
{
}

/// A processor counts the tasks that it has and their weight.
pub proof fn law_count_of_tasks(view: RqView, weight: u64)
    requires
        view.runnable_count < u64::MAX,
        view.runnable_weight + weight <= u64::MAX,
    ensures
        with_runnable(view, weight).runnable_count == view.runnable_count + 1,
        with_runnable(view, weight).runnable_weight == view.runnable_weight + weight,
        with_runnable(view, weight).idle_state == view.idle_state,
        with_runnable(view, weight).online == view.online,
        with_runnable(view, weight).wake_reservations == view.wake_reservations,
        without_runnable(with_runnable(view, weight), weight) == view,
{
}

/// Only a processor that is online and that the task may use is chosen. One that has nothing to
/// do is chosen before all that have; among its kind the chosen one has the least to do, counting
/// the tasks that are on their way at the weight of this one.
pub proof fn law_best_processor(
    views: Seq<RqView>,
    mask: u64,
    weight: u64,
    preferred: int,
    c: usize,
    k: int,
)
    requires
        is_choice(views, mask, weight, preferred, Some(c)),
        0 <= k < views.len(),
        k < 64,
        views[k].online,
        mask & (1u64 << (k as u64)) != 0,
    ensures
        c < views.len(),
        views[c as int].online,
        mask & (1u64 << (c as u64)) != 0,
        is_idle(views[k]) ==> is_idle(views[c as int]),
        is_idle(views[k]) == is_idle(views[c as int]) ==> score(views[c as int], weight) <= score(
            views[k],
            weight,
        ),
        is_idle(views[k]) == is_idle(views[c as int]) && score(views[c as int], weight) == score(
            views[k],
            weight,
        ) && k == preferred ==> c == preferred,
        is_idle(views[k]) <==> views[k].idle_state != IdleState::Running && views[k].runnable_count
            == 0,
        views[k].runnable_weight + views[k].wake_reservations * weight <= u64::MAX ==> score(
            views[k],
            weight,
        ) == views[k].runnable_weight + views[k].wake_reservations * weight,
{
    let v = views[k];
    assert(v.wake_reservations * weight >= 0) by (nonlinear_arith);
    assert(c == k || c != k);
}

/// The first processor that a task may use.
proof fn lemma_first_allowed(mask: u64, i: int, n: int)
    requires
        0 <= i,
        n <= 64,
    ensures
        match first_allowed(mask, i, n) {
            Some(k) => i <= k < n && mask & (1u64 << (k as u64)) != 0,
            None => forall|k: u64| i <= k < n ==> mask & #[trigger] (1u64 << k) == 0,
        },
    decreases n - i,
{
    if i < n {
        lemma_first_allowed(mask, i + 1, n);
    }
}

/// Where nothing is known of the processors, a task stays where it is if it may, and else goes to
/// one that it may use; only where it may use none does the place not matter.
pub proof fn law_fallback_processor(mask: u64, cpu: int, n: int, k: u64)
    requires
        0 <= cpu < n <= 64,
        k < n,
    ensures
        0 <= fallback(mask, cpu, n) < n,
        mask & (1u64 << (cpu as u64)) != 0 ==> fallback(mask, cpu, n) == cpu,
        mask & (1u64 << k) != 0 ==> mask & (1u64 << (fallback(mask, cpu, n) as u64)) != 0,
{
    lemma_first_allowed(mask, 0, n);
}

/// A task that has to stay on the main processor, or has no choice, gets no reservation.
pub proof fn law_no_choice(
    views: Seq<RqView>,
    task: SchedTask,
    source: int,
    prefer: int,
    selection: CpuSelection,
)
    requires
        selected(views, task, source, prefer, selection),
        task.on_main_hart,
        0 <= prefer < views.len() <= 64,
        task.cpus_allowed & (1u64 << (prefer as u64)) != 0,
    ensures
        selection.cpu_id == prefer,
        !selection.reserved,
{
}

/// A task that waits on one processor changes its queue there and nothing on the others.
pub proof fn law_other_queues_stay(
    before: RqArray,
    after: RqArray,
    task: SchedTask,
    cpu: u64,
    i: int,
)
    requires
        put_on(before, after, task, cpu),
        0 <= i < before.rqs@.len(),
        0 <= cpu < before.rqs@.len(),
    ensures
        i != cpu ==> after.rqs@[i] == before.rqs@[i],
        i == cpu ==> after.rqs@[i].nr_running == before.rqs@[i].nr_running + 1,
{
}

/// A task that sleeps is woken into a queue, able to run. One that is about to sleep is told, and
/// will not sleep. One that does neither is left alone.
pub proof fn law_wake(
    before: RqArray,
    after: RqArray,
    task: SchedTask,
    task_after: SchedTask,
    source_cpu: u64,
    local_cpu: u64,
    result: Enqueued,
    now: u64,
)
    requires
        runqueue::woken(before, after, task, task_after, source_cpu, local_cpu, result),
    ensures
        task.state == TaskStatus::Blocked ==> task_after.state == TaskStatus::Ready
            && task_after.on_rq && !task_after.on_cpu && (result.done <==> !task.on_rq),
        task.state == TaskStatus::BlockSaving ==> {
            &&& task_after.wake_pending
            &&& task_after.wake_source_cpu == Some(source_cpu)
            &&& after == before
            &&& !result.done
            &&& stopped(task_after, now).state == TaskStatus::Ready
        },
        task.state != TaskStatus::Blocked && task.state != TaskStatus::BlockSaving ==> task_after
            == task && after == before && !result.done,
        task_after.tid == task.tid,
{
}

/// A task goes from one processor to another only where it may: it is not bound to the main
/// processor, may use the other one, and may move. Otherwise it goes back into its queue.
pub proof fn law_stolen_task(
    before: Rqinner,
    after: Rqinner,
    known: Map<u64, SchedTask>,
    tasks_after: Map<u64, SchedTask>,
    target: u64,
    mid: Rqinner,
    next: Queued,
    tid: u64,
    weight: u64,
)
    requires
        stolen(
            before,
            after,
            known,
            tasks_after,
            target,
            mid,
            next,
            StealResult::Stolen(tid, weight),
        ),
        before.deadline@.len() > 0,
    ensures
        tid == next.tid,
        known.contains_key(tid),
        !known[tid].on_main_hart,
        known[tid].rt.migratable,
        target < 64,
        known[tid].cpus_allowed & (1u64 << target) != 0,
        known[tid].state != TaskStatus::Zombie,
        tasks_after[tid].cpu == target,
        !tasks_after[tid].on_rq,
        weight == if known[tid].se.load_weight == 0 {
            1
        } else {
            known[tid].se.load_weight
        },
        after == mid,
{
}

/// A task that is taken to run on a processor runs there.
pub proof fn law_taken_to_run(task: SchedTask, cpu: u64)
    ensures
        running_on(task, cpu).state == TaskStatus::Running,
        running_on(task, cpu).on_cpu,
        !running_on(task, cpu).on_rq,
        !running_on(task, cpu).need_resched,
        running_on(task, cpu).cpu == cpu,
        running_on(task, cpu).tid == task.tid,
        running_on(task, cpu).se == task.se,
        running_on(task, cpu).cpus_allowed == task.cpus_allowed,
{
}

/// An idle processor takes from the one that has most to do, never from itself, and from none
/// where all others have nothing.
pub proof fn law_busiest_processor(loads: Seq<u64>, cpu: int, n: int, k: int)
    requires
        0 <= k < n <= loads.len(),
        k != cpu,
    ensures
        match busiest(loads, cpu, n) {
            Some(i) => 0 <= i < n && i != cpu && loads[i] >= loads[k] && loads[i] > 0,
            None => loads[k] == 0,
        },
    decreases n,
{
    if k < n - 1 {
        law_busiest_processor(loads, cpu, n - 1, k);
    } else if n > 1 {
        lemma_busiest(loads, cpu, n - 1);
    }
}

/// What the busiest of the first processors is.
proof fn lemma_busiest(loads: Seq<u64>, cpu: int, n: int)
    requires
        0 <= n <= loads.len(),
    ensures
        busiest(loads, cpu, n) matches Some(i) ==> 0 <= i < n && i != cpu && loads[i] > 0,
    decreases n,
{
    if n > 0 {
        lemma_busiest(loads, cpu, n - 1);
    }
}

/// In the common pool a task with a fixed priority above zero goes before all without, and the
/// higher priority first; a task of policy 5 goes last of all; equals go in the order in which
/// they came.
pub proof fn law_order_of_the_pool(
    policy: i64,
    priority: i32,
    other_policy: i64,
    other_priority: i32,
    a: ReadyEntry,
    b: ReadyEntry,
)
    requires
        a.class == sched_rank(policy, priority).0,
        a.priority == sched_rank(policy, priority).1,
        b.class == sched_rank(other_policy, other_priority).0,
        b.priority == sched_rank(other_policy, other_priority).1,
    ensures
        (policy == 1 || policy == 2) && priority > 0 && !((other_policy == 1 || other_policy == 2)
            && other_priority > 0) ==> goes_first(a, b) && !goes_first(b, a),
        (policy == 1 || policy == 2) && (other_policy == 1 || other_policy == 2) && priority
            > other_priority > 0 ==> goes_first(a, b) && !goes_first(b, a),
        policy != 5 && other_policy == 5 ==> goes_first(a, b) && !goes_first(b, a),
        policy == other_policy && priority == other_priority && a.order < b.order ==> goes_first(
            a,
            b,
        ) && !goes_first(b, a),
        goes_first(a, b) || goes_first(b, a),
{
}

/// In the queue of a processor the same order is kept by one number.
pub proof fn law_order_by_one_number(
    policy: i64,
    priority: i32,
    other_policy: i64,
    other_priority: i32,
)
    requires
        0 <= priority <= 99,
        0 <= other_priority <= 99,
    ensures
        ({
            let a = sched_rank(policy, priority);
            let b = sched_rank(other_policy, other_priority);
            flat_priority(a) > flat_priority(b) <==> a.0 > b.0 || (a.0 == b.0 && a.1 > b.1)
        }),
{
}

/// The first who waits for one of the bits.
proof fn lemma_first_match(s: Seq<FutexWaiter>, bitset: u32, i: int)
    requires
        0 <= i,
    ensures
        match first_match(s, bitset, i) {
            Some(k) => {
                &&& i <= k < s.len()
                &&& s[k].bitset & bitset != 0
                &&& forall|j: int| i <= j < k ==> (#[trigger] s[j]).bitset & bitset == 0
            },
            None => forall|j: int| i <= j < s.len() ==> (#[trigger] s[j]).bitset & bitset == 0,
        },
    decreases s.len() - i,
{
    if i < s.len() {
        lemma_first_match(s, bitset, i + 1);
    }
}

/// Who waits on a word is woken in the order of waiting: the first who waits for one of the bits
/// is the first to be woken, nobody is where none waits for them or none is to be woken, and never
/// more are than was asked for.
pub proof fn law_first_waiter_on_a_word(s: Seq<FutexWaiter>, count: int, bitset: u32, k: int)
    requires
        count > 0,
        0 <= k < s.len(),
        s[k].bitset & bitset != 0,
        forall|j: int| 0 <= j < k ==> (#[trigger] s[j]).bitset & bitset == 0,
    ensures
        woken(s, count, bitset).len() >= 1,
        woken(s, count, bitset)[0] == s[k].tid,
        woken(s, count, bitset) == seq![s[k].tid] + woken(s.remove(k), count - 1, bitset),
        left_over(s, count, bitset) == left_over(s.remove(k), count - 1, bitset),
        woken(s, 0, bitset).len() == 0,
        left_over(s, 0, bitset) == s,
{
    lemma_first_match(s, bitset, 0);
}

/// How many are woken and how many stay.
pub proof fn law_number_of_woken(s: Seq<FutexWaiter>, count: int, bitset: u32)
    requires
        count >= 0,
    ensures
        woken(s, count, bitset).len() <= count,
        woken(s, count, bitset).len() + left_over(s, count, bitset).len() == s.len(),
        woken(s, count, bitset).len() < count ==> forall|j: int|
            0 <= j < left_over(s, count, bitset).len() ==> (
            #[trigger] left_over(s, count, bitset)[j]).bitset & bitset == 0,
    decreases count,
{
    if count > 0 {
        lemma_first_match(s, bitset, 0);
        match first_match(s, bitset, 0) {
            None => {},
            Some(k) => law_number_of_woken(s.remove(k), count - 1, bitset),
        }
    }
}

/// Who is not woken moves to the other word, in order and behind those who wait there, as many as
/// were asked for.
pub proof fn law_moved_waiters(
    queues: Map<u64, Seq<FutexWaiter>>,
    src: u64,
    dst: u64,
    wake: int,
    move_count: int,
)
    requires
        queues.contains_key(src),
        queues.contains_key(dst),
        src != dst,
        0 <= wake,
        0 < move_count,
        wake + move_count <= queues[src].len(),
    ensures
        ({
            let s = queues[src];
            let after = requeued(queues, src, dst, wake, move_count);
            &&& after[dst] == queues[dst] + s.subrange(wake, wake + move_count)
            &&& after[src] == s.subrange(wake + move_count, s.len() as int)
            &&& forall|key: u64|
                queues.contains_key(key) && key != src && key != dst ==> #[trigger] after[key]
                    == queues[key]
        }),
{
}

/// The sleeper that is woken first has the earliest time, which has come; the others sleep on.
pub proof fn law_earliest_sleeper(
    before: Seq<SleepEntry>,
    after: Seq<SleepEntry>,
    tid: u64,
    now_ns: u64,
    i: int,
)
    requires
        first_due(before, after, tid, now_ns),
        0 <= i < before.len(),
    ensures
        after.len() == before.len() - 1,
        exists|k: int|
            0 <= k < before.len() && (#[trigger] before[k]).tid == tid && before[k].deadline_ns
                <= now_ns && before[k].deadline_ns <= before[i].deadline_ns && (
            before[k].deadline_ns == before[i].deadline_ns ==> before[k].order <= before[i].order),
        before[i].tid != tid ==> after.contains(before[i]),
{
    let k = choose|k: int|
        {
            &&& 0 <= k < before.len()
            &&& (#[trigger] before[k]).tid == tid
            &&& before[k].deadline_ns <= now_ns
            &&& forall|i: int|
                0 <= i < before.len() ==> due_before(before[k], #[trigger] before[i])
            &&& after == before.remove(k)
        };
    assert(due_before(before[k], before[i]));
    if i < k {
        assert(after[i] == before[i]);
    } else if i > k {
        assert(after[i - 1] == before[i]);
    }
}

/// Of those who wait in a queue all that sleep are woken, in order, up to the first that is about
/// to sleep: it and all behind it stay in the queue. Who is gone or runs is passed over.
pub proof fn law_who_is_woken_from_a_queue(s: Seq<u64>, tasks: Map<u64, SchedTask>, k: int)
    requires
        0 <= k < s.len(),
        tasks.contains_key(s[k]),
        forall|j: int|
            0 <= j < k && tasks.contains_key(#[trigger] s[j]) ==> tasks[s[j]].state
                != TaskStatus::BlockSaving,
    ensures
        tasks[s[k]].state == TaskStatus::Blocked ==> to_wake(s, tasks).tids.contains(s[k]),
        tasks[s[k]].state == TaskStatus::BlockSaving ==> to_wake(s, tasks).saving == Some(s[k])
            && to_wake(s, tasks).left == s.subrange(k, s.len() as int),
    decreases s.len(),
{
    if k == 0 {
        let rest = to_wake(s.skip(1), tasks);
        if tasks[s[0]].state == TaskStatus::Blocked {
            assert(to_wake(s, tasks).tids[0] == s[0]);
        }
        assert(s.subrange(0, s.len() as int) =~= s);
    } else {
        let t = s.skip(1);
        assert(t[k - 1] == s[k]);
        assert forall|j: int| 0 <= j < k - 1 && tasks.contains_key(#[trigger] t[j]) implies tasks[t[j]].state
            != TaskStatus::BlockSaving by {
            assert(t[j] == s[j + 1]);
        }
        law_who_is_woken_from_a_queue(t, tasks, k - 1);
        let rest = to_wake(t, tasks);
        if tasks[s[k]].state == TaskStatus::Blocked {
            let i = choose|i: int| 0 <= i < rest.tids.len() && rest.tids[i] == s[k];
            if tasks.contains_key(s[0]) && tasks[s[0]].state == TaskStatus::Blocked {
                assert(to_wake(s, tasks).tids[i + 1] == s[k]);
            }
        }
        assert(t.subrange(k - 1, t.len() as int) =~= s.subrange(k, s.len() as int));
    }
}

/// A task that leaves the processor is put into a queue where it can run on, on the processor where
/// it ran or one that was chosen for it, and nowhere where it sleeps or has ended; then its
/// processor has one task less.
pub proof fn law_task_leaves_the_processor(
    before: RqArray,
    task: SchedTask,
    now: u64,
    local_cpu: u64,
    after: RqArray,
    task_after: SchedTask,
    kick: Option<u64>,
)
    requires
        returned(before, task, now, local_cpu, after, task_after, kick),
        !task.on_rq,
    ensures
        !task_after.on_cpu,
        task_after.tid == task.tid,
        task.state == TaskStatus::Ready || (task.state == TaskStatus::BlockSaving
            && task.wake_pending) ==> task_after.state == TaskStatus::Ready && task_after.on_rq,
        task.state == TaskStatus::Ready && task.cpu < before.rqs@.len() ==> task_after.cpu
            == task.cpu && kick is None,
        task.state == TaskStatus::BlockSaving && !task.wake_pending ==> task_after.state
            == TaskStatus::Blocked && !task_after.on_rq && kick is None && after.rqs == before.rqs,
        task.state == TaskStatus::Zombie || task.state == TaskStatus::Blocked ==> task_after.state
            == task.state && !task_after.on_rq && kick is None && after.rqs == before.rqs,
        (task.state == TaskStatus::Zombie || task.state == TaskStatus::BlockSaving
            && !task.wake_pending) && task.cpu < before.views@.len()
            && before.views@[task.cpu as int].runnable_count > 0
            ==> after.views@[task.cpu as int].runnable_count == before.views@[task.cpu as int].runnable_count
            - 1,
        task.state == TaskStatus::Ready ==> after.views@ == before.views@,
{
}

/// A task that is fetched to run is known and has not ended, and runs on the processor that
/// fetched it; its queue is shorter by at least one. Where none is fetched the queue is empty.
pub proof fn law_fetched_task(
    rq: Rqinner,
    views: Seq<RqView>,
    tasks: Map<u64, SchedTask>,
    cpu: u64,
    rq_after: Rqinner,
    views_after: Seq<RqView>,
    tasks_after: Map<u64, SchedTask>,
    tid: Option<u64>,
)
    requires
        fetched(rq, views, tasks, cpu, rq_after, views_after, tasks_after, tid),
    ensures
        tid matches Some(t) ==> {
            &&& tasks.contains_key(t)
            &&& tasks[t].state != TaskStatus::Zombie
            &&& tasks_after[t].state == TaskStatus::Running
            &&& tasks_after[t].on_cpu && !tasks_after[t].on_rq && !tasks_after[t].need_resched
            &&& tasks_after[t].cpu == cpu
            &&& tasks_after[t].policy == tasks[t].policy
            &&& rq_after.count() < rq.count()
        },
        tid is None ==> rq_after.count() == 0,
{
    law_fetched_alive(rq, views, tasks, cpu, rq_after, views_after, tasks_after, tid);
}

/// A task that moves from one processor to another is counted there and not here.
pub proof fn law_moved_task_is_counted(
    views: Seq<RqView>,
    source: int,
    target: int,
    local: int,
    tid: u64,
    weight: u64,
)
    requires
        0 <= source < views.len(),
        0 <= target < views.len(),
        source != target,
        views[source].runnable_count > 0,
        views[source].runnable_weight >= weight,
        views[target].runnable_count < u64::MAX,
        views[target].runnable_weight + weight <= u64::MAX,
    ensures
        ({
            let moved = stolen_views(
                views,
                source,
                target,
                local,
                StealResult::Stolen(tid, weight),
            );
            let dropped = stolen_views(
                views,
                source,
                target,
                local,
                StealResult::Dropped(weight),
            );
            &&& moved[source].runnable_count == views[source].runnable_count - 1
            &&& moved[source].runnable_weight == views[source].runnable_weight - weight
            &&& moved[target].runnable_count == views[target].runnable_count + 1
            &&& moved[target].runnable_weight == views[target].runnable_weight + weight
            &&& dropped[source].runnable_count == views[source].runnable_count - 1
            &&& dropped[target] == views[target]
            &&& stolen_views(views, source, target, local, StealResult::Nothing) == views
        }),
{
}

/// A task that comes anew to a processor is counted there, and nowhere else.
pub proof fn law_new_task_is_counted(
    before: RqArray,
    after: RqArray,
    task: SchedTask,
    selection: CpuSelection,
    local: int,
    result: Enqueued,
    k: int,
)
    requires
        placed(before, after, task, selection, true, local, result),
        before.wf(),
        selection.cpu_id < before.views@.len(),
        before.views@[selection.cpu_id as int].runnable_count < u64::MAX,
        0 <= k < before.views@.len(),
    ensures
        result.done <==> task.state != TaskStatus::Zombie && !task.on_rq,
        result.done ==> after.views@[selection.cpu_id as int].runnable_count
            == before.views@[selection.cpu_id as int].runnable_count + 1,
        !result.done ==> after.views@[selection.cpu_id as int].runnable_count
            == before.views@[selection.cpu_id as int].runnable_count && after.rqs == before.rqs,
        k != selection.cpu_id ==> after.views@[k].runnable_count == before.views@[k].runnable_count,
        result.kick matches Some(cpu) ==> cpu == selection.cpu_id && cpu != local
            && before.views@[cpu as int].idle_state == IdleState::IdleWfi,
{
}

/// A task that is taken out of its queue is gone from it, and counted no more.
pub proof fn law_task_is_taken_out(before: Rqinner, after: Rqinner, gone: Queued, weight: u64)
    requires
        before.wf(),
        taken_out(before, after, gone, weight),
    ensures
        after.nr_running == before.nr_running - 1,
        before.has_deadline(gone.tid) ==> after.deadline@.len() == before.deadline@.len() - 1
            && after.rt == before.rt && after.cfs == before.cfs,
        after.stop == before.stop,
        after.idle == before.idle,
{
}

/// Who has gone from a queue of waiters is passed over: it is unknown, or neither sleeps nor is
/// about to.
pub proof fn law_who_is_passed_over(s: Seq<u64>, tasks: Map<u64, SchedTask>, i: int)
    requires
        0 <= i < stale_front(s, tasks),
    ensures
        stale_front(s, tasks) <= s.len(),
        !tasks.contains_key(s[i]) || (tasks[s[i]].state != TaskStatus::Blocked && tasks[s[i]].state
            != TaskStatus::BlockSaving),
    decreases s.len(),
{
    let rest = s.skip(1);
    if i > 0 {
        law_who_is_passed_over(rest, tasks, i - 1);
        assert(rest[i - 1] == s[i]);
    } else {
        lemma_stale_front(rest, tasks);
    }
}

/// No more are passed over than wait.
proof fn lemma_stale_front(s: Seq<u64>, tasks: Map<u64, SchedTask>)
    ensures
        0 <= stale_front(s, tasks) <= s.len(),
    decreases s.len(),
{
    if s.len() > 0 {
        lemma_stale_front(s.skip(1), tasks);
    }
}

/// A sleeper that is taken out does not sleep any more, and all others do.
pub proof fn law_other_sleepers_stay(s: Seq<SleepEntry>, tid: u64, i: int)
    requires
        0 <= i < s.len(),
    ensures
        s[i].tid != tid ==> of_others(s, tid).contains(s[i]),
        forall|j: int|
            0 <= j < of_others(s, tid).len() ==> (#[trigger] of_others(s, tid)[j]).tid != tid,
{
    broadcast use vstd::seq_lib::group_filter_ensures;

    let keep = |entry: SleepEntry| entry.tid != tid;
    assert(of_others(s, tid) == s.filter(keep));
    assert forall|j: int| 0 <= j < of_others(s, tid).len() implies (
    #[trigger] of_others(s, tid)[j]).tid != tid by {
        assert(keep(s.filter(keep)[j]));
    }
}

/// The first who sleeps in a queue is woken and leaves it; one that is about to sleep stays, and is
/// looked at again. Who stands before it is forgotten.
pub proof fn law_first_who_sleeps(
    before: WaitQueue,
    after: WaitQueue,
    tasks: Map<u64, SchedTask>,
    next: Waiter,
    k: int,
)
    requires
        one_woken(before, after, tasks, next),
        0 <= k < before.queue@.len(),
        tasks.contains_key(before.queue@[k]),
        forall|j: int|
            0 <= j < k && tasks.contains_key(#[trigger] before.queue@[j])
                ==> tasks[before.queue@[j]].state != TaskStatus::Blocked
                && tasks[before.queue@[j]].state != TaskStatus::BlockSaving,
    ensures
        tasks[before.queue@[k]].state == TaskStatus::Blocked ==> next == Waiter::Wake(
            before.queue@[k],
        ) && after.queue@ == before.queue@.subrange(k + 1, before.queue@.len() as int),
        tasks[before.queue@[k]].state == TaskStatus::BlockSaving ==> next == Waiter::Saving(
            before.queue@[k],
        ) && after.queue@ == before.queue@.subrange(k, before.queue@.len() as int),
{
    let s = before.queue@;
    if tasks[s[k]].state == TaskStatus::Blocked || tasks[s[k]].state == TaskStatus::BlockSaving {
        lemma_stale_to(s, tasks, k);
        assert(s.skip(k) =~= s.subrange(k, s.len() as int));
        assert(s.skip(k + 1) =~= s.subrange(k + 1, s.len() as int));
    }
}

/// How many stand before the first who sleeps.
proof fn lemma_stale_to(s: Seq<u64>, tasks: Map<u64, SchedTask>, k: int)
    requires
        0 <= k < s.len(),
        tasks.contains_key(s[k]),
        tasks[s[k]].state == TaskStatus::Blocked || tasks[s[k]].state == TaskStatus::BlockSaving,
        forall|j: int|
            0 <= j < k && tasks.contains_key(#[trigger] s[j]) ==> tasks[s[j]].state
                != TaskStatus::Blocked && tasks[s[j]].state != TaskStatus::BlockSaving,
    ensures
        stale_front(s, tasks) == k,
    decreases s.len(),
{
    if k > 0 {
        let t = s.skip(1);
        assert(t[k - 1] == s[k]);
        assert forall|j: int| 0 <= j < k - 1 && tasks.contains_key(#[trigger] t[j]) implies tasks[t[j]].state
            != TaskStatus::Blocked && tasks[t[j]].state != TaskStatus::BlockSaving by {
            assert(t[j] == s[j + 1]);
        }
        lemma_stale_to(t, tasks, k - 1);
        assert(tasks.contains_key(s[0]) ==> tasks[s[0]].state != TaskStatus::Blocked);
    }
}

/// A task is put on a processor that there is, unless it has ended or waits already; then it is
/// ready there, and a new one is counted.
pub proof fn law_task_put_on_a_processor(
    before: RqArray,
    task: SchedTask,
    cpu_id: u64,
    is_new: bool,
    after: RqArray,
    task_after: SchedTask,
    done: bool,
)
    requires
        enqueued_on(before, task, cpu_id, is_new, after, task_after, done),
        before.wf(),
    ensures
        done <==> cpu_id < before.rqs@.len() && task.state != TaskStatus::Zombie && !task.on_rq,
        !done ==> after == before,
        done ==> task_after.state == TaskStatus::Ready && task_after.on_rq && !task_after.on_cpu
            && task_after.cpu == cpu_id && task_after.tid == task.tid,
        done ==> after.rqs@[cpu_id as int].nr_running == before.rqs@[cpu_id as int].nr_running + 1,
        done && is_new && before.views@[cpu_id as int].runnable_count < u64::MAX
            ==> after.views@[cpu_id as int].runnable_count
            == before.views@[cpu_id as int].runnable_count + 1,
        done && !is_new ==> after.views@ == before.views@,
{
}

/// A task that waits for a processor waits for the one it was on, or for this one where that is
/// none.
pub proof fn law_task_waits_for_a_processor(
    before: RqArray,
    task: SchedTask,
    local_cpu: u64,
    after: RqArray,
    task_after: SchedTask,
    done: bool,
)
    requires
        pooled(before, task, local_cpu, after, task_after, done),
    ensures
        done <==> task.state != TaskStatus::Zombie && !task.on_rq,
        done && task.cpu < before.rqs@.len() ==> task_after.cpu == task.cpu,
        done && task.cpu >= before.rqs@.len() ==> task_after.cpu == local_cpu,
        done ==> task_after.state == TaskStatus::Ready && task_after.on_rq,
        after.views@ == before.views@,
        !done ==> after.rqs == before.rqs,
{
}

/// The task that stops all others goes first, and the one that idles goes last.
pub proof fn law_first_and_last(rq: Rqinner)
    ensures
        rq.stop.runnable && rq.stop.stop is Some ==> next_task(rq) == rq.stop.stop,
        !rq.stop.runnable && rq.count() == 0 ==> next_task(rq) == rq.idle.idle,
        !rq.stop.runnable && rq.deadline@.len() > 0 ==> next_task(rq) == Some(
            rq.deadline@[0].1.tid,
        ),
        !rq.stop.runnable && rq.deadline@.len() == 0 && rq.rt.tasks@.len() > 0 ==> next_task(rq)
            == Some(rq.rt.tasks@[0].task.tid),
        !rq.stop.runnable && rq.deadline@.len() == 0 && rq.rt.tasks@.len() == 0
            && rq.cfs@.first.len() > 0 ==> next_task(rq) == Some(rq.cfs@.first[0].tid),
        !rq.stop.runnable && rq.deadline@.len() == 0 && rq.rt.tasks@.len() == 0
            && rq.cfs@.first.len() == 0 && rq.cfs@.second.len() > 0 ==> next_task(rq) == Some(
            rq.cfs@.second[0].tid,
        ),
{
}

} // verus!
