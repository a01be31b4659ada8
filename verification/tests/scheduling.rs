use std::collections::BTreeMap;

use shellcore::process::scheduler::cfs_rq::{CfsRq, Queued};
use shellcore::process::scheduler::deadline_rq::DeadlineRq;
use shellcore::process::scheduler::futex::FutexTable;
use shellcore::process::scheduler::idle_rq::busiest_cpu;
use shellcore::process::scheduler::nanosleep::{monotonic_now_ns, SleepQueue};
use shellcore::process::scheduler::processor::{settle, start_task, stop_task, Stopped};
use shellcore::process::scheduler::rbtree::RbRootCached;
use shellcore::process::scheduler::rt_rq::RtRq;
use shellcore::process::scheduler::runqueue::{
    allowed_fallback, choose_cpu, cpu_allowed, task_weight_from_value, IdleState, RqArray, RqView,
    Rqinner, SchedTask, StealResult, SCHED_DEADLINE, SCHED_FIFO, SCHED_OTHER,
};
use shellcore::process::scheduler::wait::{suspend_current_and_run_next, WaitQueue, Waiter};
use shellcore::process::task::sched::{SchedDlEntity, SchedEntity, SchedRtEntity};
use shellcore::process::task::status::TaskStatus;

fn task(tid: u64, policy: i64, prio: i64) -> SchedTask {
    SchedTask {
        tid,
        state: TaskStatus::Ready,
        policy,
        prio,
        se: SchedEntity::new(),
        rt: SchedRtEntity::new(),
        dl: SchedDlEntity::new(),
        on_rq: false,
        on_cpu: false,
        cpu: 0,
        cpus_allowed: 0b11,
        on_main_hart: false,
        wake_pending: false,
        wake_source_cpu: None,
        need_resched: false,
    }
}

fn queued(tid: u64) -> Queued {
    Queued { tid, weight: 1024 }
}

#[test]
fn a_tree_is_sorted() {
    let mut tree: RbRootCached<u64, u64> = RbRootCached::new();
    assert!(tree.is_empty());
    let mut key = 7u64;
    for _ in 0..200 {
        key = (key * 211 + 13) % 1009;
        tree.insert(key, key * 2);
    }
    assert_eq!(tree.remove(1010), None);
    let first = tree.first_key().unwrap();
    assert_eq!(*tree.first().unwrap(), first * 2);
    let gone = tree.remove_where(|v: &u64| *v > 1000).unwrap();
    assert!(gone > 1000);
    let mut last = 0;
    let mut count = 0;
    while let Some(value) = tree.pop_first() {
        assert!(value >= last);
        last = value;
        count += 1;
    }
    assert_eq!(count, 199);
    assert!(tree.is_empty());
}

#[test]
fn pairs_with_equal_keys_are_all_there() {
    let mut tree: RbRootCached<u64, u64> = RbRootCached::new();
    tree.insert(5, 1);
    tree.insert(5, 2);
    tree.insert(3, 3);
    tree.insert(5, 4);
    assert_eq!(tree.first_key(), Some(3));
    assert_eq!(tree.pop_first(), Some(3));
    let mut rest = vec![
        tree.pop_first().unwrap(),
        tree.pop_first().unwrap(),
        tree.remove(5).unwrap(),
    ];
    rest.sort();
    assert_eq!(rest, vec![1, 2, 4]);
    assert_eq!(tree.pop_first(), None);
}

#[test]
fn only_the_pair_that_is_accepted_goes() {
    let mut tree: RbRootCached<u64, u64> = RbRootCached::new();
    for value in [10, 20, 30] {
        tree.insert(5, value);
    }
    assert_eq!(tree.remove_where(|v: &u64| *v == 20), Some(20));
    assert_eq!(tree.remove_where(|v: &u64| *v == 20), None);
    assert_eq!(tree.pop_first(), Some(10));
    assert_eq!(tree.pop_first(), Some(30));
    assert!(tree.is_empty());
}

#[test]
fn a_thread_leaves_its_level() {
    let mut rq = CfsRq::new();
    let mut tasks = BTreeMap::new();
    rq.enqueue(queued(1), 0);
    rq.enqueue(queued(2), 1);
    rq.enqueue(queued(3), 1);
    assert_eq!(rq.dequeue(4, 0, 1024), None);
    assert_eq!(rq.nr_queued, 3);
    assert_eq!(rq.dequeue(2, 0, 1024), Some(queued(2)));
    assert_eq!((rq.nr_queued, rq.load.weight), (2, 2048));
    assert_eq!(rq.pop_next(&mut tasks), Some((queued(1), 0)));
    assert_eq!(rq.pop_next(&mut tasks), Some((queued(3), 1)));
}

#[test]
fn levels_are_served_from_the_first_on() {
    let mut rq = CfsRq::new();
    let mut tasks = BTreeMap::new();
    assert_eq!(rq.enqueue(queued(1), 2), 2);
    assert_eq!(rq.enqueue(queued(2), 0), 0);
    assert_eq!(rq.enqueue(queued(3), 9), 2);
    assert_eq!(rq.pick_next().unwrap().tid, 2);
    assert_eq!(rq.load.weight, 3072);
    assert_eq!(rq.pop_next(&mut tasks), Some((queued(2), 0)));
    assert_eq!(rq.pop_next(&mut tasks), Some((queued(1), 2)));
    assert_eq!(rq.remove_task(3, 1024), Some((queued(3), 2)));
    assert_eq!(rq.pop_next(&mut tasks), None);
    assert_eq!(rq.nr_queued, 0);
    assert_eq!(CfsRq::time_slice_ms(0), 1);
    assert_eq!(CfsRq::time_slice_ms(1), 2);
    assert_eq!(CfsRq::time_slice_ms(2), 5);
}

#[test]
fn the_lowest_level_is_lifted_after_a_while() {
    let mut rq = CfsRq::new();
    let mut tasks = BTreeMap::new();
    rq.enqueue(queued(99), 2);
    let mut low = task(99, SCHED_OTHER, 0);
    low.se.queue_level = 2;
    low.se.load_weight = 10;
    tasks.insert(99, low);
    let mut rounds = 0;
    loop {
        rq.enqueue(queued(1), 0);
        rounds += 1;
        if rq.pop_next(&mut tasks).unwrap().0.tid == 99 {
            break;
        }
        assert!(rounds < 100);
    }
    assert!(rounds >= 20);
    assert_eq!(tasks[&99].se.queue_level, 0);
    assert_eq!(rq.load.weight, 1024 * rounds + 1024 - 1024 * (rounds - 1) - 10);
}

#[test]
fn the_highest_priority_and_the_first_deadline_go_first() {
    let mut rt = RtRq::new();
    rt.enqueue(queued(1), 10, true);
    rt.enqueue(queued(2), 50, false);
    rt.enqueue(queued(3), 50, true);
    assert_eq!(rt.pop_next(), Some(queued(2)));
    assert_eq!(rt.pop_next(), Some(queued(3)));
    assert_eq!(rt.remove_task(1), Some(queued(1)));
    assert_eq!(rt.pick_next(), None);
    let mut dl = DeadlineRq::new();
    dl.enqueue(queued(1), 300);
    dl.enqueue(queued(2), 100);
    assert_eq!(dl.pick_next(), Some(queued(2)));
    assert_eq!(dl.remove_task(2), Some(queued(2)));
    assert_eq!(dl.pop_next(), Some(queued(1)));
    assert_eq!(dl.pop_next(), None);
}

fn after_many_dispatches(array: &mut RqArray, tasks: &mut BTreeMap<u64, SchedTask>) {
    let mut low = task(99, SCHED_OTHER, 0);
    low.se.queue_level = 2;
    assert!(array.rqs[0].enqueue_task(&mut low).is_some());
    tasks.insert(99, low);
    for _ in 0..20 {
        let mut high = task(1, SCHED_OTHER, 0);
        array.rqs[0].enqueue_task(&mut high);
        tasks.insert(1, high);
        assert_eq!(array.fetch_task(tasks, 0), Some(1));
    }
    assert_eq!(tasks[&99].se.queue_level, 2);
}

#[test]
fn a_lifted_task_runs_as_the_highest_level_does() {
    let mut array = RqArray::new(2);
    let mut tasks = BTreeMap::new();
    after_many_dispatches(&mut array, &mut tasks);
    assert_eq!(array.fetch_task(&mut tasks, 0), Some(99));
    let mut lifted = tasks[&99];
    assert_eq!(lifted.se.queue_level, 0);
    assert_eq!(start_task(&mut lifted, 0, 1000), 1);
    assert_eq!(lifted.se.queue_level, 1);
}

#[test]
fn a_lifted_task_that_may_not_move_stays_lifted() {
    let mut array = RqArray::new(2);
    let mut tasks = BTreeMap::new();
    after_many_dispatches(&mut array, &mut tasks);
    tasks.get_mut(&99).unwrap().cpus_allowed = 1;
    let (result, _) = array.steal_task_from_cpu(&mut tasks, 0, 1, 1);
    assert_eq!(result, StealResult::Nothing);
    assert_eq!(tasks[&99].se.queue_level, 0);
    assert_eq!(array.rqs[0].cfs.first.len(), 1);
    assert_eq!(array.rqs[0].cfs.third.len(), 0);
}

#[test]
fn classes_are_served_in_their_order() {
    let mut rq = Rqinner::new();
    let mut tasks = BTreeMap::new();
    let mut other = task(1, SCHED_OTHER, 0);
    let mut fifo = task(2, SCHED_FIFO, 10);
    let mut deadline = task(3, SCHED_DEADLINE, 0);
    assert!(rq.enqueue_task(&mut other).is_some());
    assert!(rq.enqueue_task(&mut fifo).is_some());
    assert!(rq.enqueue_task(&mut deadline).is_some());
    assert_eq!(rq.pick_next_task(), Some(3));
    assert_eq!(rq.pop_next_task(&mut tasks).unwrap().tid, 3);
    assert_eq!(rq.pop_next_task(&mut tasks).unwrap().tid, 2);
    assert_eq!(rq.remove_task(1, 1024).unwrap().tid, 1);
    assert!(rq.pop_next_task(&mut tasks).is_none());
}

#[test]
fn tasks_go_where_they_may() {
    assert!(cpu_allowed(0b100, 2));
    assert!(!cpu_allowed(0b100, 1));
    assert!(!cpu_allowed(u64::MAX, 64));
    assert_eq!(allowed_fallback(0b100, 0, 4), 2);
    assert_eq!(allowed_fallback(0b101, 0, 4), 0);
    assert_eq!(task_weight_from_value(0), 1);
    let mut views = vec![RqView::new(), RqView::new(), RqView::new()];
    for view in views.iter_mut() {
        view.online = true;
        view.add_runnable(1024);
    }
    views[2].idle_state = IdleState::IdleWfi;
    views[2].remove_runnable(1024);
    assert_eq!(choose_cpu(&views, 0b111, 1024, 0), Some(2));
    let cpu = choose_cpu(&views, 0b011, 1024, 1);
    assert_eq!(cpu, Some(1));
    assert_eq!(choose_cpu(&views, 0b1000, 1024, 0), None);
}

#[test]
fn a_task_is_woken_put_and_fetched() {
    let mut array = RqArray::new(2);
    array.scheduler_cpu_online(0);
    array.scheduler_cpu_online(1);
    let mut one = task(7, SCHED_OTHER, 0);
    one.state = TaskStatus::Blocked;
    let result = array.wake_up_task(&mut one, 0, 0);
    assert!(result.done);
    assert_eq!(one.state, TaskStatus::Ready);
    assert!(one.on_rq);
    let cpu = one.cpu;
    let mut tasks = BTreeMap::new();
    tasks.insert(7, one);
    assert_eq!(array.fetch_task(&mut tasks, cpu), Some(7));
    assert_eq!(array.fetch_task(&mut tasks, cpu), None);
    let mut running = task(8, SCHED_OTHER, 0);
    running.state = TaskStatus::Running;
    assert!(!array.wake_up_task(&mut running, 0, 0).done);
}

#[test]
fn a_wake_up_while_a_task_is_saved_is_not_lost() {
    let mut array = RqArray::new(1);
    array.scheduler_cpu_online(0);
    let mut one = task(7, SCHED_OTHER, 0);
    start_task(&mut one, 0, 1000);
    let mut queue = WaitQueue::new();
    queue.block_current_and_run_next(&mut one);
    assert_eq!(one.state, TaskStatus::BlockSaving);
    assert!(!array.wake_up_task(&mut one, 0, 0).done);
    assert!(one.wake_pending);
    assert!(matches!(stop_task(&mut one, 2000), Stopped::Resumed(_)));
    assert_eq!(one.state, TaskStatus::Ready);
}

#[test]
fn running_time_is_weighed() {
    let mut se = SchedEntity::new();
    se.load_weight = 2048;
    se.exec_start = 1000;
    se.vruntime = 50;
    settle(&mut se, 1100);
    assert_eq!(se.sum_exec_runtime, 100);
    assert_eq!(se.vruntime, 100);
    let mut one = task(1, SCHED_OTHER, 0);
    assert_eq!(start_task(&mut one, 1, 10), 1);
    assert_eq!((one.cpu, one.se.queue_level, one.state), (1, 1, TaskStatus::Running));
    suspend_current_and_run_next(&mut one);
    assert_eq!(stop_task(&mut one, 20), Stopped::Ready);
    assert_eq!(one.se.sum_exec_runtime, 10);
    let mut fifo = task(2, SCHED_FIFO, 5);
    assert_eq!(start_task(&mut fifo, 1, 10), 0);
}

#[test]
fn work_is_taken_from_the_busiest() {
    assert_eq!(busiest_cpu(&vec![0, 5, 9], 0), Some(2));
    assert_eq!(busiest_cpu(&vec![0, 0, 0], 0), None);
    assert_eq!(busiest_cpu(&vec![0, 5, 9], 7), None);
}

#[test]
fn sleepers_are_woken_when_they_are_due() {
    assert_eq!(monotonic_now_ns(5), 5000);
    assert_eq!(monotonic_now_ns(u64::MAX), u64::MAX);
    let mut queue = SleepQueue::new();
    queue.push(300, 3);
    queue.push(100, 1);
    queue.push(100, 2);
    assert_eq!(queue.pop_expired(50), None);
    assert_eq!(queue.pop_expired(200), Some(1));
    assert_eq!(queue.pop_expired(200), Some(2));
    assert_eq!(queue.pop_expired(200), None);
    let mut one = task(4, SCHED_OTHER, 0);
    queue.sleep_current_until(&mut one, 250);
    assert_eq!(one.state, TaskStatus::BlockSaving);
    assert_eq!(queue.pop_expired(1000), Some(4));
    assert_eq!(queue.pop_expired(1000), Some(3));
}

#[test]
fn waiters_come_first_come_first_served() {
    let mut queue = WaitQueue::new();
    let mut tasks = BTreeMap::new();
    for (tid, state) in
        [(1, TaskStatus::Running), (2, TaskStatus::Blocked), (3, TaskStatus::BlockSaving)]
    {
        queue.push_back(tid);
        let mut one = task(tid, SCHED_OTHER, 0);
        one.state = state;
        tasks.insert(tid, one);
    }
    assert_eq!(queue.wake_up_one(&tasks), Waiter::Wake(2));
    assert_eq!(queue.wake_up_one(&tasks), Waiter::Saving(3));
    tasks.get_mut(&3).unwrap().state = TaskStatus::Ready;
    assert_eq!(queue.wake_up_one(&tasks), Waiter::Nobody);
    queue.push_back(5);
    queue.push_back(6);
    assert_eq!(queue.pop_front(), Some(5));
    assert_eq!(queue.drain(), vec![6]);
    assert_eq!(queue.pop_front(), None);
}

#[test]
fn futexes_wake_and_move_their_waiters() {
    let mut table = FutexTable::new();
    assert!(!table.block_current_on_futex_if(0x1000, 9, 1, false));
    for tid in 1..=4 {
        assert!(table.block_current_on_futex_if(0x1000, tid, if tid == 2 { 2 } else { 1 }, true));
    }
    assert_eq!(table.queue_len(0x1000), 4);
    assert_eq!(table.wake_futex_waiters(0x1000, 1, 2), vec![2]);
    assert_eq!(table.requeue_futex_waiters(0x1000, 0x2000, 1, 1, true), Ok((vec![1], 1)));
    assert_eq!(table.queue_len(0x1000), 1);
    assert_eq!(table.queue_len(0x2000), 1);
    assert_eq!(table.requeue_futex_waiters(0x1000, 0x2000, 1, 1, false), Err(()));
    assert_eq!(table.remove_futex_waiter(3), Some(0x2000));
    assert_eq!(table.remove_futex_waiter(3), None);
    table.retire_futex_wait_queue_by_key_if_unused(0x2000);
    assert_eq!(table.wake_futex_waiters(0x1000, 10, u32::MAX), vec![4]);
}

#[test]
fn all_that_wait_are_woken() {
    let mut tasks = BTreeMap::new();
    for (tid, state) in
        [(1, TaskStatus::Blocked), (2, TaskStatus::Running), (3, TaskStatus::Blocked)]
    {
        let mut one = task(tid, SCHED_OTHER, 0);
        one.state = state;
        tasks.insert(tid, one);
    }
    let mut queue = WaitQueue::new();
    for tid in [1, 2, 9, 3] {
        queue.push_back(tid);
    }
    assert_eq!(queue.wake_up_all(&tasks), (vec![1, 3], None));
    assert_eq!(queue.queue, vec![]);
    tasks.get_mut(&3).unwrap().state = TaskStatus::BlockSaving;
    for tid in [1, 3, 2] {
        queue.push_back(tid);
    }
    assert_eq!(queue.wake_up_all(&tasks), (vec![1], Some(3)));
    assert_eq!(queue.queue, vec![3, 2]);
}

#[test]
fn a_wait_can_have_an_end() {
    let mut queue = WaitQueue::new();
    let mut sleepers = SleepQueue::new();
    let mut one = task(4, SCHED_OTHER, 0);
    assert!(!queue.block_current_and_run_next_if_timeout(&mut one, &mut sleepers, 50, false));
    assert_eq!(one.state, TaskStatus::Ready);
    assert!(queue.block_current_and_run_next_if_timeout(&mut one, &mut sleepers, 50, true));
    assert_eq!(one.state, TaskStatus::BlockSaving);
    assert_eq!(queue.queue, vec![4]);
    assert_eq!(sleepers.pop_expired(49), None);
    assert_eq!(sleepers.pop_expired(50), Some(4));
}

#[test]
fn tasks_that_slept_long_enough_run_again() {
    let mut array = RqArray::new(2);
    array.scheduler_cpu_online(0);
    let mut tasks = BTreeMap::new();
    let mut sleepers = SleepQueue::new();
    for tid in [1, 2, 3] {
        let mut one = task(tid, SCHED_OTHER, 0);
        one.cpus_allowed = 0b1;
        one.state = TaskStatus::Blocked;
        tasks.insert(tid, one);
        sleepers.push(tid * 10, tid);
    }
    sleepers.push(5, 8);
    let kicks = sleepers.wake_expired_sleep_tasks(&mut array, &mut tasks, 20, 0);
    assert_eq!(kicks, vec![]);
    assert_eq!(sleepers.entries.len(), 1);
    assert_eq!(tasks[&3].state, TaskStatus::Blocked);
    assert!(tasks[&1].on_rq && tasks[&2].on_rq);
    assert_eq!(array.next_task(&mut tasks, 0), (Some(1), false));
    assert_eq!(tasks[&1].state, TaskStatus::Running);
    assert_eq!(array.next_task(&mut tasks, 1), (None, false));
    tasks.get_mut(&2).unwrap().cpus_allowed = 0b11;
    assert_eq!(array.next_task(&mut tasks, 1), (Some(2), false));
    assert_eq!(tasks[&2].cpu, 1);
    assert_eq!(array.next_task(&mut tasks, 0), (None, false));
}

#[test]
fn tasks_that_ended_are_passed_over() {
    let mut array = RqArray::new(1);
    array.scheduler_cpu_online(0);
    let mut tasks = BTreeMap::new();
    for tid in [1, 2] {
        let mut one = task(tid, SCHED_OTHER, 0);
        one.cpus_allowed = 0b1;
        array.enqueue_new_task(&mut one, 0, 0);
        tasks.insert(tid, one);
    }
    tasks.get_mut(&1).unwrap().state = TaskStatus::Zombie;
    assert_eq!(array.fetch_task(&mut tasks, 0), Some(2));
    assert!(!tasks[&1].on_rq);
    assert_eq!(array.views[0].runnable_count, 1);
    assert_eq!(array.fetch_task(&mut tasks, 0), None);
}
