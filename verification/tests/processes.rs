use std::collections::BTreeMap;

use shellcore::process::child_wait::{
    wait4_block_current, wait4_should_block, waitid_should_block, wake_child_exit_waiters, Child,
    P_ALL, P_PGID, P_PID,
};
use shellcore::process::id::{
    kernel_stack_position, pid_alloc, release_tid, tid_alloc, tid_from_pid, KernelStack,
    KernelStacks, RecycleAllocator, StackLayout,
};
use shellcore::process::manager::{task_sched_rank, ProcessManager, TaskManager};
use shellcore::process::registry::Registry;
use shellcore::process::schedule::{
    add_task_in_current_hart, cores_fetch_task, current_add_tasks, get_task_count, TaskPool,
};
use shellcore::process::scheduler::runqueue::{SchedTask, SCHED_FIFO, SCHED_IDLE, SCHED_OTHER};
use shellcore::process::scheduler::wait::WaitQueue;
use shellcore::process::task::sched::{SchedDlEntity, SchedEntity, SchedRtEntity};
use shellcore::process::task::status::TaskStatus;
use shellcore::process::timer::{
    notify_target, ns_to_timespec, read_clocks, timespec_to_ns, Clocks, ITimerSpec, Notify,
    PosixTimer, PosixTimers, TimeSpec, SIGEV_NONE, SIGEV_THREAD_ID,
};

fn task(tid: u64) -> SchedTask {
    SchedTask {
        tid,
        state: TaskStatus::Ready,
        policy: SCHED_OTHER,
        prio: 0,
        se: SchedEntity::new(),
        rt: SchedRtEntity::new(),
        dl: SchedDlEntity::new(),
        on_rq: false,
        on_cpu: false,
        cpu: 0,
        cpus_allowed: 1,
        on_main_hart: false,
        wake_pending: false,
        wake_source_cpu: None,
        need_resched: false,
    }
}

#[test]
fn numbers_are_used_again() {
    let mut ids = RecycleAllocator::new_with_start(1);
    assert_eq!(ids.alloc_id(), 1);
    assert_eq!(ids.alloc_id(), 2);
    assert!(ids.can_dealloc(1));
    assert!(!ids.can_dealloc(3));
    ids.dealloc(1);
    assert!(!ids.can_dealloc(1));
    assert_eq!(ids.alloc_id(), 1);
    assert_eq!(pid_alloc(&mut ids).0, 3);
    let tid = tid_alloc(&mut ids);
    assert_eq!(tid.0, 4);
    release_tid(&mut ids, tid);
    assert_eq!(ids.alloc_id(), 4);
    release_tid(&mut ids, tid_from_pid(3));
    assert_eq!(ids.alloc_id(), 5);
}

#[test]
fn kernel_stacks_lie_below_each_other() {
    let layout = StackLayout { top: 0x7f_ffff_f000, size: 0x8000 };
    let first = kernel_stack_position(layout, 0);
    let second = kernel_stack_position(layout, 1);
    assert_eq!(first, (0x7f_ffff_7000, 0x7f_ffff_f000));
    assert_eq!(second.1, first.0 - 4096);
    assert_eq!(KernelStack(1).get_top(layout), second.1);
    assert_eq!(KernelStack(0).position_for(layout, 100, 16), 0x7f_ffff_ef90);
    let mut stacks = KernelStacks::new();
    let (stack, fresh) = stacks.kstack_alloc();
    assert!(fresh);
    assert_eq!(stacks.kernel_mapping_generation(), 1);
    assert!(!stacks.release(stack));
    let (again, fresh) = stacks.kstack_alloc();
    assert_eq!(again.0, 0);
    assert!(!fresh);
}

#[test]
fn tasks_are_registered_by_number() {
    let mut registry = Registry::new();
    registry.add_task(5, 5);
    registry.add_task(7, 5);
    registry.add_task(6, 6);
    assert_eq!(registry.tid2task(7), Some(5));
    assert_eq!(registry.tid2task(8), None);
    assert_eq!(registry.threads_of(5), vec![5, 7]);
    assert!(registry.has_other_thread(5, 5));
    assert!(!registry.has_other_thread(6, 6));
    assert_eq!(registry.list_pids(), vec![5, 6]);
    assert_eq!(registry.task_count_in_mng(), 3);
    registry.remove_from_tid2task(5);
    assert_eq!(registry.get_process(5), Some(7));
    assert_eq!(registry.remove_process(5), vec![7]);
    assert_eq!(registry.get_process(5), None);
    let mut processes = ProcessManager::new();
    processes.add_process(3, 30);
    assert_eq!(processes.get_process(3), Some(30));
    processes.remove_process(3);
    assert_eq!(processes.get_process(3), None);
}

#[test]
fn ready_tasks_go_by_class_and_then_in_order() {
    assert_eq!(task_sched_rank(SCHED_FIFO, 5), (2, 5));
    assert_eq!(task_sched_rank(SCHED_FIFO, 0), (1, 0));
    assert_eq!(task_sched_rank(SCHED_IDLE, 5), (0, 0));
    let mut manager = TaskManager::new();
    manager.add(1, SCHED_OTHER, 0);
    manager.add(2, SCHED_FIFO, 5);
    manager.add(3, SCHED_OTHER, 0);
    manager.add(1, SCHED_FIFO, 9);
    assert_eq!(manager.task_count(), 3);
    assert_eq!(manager.fetch(), Some(2));
    let mut tasks = BTreeMap::new();
    let mut blocked = task(1);
    blocked.state = TaskStatus::Blocked;
    tasks.insert(1, blocked);
    tasks.insert(3, task(3));
    assert_eq!(manager.fetch_task(&mut tasks), Some(3));
    assert_eq!(tasks[&3].state, TaskStatus::Running);
    assert_eq!(manager.fetch_task(&mut tasks), None);
}

#[test]
fn processors_take_tasks_from_the_pool() {
    let mut pool = TaskPool::new();
    let mut policies = BTreeMap::new();
    for tid in 1..=6 {
        pool.add_task(tid, SCHED_OTHER, 0);
        policies.insert(tid, (SCHED_OTHER, 0));
    }
    let mut manager = TaskManager::new();
    current_add_tasks(&mut manager, &mut pool, &policies);
    assert_eq!(manager.task_count(), 4);
    assert_eq!(pool.get_task_list(), vec![5, 6]);
    current_add_tasks(&mut manager, &mut pool, &policies);
    assert_eq!(manager.task_count(), 4);
    let mut managers = vec![manager, TaskManager::new()];
    cores_fetch_task(&mut managers, &mut pool, &policies);
    assert_eq!(get_task_count(&managers), 6);
    assert_eq!(managers[1].task_count(), 1);
    add_task_in_current_hart(&mut managers, &mut pool, 1, 1, SCHED_OTHER, 0);
    assert_eq!((managers[0].task_count(), managers[1].task_count()), (4, 2));
    pool.add_task(8, SCHED_OTHER, 0);
    pool.add_task(9, SCHED_FIFO, 3);
    assert_eq!(pool.take_task(7, false), None);
    assert_eq!(pool.auto_get_task(), vec![9, 8]);
    assert_eq!(pool.count(), 0);
    assert_eq!(pool.take_a_task(), None);
}

#[test]
fn parents_wait_for_the_children_they_name() {
    let running = Child { pid: 10, pgid: 3, state: TaskStatus::Running };
    let ended = Child { pid: 11, pgid: 4, state: TaskStatus::Zombie };
    let children = vec![running, ended];
    assert!(!wait4_should_block(&children, 3, -1));
    assert!(wait4_should_block(&children, 3, 10));
    assert!(!wait4_should_block(&children, 3, 11));
    assert!(!wait4_should_block(&children, 3, 12));
    assert!(wait4_should_block(&children, 3, 0));
    assert!(wait4_should_block(&children, 9, -3));
    assert!(!wait4_should_block(&children, 9, i32::MIN));
    assert!(waitid_should_block(&children, P_PID, 10));
    assert!(!waitid_should_block(&children, P_ALL, 0));
    assert!(waitid_should_block(&children, P_PGID, 3));
    assert!(!waitid_should_block(&children, 7, 3));
    let mut waiters = WaitQueue::new();
    let mut parent = task(2);
    assert!(wait4_block_current(&mut waiters, &mut parent, &children, 3, 10));
    assert_eq!(parent.state, TaskStatus::BlockSaving);
    assert_eq!(wake_child_exit_waiters(&mut waiters), vec![2]);
    assert!(!wait4_block_current(&mut waiters, &mut parent, &children, 3, -1));
}

#[test]
fn times_are_converted_and_come_back() {
    let time = TimeSpec { tv_sec: 3, tv_nsec: 5 };
    assert_eq!(timespec_to_ns(time), Some(3_000_000_005));
    assert_eq!(ns_to_timespec(3_000_000_005), time);
    assert_eq!(timespec_to_ns(TimeSpec { tv_sec: 0, tv_nsec: 1_000_000_000 }), None);
    let clocks = read_clocks(1_000_000, -400, 7);
    assert_eq!(clocks.realtime, 999_600);
    assert_eq!(clocks.monotonic, 7000);
    assert_eq!(clocks.clock_now_ns(0), 999_600);
    assert_eq!(clocks.clock_now_ns(1), 7000);
}

fn timer(pid: u64) -> PosixTimer {
    PosixTimer {
        owner_pid: pid,
        clock_id: 1,
        notify: 0,
        signo: 14,
        value: 0,
        target_tid: 0,
        expires_ns: None,
        interval_ns: 0,
    }
}

fn at(ns: u128) -> Clocks {
    Clocks { realtime: 0, monotonic: ns }
}

#[test]
fn timers_expire_and_are_set_anew() {
    let mut timers = PosixTimers::new();
    let id = timers.add_posix_timer(timer(5)).unwrap();
    let value = ITimerSpec {
        it_interval: TimeSpec { tv_sec: 0, tv_nsec: 100 },
        it_value: TimeSpec { tv_sec: 0, tv_nsec: 250 },
    };
    assert_eq!(timers.set_posix_timer(id, 6, value, false, at(1000)), None);
    assert_eq!(timers.set_posix_timer(id, 5, value, false, at(1000)), Some(()));
    let spec = timers.get_posix_timer_spec(id, 5, at(1050)).unwrap();
    assert_eq!(spec.it_value, TimeSpec { tv_sec: 0, tv_nsec: 200 });
    assert_eq!(timers.get_posix_timer_spec(id, 6, at(1050)), None);
    assert_eq!(timers.check_posix_timers(at(1249)).len(), 0);
    assert_eq!(timers.check_posix_timers(at(1250)).len(), 1);
    assert_eq!(timers.check_posix_timers(at(1300)).len(), 0);
    assert_eq!(timers.check_posix_timers(at(1675)).len(), 1);
    let spec = timers.get_posix_timer_spec(id, 5, at(1700)).unwrap();
    assert_eq!(spec.it_value, TimeSpec { tv_sec: 0, tv_nsec: 50 });
    assert!(!timers.delete_posix_timer(id, 6));
    assert!(timers.delete_posix_timer(id, 5));
    assert!(!timers.delete_posix_timer(id, 5));
    let id = timers.add_posix_timer(timer(5)).unwrap();
    timers.remove_process_posix_timers(5);
    assert_eq!(timers.get_posix_timer_spec(id, 5, at(0)), None);
}

#[test]
fn expired_timers_tell_whom_they_should() {
    let mut one = timer(5);
    assert!(matches!(notify_target(one), Notify::Process(5, _)));
    one.notify = SIGEV_NONE;
    assert_eq!(notify_target(one), Notify::Nobody);
    one.notify = SIGEV_THREAD_ID;
    one.target_tid = 9;
    assert!(matches!(notify_target(one), Notify::Thread(9, _)));
}
