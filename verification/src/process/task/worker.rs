//! Threads of the kernel that do something every now and then.

use vstd::prelude::*;

use super::clone::NewIds;
use super::context::TaskContext;
use super::sched::{SchedDlEntity, SchedEntity, SchedRtEntity};
use super::status::TaskStatus;
use super::tcb::{TaskStruct, TaskStructInner};
use crate::process::scheduler::runqueue::{SchedTask, SCHED_IDLE};
use crate::process::signal::delivery::TaskSignals;
use crate::process::signal::frame::no_alt_stack;
use vstd::string::StrSliceExecFns;
use vstd::string::StringSliceAdditionalSpecFns;

verus! {

/// Timers are looked at after so many microseconds.
pub const TIMER_CHECK_INTERVAL_US: u64 = 10_000;

/// The network is looked at after so many microseconds.
pub const NET_POLL_INTERVAL_US: u64 = 10_000;

/// The product or the sum, but not above the largest number.
pub open spec fn at_most_max(n: int) -> u64 {
    if n <= u64::MAX {
        n as u64
    } else {
        u64::MAX
    }
}

/// Until when a thread sleeps that sleeps for a while, in nanoseconds.
pub open spec fn sleep_end(now_us: u64, delay_us: u64) -> u64 {
    at_most_max(at_most_max(now_us + delay_us) * 1000)
}

/// Returns the product, but not more than the largest number.
fn times_thousand(n: u64) -> (product: u64)
    ensures
        product == at_most_max(n * 1000),
{
    match n.checked_mul(1000) {
        Some(product) => product,
        None => u64::MAX,
    }
}

/// Returns until when a thread sleeps.
pub fn sleep_current_for_us(now_us: u64, delay_us: u64) -> (deadline_ns: u64)
    ensures
        deadline_ns == sleep_end(now_us, delay_us),
{
    times_thousand(now_us.saturating_add(delay_us))
}

/// Returns until when the thread that looks at timers sleeps, once it has.
pub fn timer_kernel_worker(now_us: u64) -> (deadline_ns: u64)
    ensures
        deadline_ns == sleep_end(now_us, TIMER_CHECK_INTERVAL_US),
{
    sleep_current_for_us(now_us, TIMER_CHECK_INTERVAL_US)
}

/// Returns until when the thread that looks at the network sleeps, once it has.
pub fn net_kernel_worker(now_us: u64) -> (deadline_ns: u64)
    ensures
        deadline_ns == sleep_end(now_us, NET_POLL_INTERVAL_US),
{
    sleep_current_for_us(now_us, NET_POLL_INTERVAL_US)
}

/// Returns until when the thread that writes files back sleeps, once it has:
/// as long as was asked for, but at least a millisecond.
pub fn writeback_kernel_worker(now_us: u64, next_sync_delay_ms: u64) -> (deadline_ns: u64)
    ensures
        deadline_ns == sleep_end(
            now_us,
            at_most_max(
                if next_sync_delay_ms >= 1 {
                    next_sync_delay_ms * 1000
                } else {
                    1000
                },
            ),
        ),
{
    let delay_ms: u64 = if next_sync_delay_ms >= 1 {
        next_sync_delay_ms
    } else {
        1
    };
    sleep_current_for_us(now_us, times_thousand(delay_ms))
}

/// A bit for each of so many processors.
pub open spec fn all_cpus(count: int) -> u64 {
    if count >= 64 {
        u64::MAX
    } else {
        (vstd::arithmetic::power2::pow2(count as nat) - 1) as u64
    }
}

/// Returns a bit for each of so many processors.
pub fn cpu_mask(count: u64) -> (mask: u64)
    ensures
        mask == all_cpus(count as int),
{
    if count >= 64 {
        return u64::MAX;
    }
    let mut mask: u64 = 0;
    let mut i: u64 = 0;
    proof {
        vstd::arithmetic::power2::lemma2_to64();
    }
    while i < count
        invariant
            i <= count < 64,
            mask == vstd::arithmetic::power2::pow2(i as nat) - 1,
        decreases count - i,
    {
        proof {
            vstd::arithmetic::power2::lemma_pow2_unfold((i + 1) as nat);
            vstd::arithmetic::power2::lemma_pow2_strictly_increases((i + 1) as nat, 64);
            vstd::arithmetic::power2::lemma2_to64();
            vstd::arithmetic::power2::lemma2_to64_rest();
        }
        mask = mask * 2 + 1;
        i = i + 1;
    }
    proof {
        vstd::arithmetic::power2::lemma_pow2_strictly_increases(i as nat, 64);
        vstd::arithmetic::power2::lemma2_to64_rest();
    }
    mask
}

/// What scheduling knows of a thread that starts.
pub open spec fn new_sched(pid: u64, policy: i64, weight: u64, cpus: u64) -> SchedTask {
    SchedTask {
        tid: pid,
        state: TaskStatus::Ready,
        policy,
        prio: 120,
        se: SchedEntity {
            queue_level: 0,
            vruntime: 0,
            exec_start: 0,
            sum_exec_runtime: 0,
            prev_sum_exec_runtime: 0,
            load_weight: weight,
        },
        rt: SchedRtEntity { time_slice: 0, migratable: true },
        dl: SchedDlEntity {
            runtime: 0,
            deadline: 0,
            period: 0,
            remaining_runtime: 0,
            absolute_deadline: u64::MAX,
            throttled: false,
        },
        on_rq: false,
        on_cpu: false,
        cpu: 0,
        cpus_allowed: cpus,
        on_main_hart: false,
        wake_pending: false,
        wake_source_cpu: None,
        need_resched: false,
    }
}

/// A process that nobody made: it is its own group, has no parent and no children.
pub open spec fn first_of_its_kind(
    task: TaskStruct,
    ids: NewIds,
    nsproxy: u64,
    mm: Option<u64>,
    trap_ctx: u64,
    entry: u64,
    stack_top: u64,
    exe_path: Seq<u8>,
    sched: SchedTask,
    now: u64,
) -> bool {
    let t = task.inner;
    &&& task.pid == ids.pid
    &&& task.tgid == ids.pid
    &&& task.group_leader == ids.pid
    &&& t.nsproxy == nsproxy
    &&& t.trap_ctx == trap_ctx
    &&& t.task_ctx.ra == entry
    &&& t.task_ctx.sp == stack_top
    &&& t.kernel_stack == ids.kernel_stack
    &&& t.real_parent is None
    &&& t.parent is None
    &&& t.children@.len() == 0
    &&& t.pgid == ids.pid
    &&& t.sid == ids.pid
    &&& t.exit_state == 0
    &&& t.exit_code == 0
    &&& t.exit_signal == 0
    &&& t.flags == 0
    &&& t.errno == 0
    &&& t.oom_score_adj == 0
    &&& t.sched == sched
    &&& t.sched_priority == 0
    &&& t.static_prio == 120
    &&& t.normal_prio == 120
    &&& t.mm == mm
    &&& t.fs == ids.fs
    &&& t.files == ids.files
    &&& t.exe_path@ == exe_path
    &&& t.signal == ids.signal
    &&& t.exec_update_lock == ids.exec_update_lock
    &&& t.signal_hand == ids.signal_hand
    &&& t.signals.is_idle()
    &&& t.signals.blocked.bits == 0
    &&& t.signals.pending.signals.bits == 0
    &&& t.signals.pending.queue@.len() == 0
    &&& !t.signals.pending.wait_chldexit
    &&& t.signals.signal_alt_stack == no_alt_stack()
    &&& t.cred == ids.cred
    &&& t.real_cred == ids.real_cred
    &&& t.start_time == now
    &&& t.start_boottime == now
    &&& t.clear_child_tid == 0
    &&& t.vfork_completion is None
    &&& t.personality == 0
    &&& t.locked_bytes == 0
    &&& forall|i: int| 0 <= i < 10 ==> #[trigger] t.comm@[i] == 0
}

/// The first process.
pub open spec fn first_process_task(
    task: TaskStruct,
    ids: NewIds,
    nsproxy: u64,
    trap_return: u64,
    cpu_count: u64,
    now: u64,
) -> bool {
    first_of_its_kind(
        task,
        ids,
        nsproxy,
        Some(ids.mm),
        ids.trap_ctx,
        trap_return,
        ids.trap_ctx,
        "/initproc".spec_bytes(),
        new_sched(ids.pid, SCHED_IDLE, 1024, all_cpus(cpu_count as int)),
        now,
    )
}

impl TaskStruct {
    /// Makes a process that nobody made.
    fn first(
        ids: NewIds,
        nsproxy: u64,
        mm: Option<u64>,
        trap_ctx: u64,
        entry: u64,
        stack_top: u64,
        exe_path: Vec<u8>,
        sched: SchedTask,
        now: u64,
    ) -> (task: TaskStruct)
        ensures
            first_of_its_kind(
                task,
                ids,
                nsproxy,
                mm,
                trap_ctx,
                entry,
                stack_top,
                exe_path@,
                sched,
                now,
            ),
    {
        TaskStruct {
            pid: ids.pid,
            tgid: ids.pid,
            group_leader: ids.pid,
            inner: TaskStructInner {
                nsproxy,
                trap_ctx,
                task_ctx: TaskContext::goto_trap_return(entry, stack_top),
                kernel_stack: ids.kernel_stack,
                real_parent: None,
                parent: None,
                children: Vec::new(),
                pgid: ids.pid,
                sid: ids.pid,
                exit_state: 0,
                exit_code: 0,
                exit_signal: 0,
                flags: 0,
                errno: 0,
                oom_score_adj: 0,
                sched,
                sched_priority: 0,
                static_prio: 120,
                normal_prio: 120,
                mm,
                fs: ids.fs,
                files: ids.files,
                exe_path,
                signal: ids.signal,
                exec_update_lock: ids.exec_update_lock,
                signal_hand: ids.signal_hand,
                signals: TaskSignals::new(),
                cred: ids.cred,
                real_cred: ids.real_cred,
                start_time: now,
                start_boottime: now,
                clear_child_tid: 0,
                vfork_completion: None,
                personality: 0,
                locked_bytes: 0,
                comm: [0;10],
            },
        }
    }

    /// Returns what scheduling knows of a thread that starts.
    fn first_sched(pid: u64, policy: i64, weight: u64, cpus: u64) -> (sched: SchedTask)
        ensures
            sched == new_sched(pid, policy, weight, cpus),
    {
        let mut se = SchedEntity::new();
        se.load_weight = weight;
        SchedTask {
            tid: pid,
            state: TaskStatus::Ready,
            policy,
            prio: 120,
            se,
            rt: SchedRtEntity::new(),
            dl: SchedDlEntity::new(),
            on_rq: false,
            on_cpu: false,
            cpu: 0,
            cpus_allowed: cpus,
            on_main_hart: false,
            wake_pending: false,
            wake_source_cpu: None,
            need_resched: false,
        }
    }

    /// Makes a thread of the kernel, which starts at `entry` and has no memory of its own.
    /// One for when there is nothing else to do counts less.
    pub fn new_kernel_worker(
        ids: NewIds,
        nsproxy: u64,
        entry: u64,
        stack_top: u64,
        sched_policy: i64,
        cpu_count: u64,
    ) -> (task: TaskStruct)
        ensures
            first_of_its_kind(
                task,
                ids,
                nsproxy,
                None,
                0,
                entry,
                stack_top,
                Seq::empty(),
                new_sched(
                    ids.pid,
                    sched_policy,
                    if sched_policy == SCHED_IDLE {
                        3
                    } else {
                        1024
                    },
                    all_cpus(cpu_count as int),
                ),
                0,
            ),
    {
        let weight: u64 = if sched_policy == SCHED_IDLE {
            3
        } else {
            1024
        };
        let sched = Self::first_sched(ids.pid, sched_policy, weight, cpu_mask(cpu_count));
        let path: Vec<u8> = Vec::new();
        assert(path@ =~= Seq::<u8>::empty());
        Self::first(ids, nsproxy, None, 0, entry, stack_top, path, sched, 0)
    }

    /// Makes the first process for memory that has its program.
    pub fn first_task(ids: NewIds, nsproxy: u64, trap_return: u64, cpu_count: u64, now: u64) -> (
        task: TaskStruct)
        ensures
            first_process_task(task, ids, nsproxy, trap_return, cpu_count, now),
    {
        let sched = Self::first_sched(ids.pid, SCHED_IDLE, 1024, cpu_mask(cpu_count));
        let path = "/initproc".as_bytes_vec();
        Self::first(
            ids,
            nsproxy,
            Some(ids.mm),
            ids.trap_ctx,
            trap_return,
            ids.trap_ctx,
            path,
            sched,
            now,
        )
    }
}

} // verus!
