//! Processes with their tasks in pools, and the tasks that a kernel starts itself.

use vstd::prelude::*;

use crate::process::clone::{made_regs, process_added};
use crate::process::manager::{
    can_run, first_taken, goes_first, is_in, task_added, ReadyEntry, TaskManager,
};
use crate::process::pcb::{
    after_exec, first_empty, first_process, forked_process, fresh_thread, number_taken,
    process_taken_over, FileDescriptor, ProcessControlBlock, ProcessControlBlockInner,
    ThreadInner,
};
use crate::process::registry::{first_of, Entry};
use crate::process::schedule::{rank_of, task_handed_over, TaskTables};
use crate::process::scheduler::runqueue::SchedTask;
use crate::process::signal::flags::SignalFlags;
use crate::process::signal::frame::TrapRegs;
use crate::process::task::clone::NewIds;
use crate::process::task::status::TaskStatus;
use crate::process::task::tcb::TaskStruct;
use crate::process::task::worker::{first_process_task, new_sched, sleep_end};

verus! {

/// A task is taken from a pool where none goes before it; all others stay, in their order.
pub proof fn law_best_task_is_taken(
    before: Seq<ReadyEntry>,
    after: Seq<ReadyEntry>,
    tid: u64,
    i: int,
)
    requires
        first_taken(before, after, tid),
        0 <= i < before.len(),
    ensures
        after.len() == before.len() - 1,
        exists|k: int|
            0 <= k < before.len() && (#[trigger] before[k]).tid == tid && (before[i].class
                <= before[k].class) && (before[i].class == before[k].class ==> before[i].priority
                <= before[k].priority) && (before[i].class == before[k].class && before[i].priority
                == before[k].priority ==> before[k].order <= before[i].order),
        before[i].tid != tid ==> after.contains(before[i]),
{
    let k = choose|k: int|
        {
            &&& 0 <= k < before.len()
            &&& (#[trigger] before[k]).tid == tid
            &&& forall|i: int|
                0 <= i < before.len() ==> goes_first(before[k], #[trigger] before[i])
            &&& after == before.remove(k)
        };
    assert(goes_first(before[k], before[i]));
    if i < k {
        assert(after[i] == before[i]);
    } else if i > k {
        assert(after[i - 1] == before[i]);
    }
}

/// A task stands in a processor's queue once. Its place is by its priority, 100 for each class
/// and the priority on top, where a fixed priority above zero is class 2, policy 5 is class 0 and
/// the rest is class 1.
pub proof fn law_task_joins_a_queue(
    before: TaskManager,
    after: TaskManager,
    tid: u64,
    policy: i64,
    priority: i32,
)
    requires
        task_added(before, after, tid, policy, priority),
        -0x1000_0000 < priority < 0x1000_0000,
    ensures
        is_in(before.ready_queue.entries@, tid) ==> after == before,
        !is_in(before.ready_queue.entries@, tid) ==> {
            let s = before.ready_queue.entries@;
            let n = after.ready_queue.entries@;
            &&& n.len() == s.len() + 1
            &&& n.last().tid == tid
            &&& n.last().order == before.ready_queue.enqueue_order
            &&& n.subrange(0, s.len() as int) == s
            &&& (policy == 1 || policy == 2) && priority > 0 ==> n.last().priority == 200 + priority
            &&& policy == 5 ==> n.last().priority == 0
            &&& policy == 0 || policy == 3 || policy == 6 || ((policy == 1 || policy == 2)
                && priority <= 0) ==> n.last().priority == 100
        },
{
}

/// Only a task that is known, can run and does not run already is taken to run.
pub proof fn law_who_can_run(tasks: Map<u64, SchedTask>, tid: u64)
    ensures
        can_run(tasks, tid) <==> tasks.contains_key(tid) && tasks[tid].state == TaskStatus::Ready
            && !tasks[tid].on_cpu,
{
}

/// A task that is handed over is known as a thread of its process and waits in the common pool,
/// last of its kind; everyone else who waited there still does.
pub proof fn law_task_is_handed_over(
    before: TaskTables,
    after: TaskTables,
    tid: u64,
    tgid: u64,
    policy: i64,
    priority: i32,
    e: Entry,
)
    requires
        task_handed_over(before, after, tid, tgid, policy, priority),
    ensures
        after.pool.queue.entries@.len() > 0,
        after.pool.queue.entries@.last().tid == tid,
        after.pool.queue.entries@.last().order == before.pool.queue.enqueue_order,
        (policy == 1 || policy == 2) && priority > 0 ==> after.pool.queue.entries@.last().class == 2
            && after.pool.queue.entries@.last().priority == priority,
        policy == 5 ==> after.pool.queue.entries@.last().class == 0,
        policy == 0 || policy == 3 || policy == 6 ==> after.pool.queue.entries@.last().class == 1,
        e.tid == tid ==> (after.threads@.contains(e) <==> e.tgid == tgid),
        e.tid != tid ==> (after.threads@.contains(e) <==> before.threads@.contains(e)),
        after.managers@.len() == before.managers@.len(),
{
}

/// A task whose rank nobody knows has policy 0 and priority 0.
pub proof fn law_rank_of_a_task(ranks: Map<u64, (i64, i32)>, tid: u64)
    ensures
        ranks.contains_key(tid) ==> rank_of(ranks, tid) == ranks[tid],
        !ranks.contains_key(tid) ==> rank_of(ranks, tid).0 == 0 && rank_of(ranks, tid).1 == 0,
{
}

/// The first thread of a process.
pub proof fn law_first_thread_of_a_process(s: Seq<Entry>, tgid: u64, i: int)
    requires
        0 <= i,
    ensures
        match first_of(s, tgid, i) {
            Some(k) => i <= k < s.len() && s[k].tgid == tgid && forall|j: int|
                i <= j < k ==> (#[trigger] s[j]).tgid != tgid,
            None => forall|j: int| i <= j < s.len() ==> (#[trigger] s[j]).tgid != tgid,
        },
    decreases s.len() - i,
{
    if i < s.len() {
        law_first_thread_of_a_process(s, tgid, i + 1);
    }
}

/// The lowest number without a file.
pub proof fn law_first_place_without_a_file(s: Seq<FileDescriptor>, i: int)
    requires
        0 <= i,
    ensures
        match first_empty(s, i) {
            Some(k) => i <= k < s.len() && s[k].file is None && forall|j: int|
                i <= j < k ==> (#[trigger] s[j]).file is Some,
            None => forall|j: int| i <= j < s.len() ==> (#[trigger] s[j]).file is Some,
        },
    decreases s.len() - i,
{
    if i < s.len() {
        law_first_place_without_a_file(s, i + 1);
    }
}

/// A file stays open in another program unless it was opened not to.
pub proof fn law_file_in_another_program(fd: FileDescriptor)
    ensures
        fd.cloexec ==> after_exec(fd).file is None && !after_exec(fd).cloexec,
        !fd.cloexec ==> after_exec(fd) == fd,
{
}

/// A process with another program keeps its number, its place, its rights and the files that stay
/// open; its memory, its heap and its name are the new program's, its answers to signals are the
/// usual ones, and only the calling task is left.
pub proof fn law_process_with_another_program(
    before: ProcessControlBlock,
    after: ProcessControlBlock,
    caller_tid: u64,
    memory_set: u64,
    heap_bottom: u64,
    name: Option<Seq<u8>>,
    on_main_hart: bool,
    i: int,
    t: u64,
)
    requires
        process_taken_over(
            before,
            after,
            caller_tid,
            memory_set,
            heap_bottom,
            name,
            on_main_hart,
        ),
    ensures
        after.pid == before.pid,
        after.inner.parent == before.inner.parent,
        after.inner.children == before.inner.children,
        after.inner.cwd == before.inner.cwd,
        after.inner.uid == before.inner.uid,
        after.inner.gid == before.inner.gid,
        after.inner.euid == before.inner.euid,
        after.inner.egid == before.inner.egid,
        after.inner.umask == before.inner.umask,
        after.inner.pgid == before.inner.pgid,
        after.inner.sid == before.inner.sid,
        after.inner.signals == before.inner.signals,
        after.inner.fd_rlmt == before.inner.fd_rlmt,
        after.inner.memory_set == memory_set,
        after.inner.heap_bottom == heap_bottom,
        after.inner.program_brk == heap_bottom,
        after.inner.base_size == heap_bottom,
        after.inner.on_main_hart == on_main_hart,
        after.inner.alive_task_count == 1,
        name matches Some(text) ==> after.inner.pname@ == text,
        name is None ==> after.inner.pname@ == before.inner.pname@,
        after.inner.fd_table@.len() == before.inner.fd_table@.len(),
        0 <= i < before.inner.fd_table@.len() && before.inner.fd_table@[i].cloexec
            ==> after.inner.fd_table@[i].file is None,
        0 <= i < before.inner.fd_table@.len() && !before.inner.fd_table@[i].cloexec
            ==> after.inner.fd_table@[i] == before.inner.fd_table@[i],
        0 <= i < 64 ==> after.inner.signal_actions.table@[i].handler == 0
            && after.inner.signal_actions.table@[i].flags == 0,
        after.inner.tasks@.contains(t) ==> t == caller_tid,
        before.inner.tasks@.contains(caller_tid) ==> after.inner.tasks@.contains(caller_tid),
{
    let keep = crate::process::pcb::only(caller_tid);
    let s = before.inner.tasks@;
    broadcast use vstd::seq_lib::group_filter_ensures;

    if after.inner.tasks@.contains(t) {
        let j = choose|j: int| 0 <= j < after.inner.tasks@.len() && after.inner.tasks@[j] == t;
        assert(keep(s.filter(keep)[j]));
    }
    if s.contains(caller_tid) {
        assert(keep(caller_tid));
        let j = choose|j: int| 0 <= j < s.len() && s[j] == caller_tid;
        assert(s.filter(keep).contains(s[j]));
    }
}

/// A child process is like its parent, but for its number, its memory, its task, and that it has
/// no children and no signals yet.
pub proof fn law_child_process(
    parent: ProcessControlBlock,
    child: ProcessControlBlock,
    pid: u64,
    tid: u64,
    memory_set: u64,
)
    requires
        forked_process(parent, child, pid, tid, memory_set),
    ensures
        child.pid == pid,
        child.inner.parent == Some(parent.pid),
        child.inner.memory_set == memory_set,
        child.inner.tasks@.len() == 1,
        child.inner.tasks@[0] == tid,
        child.inner.alive_task_count == 1,
        child.inner.children@.len() == 0,
        child.inner.signals.bits == 0,
        child.inner.exit_code == 0,
        !child.inner.on_main_hart,
        child.inner.fd_table@ == parent.inner.fd_table@,
        child.inner.fd_rlmt == parent.inner.fd_rlmt,
        child.inner.cwd == parent.inner.cwd,
        child.inner.signal_actions == parent.inner.signal_actions,
        child.inner.pname@ == parent.inner.pname@,
        child.inner.heap_bottom == parent.inner.heap_bottom,
        child.inner.program_brk == parent.inner.program_brk,
        child.inner.base_size == parent.inner.base_size,
        child.inner.uid == parent.inner.uid,
        child.inner.gid == parent.inner.gid,
        child.inner.euid == parent.inner.euid,
        child.inner.egid == parent.inner.egid,
        child.inner.umask == parent.inner.umask,
        child.inner.pgid == parent.inner.pgid,
        child.inner.sid == parent.inner.sid,
        child.oom_score_adj == parent.oom_score_adj,
{
}

/// The first process is root's, in the root directory, in a group of its own, with the terminal as
/// its first three files and no parent.
pub proof fn law_first_process(
    process: ProcessControlBlock,
    pid: u64,
    tid: u64,
    memory_set: u64,
    heap_bottom: u64,
    user_sp: u64,
    root: u64,
    terminal: (u64, u64, u64),
)
    requires
        first_process(process, pid, tid, memory_set, heap_bottom, user_sp, root, terminal),
    ensures
        process.pid == pid,
        process.inner.pgid == pid,
        process.inner.parent is None,
        process.inner.children@.len() == 0,
        process.inner.tasks@.len() == 1 && process.inner.tasks@[0] == tid,
        process.inner.fd_table@.len() == 3,
        process.inner.fd_table@[0].file == Some(terminal.0),
        process.inner.fd_table@[1].file == Some(terminal.1),
        process.inner.fd_table@[2].file == Some(terminal.2),
        !process.inner.fd_table@[0].cloexec && !process.inner.fd_table@[1].cloexec
            && !process.inner.fd_table@[2].cloexec,
        process.inner.cwd == root,
        process.inner.uid == 0 && process.inner.gid == 0,
        process.inner.euid == 0 && process.inner.egid == 0,
        process.inner.umask == 18,
        process.inner.sid == 0,
        process.inner.on_main_hart,
        process.inner.memory_set == memory_set,
        process.inner.heap_bottom == heap_bottom,
        process.inner.program_brk == heap_bottom,
        process.inner.fd_rlmt.cur_lmt == 1024 && process.inner.fd_rlmt.max_lmt == 1024,
        process.inner.signals.bits == 0,
        process.inner.exit_code == 0,
        process.oom_score_adj == 0,
{
}

/// A new thread can run from the return to the program, on its own stack, and has no signals of
/// its own.
pub proof fn law_new_thread(
    thread: ThreadInner,
    trap_cx_addr: u64,
    trap_return: u64,
    stack_top: u64,
    mask: SignalFlags,
    handling: i64,
)
    requires
        fresh_thread(thread, trap_cx_addr, trap_return, stack_top, mask, handling),
    ensures
        thread.task_status == TaskStatus::Ready,
        thread.task_cx.ra == trap_return,
        thread.task_cx.sp == stack_top,
        thread.trap_cx_addr == trap_cx_addr,
        thread.signal_mask == mask,
        thread.handling_sig == handling,
        thread.signals.bits == 0,
        thread.owner_hart is None,
        thread.exit_code == 0,
        thread.clear_child_tid == 0,
        !thread.killed,
        !thread.frozen,
        thread.signal_mask_backup is None,
        thread.trap_ctx_backup is None,
{
}

/// A child process returns zero from the call, on the stack that was asked for or its parent's;
/// its number is known from then on.
pub proof fn law_child_of_a_process(
    regs: TrapRegs,
    stack: u64,
    before: TaskTables,
    after: TaskTables,
    pid: u64,
    process: u64,
    e: Entry,
    i: int,
)
    requires
        process_added(before, after, pid, process),
        0 <= i < 32,
    ensures
        made_regs(regs, stack)[10] == 0,
        stack != 0 ==> made_regs(regs, stack)[2] == stack,
        stack == 0 ==> made_regs(regs, stack)[2] == regs.x@[2],
        i != 2 && i != 10 ==> made_regs(regs, stack)[i] == regs.x@[i],
        e.tid == pid ==> (after.processes.pool().contains(e) <==> e.tgid == process),
        e.tid != pid ==> (after.processes.pool().contains(e) <==> before.processes.pool().contains(
            e,
        )),
{
}

/// A kernel task that sleeps for a while wakes when that while is over, in nanoseconds.
pub proof fn law_end_of_a_sleep(now_us: u64, delay_us: u64)
    ensures
        (now_us + delay_us) * 1000 <= 0xffff_ffff_ffff_ffff ==> sleep_end(now_us, delay_us) == (
        now_us + delay_us) * 1000,
        (now_us + delay_us) * 1000 > 0xffff_ffff_ffff_ffff ==> sleep_end(now_us, delay_us)
            == 0xffff_ffff_ffff_ffff,
{
}

/// A new task can run, on any processor that it is given, and has not run.
pub proof fn law_new_task(pid: u64, policy: i64, weight: u64, cpus: u64)
    ensures
        ({
            let task = new_sched(pid, policy, weight, cpus);
            &&& task.tid == pid
            &&& task.state == TaskStatus::Ready
            &&& task.policy == policy
            &&& task.prio == 120
            &&& task.se.load_weight == weight
            &&& task.cpus_allowed == cpus
            &&& task.se.vruntime == 0 && task.se.sum_exec_runtime == 0 && task.se.queue_level == 0
            &&& task.rt.migratable && task.rt.time_slice == 0
            &&& task.dl.runtime == 0 && task.dl.absolute_deadline == 0xffff_ffff_ffff_ffff
            &&& !task.on_rq && !task.on_cpu && !task.on_main_hart && !task.wake_pending
        }),
{
}

/// The first thread leads its process, its group and its session, has no parent, and has
/// everything of its own.
pub proof fn law_first_thread(
    task: TaskStruct,
    ids: NewIds,
    nsproxy: u64,
    trap_return: u64,
    cpu_count: u64,
    now: u64,
)
    requires
        first_process_task(task, ids, nsproxy, trap_return, cpu_count, now),
    ensures
        task.pid == ids.pid && task.tgid == ids.pid && task.group_leader == ids.pid,
        task.inner.pgid == ids.pid && task.inner.sid == ids.pid,
        task.inner.parent is None && task.inner.real_parent is None,
        task.inner.children@.len() == 0,
        task.inner.mm == Some(ids.mm),
        task.inner.fs == ids.fs && task.inner.files == ids.files,
        task.inner.signal == ids.signal && task.inner.signal_hand == ids.signal_hand,
        task.inner.cred == ids.cred && task.inner.real_cred == ids.real_cred,
        task.inner.trap_ctx == ids.trap_ctx,
        task.inner.task_ctx.ra == trap_return && task.inner.task_ctx.sp == ids.trap_ctx,
        task.inner.kernel_stack == ids.kernel_stack,
        task.inner.sched.state == TaskStatus::Ready,
        task.inner.sched.policy == 5,
        task.inner.sched.se.load_weight == 1024,
        task.inner.static_prio == 120 && task.inner.normal_prio == 120,
        task.inner.start_time == now && task.inner.start_boottime == now,
        task.inner.signals.blocked.bits == 0 && task.inner.signals.pending.signals.bits == 0,
        task.inner.exit_code == 0 && task.inner.exit_signal == 0 && task.inner.exit_state == 0,
        task.inner.vfork_completion is None && task.inner.clear_child_tid == 0,
        cpu_count >= 64 ==> task.inner.sched.cpus_allowed == 0xffff_ffff_ffff_ffff,
{
}

/// A new file of a process gets the lowest number without a file, below the limit; where none is
/// left it gets none.
pub proof fn law_number_in_a_process(
    before: ProcessControlBlockInner,
    after: ProcessControlBlockInner,
    fd: Option<usize>,
    j: int,
)
    requires
        number_taken(before, after, fd),
        0 <= j < before.fd_table@.len(),
    ensures
        fd matches Some(n) ==> {
            &&& n <= before.fd_table@.len()
            &&& n < after.fd_table@.len()
            &&& after.fd_table@[n as int].file is None
            &&& j < n ==> before.fd_table@[j].file is Some
            &&& j != n ==> after.fd_table@[j] == before.fd_table@[j]
            &&& n == before.fd_table@.len() ==> n < before.fd_rlmt.cur_lmt
        },
        fd is None ==> before.fd_table@[j].file is Some && before.fd_table@.len()
            >= before.fd_rlmt.cur_lmt && after.fd_table@ == before.fd_table@,
        after.cwd == before.cwd,
        after.memory_set == before.memory_set,
{
    law_first_place_without_a_file(before.fd_table@, 0);
    assert(before.fd_table.len() == before.fd_table@.len());
}

} // verus!
