//! The end of threads and processes, and who is told of it.

use vstd::prelude::*;

use crate::process::child_wait::{
    must_wait, sleeps_if, wait4_matches, waitid_matches, Child,
};
use crate::process::registry::Entry;
use crate::process::scheduler::runqueue::SchedTask;
use crate::process::scheduler::wait::WaitQueue;
use crate::process::signal::state::Signal;
use crate::process::task::exit::{child_ended, next_of, recycled, ExitNext};
use crate::process::task::exit_run::{
    adopted, all_told, let_go, parent_told, process_ended, reached_of, thread_ended, told, Exited,
    ThreadTables,
};
use crate::process::task::status::TaskStatus;
use crate::process::task::tcb::TaskStruct;
use crate::process::task::vfork::{vfork_next, VforkCompletion, VforkWait};
use super::signals::{lemma_bits, lemma_lowest};

verus! {

/// A process is over with its last thread, and the machine halts with process 1.
pub proof fn law_last_thread_ends_the_process(threads: Seq<Entry>, pid: u64, tid: u64, k: int)
    requires
        0 <= k < threads.len(),
    ensures
        pid == 1 <==> next_of(threads, pid, tid) == ExitNext::Halt,
        pid != 1 && threads[k].tgid == pid && threads[k].tid != tid ==> next_of(threads, pid, tid)
            == ExitNext::ThreadGone,
        next_of(threads, pid, tid) == ExitNext::ThreadGone ==> exists|i: int|
            0 <= i < threads.len() && (#[trigger] threads[i]).tgid == pid && threads[i].tid != tid,
{
}

/// A thread that has ended can only be asked for its result. It uses no memory and no files, has
/// no signals, and is nobody's to wait for; all else of it is as it was.
pub proof fn law_what_is_left_of_a_thread(
    before: TaskStruct,
    after: TaskStruct,
    exit_code: i32,
    no_files: u64,
)
    requires
        recycled(before, after, exit_code, no_files),
    ensures
        after.inner.exit_code == exit_code,
        after.inner.errno == 0,
        after.inner.sched.state == TaskStatus::Zombie,
        after.inner.mm is None,
        after.inner.files == no_files,
        after.inner.vfork_completion is None,
        after.inner.signals.pending.signals.bits == 0,
        after.inner.signals.pending.queue@.len() == 0,
        after.pid == before.pid,
        after.tgid == before.tgid,
        after.group_leader == before.group_leader,
        after.inner.parent == before.inner.parent,
        after.inner.real_parent == before.inner.real_parent,
        after.inner.children == before.inner.children,
        after.inner.exit_signal == before.inner.exit_signal,
        after.inner.exit_state == before.inner.exit_state,
        after.inner.pgid == before.inner.pgid,
        after.inner.sid == before.inner.sid,
        after.inner.fs == before.inner.fs,
        after.inner.signal == before.inner.signal,
        after.inner.signal_hand == before.inner.signal_hand,
        after.inner.cred == before.inner.cred,
        after.inner.real_cred == before.inner.real_cred,
        after.inner.clear_child_tid == before.inner.clear_child_tid,
        after.inner.start_time == before.inner.start_time,
        after.inner.signals.blocked == before.inner.signals.blocked,
        after.inner.sched.tid == before.inner.sched.tid,
        after.inner.sched.policy == before.inner.sched.policy,
        after.inner.sched.on_rq == before.inner.sched.on_rq,
        after.inner.sched.on_cpu == before.inner.sched.on_cpu,
        after.inner.sched.cpu == before.inner.sched.cpu,
        after.inner.sched.se == before.inner.sched.se,
{
}

/// The end of a child leaves its parent's process with signal 17: its bit, 0x1_0000, is set, and
/// the number is the last in the queue. Every other signal is as it was.
pub proof fn law_end_of_a_child_is_a_signal(before: Signal, after: Signal, k: u64)
    requires
        child_ended(before, after),
        k < 64,
    ensures
        after.shared_pending.signals.bits & (1u64 << k) != 0 <==> k == 16
            || before.shared_pending.signals.bits & (1u64 << k) != 0,
        after.shared_pending.queue@.len() == before.shared_pending.queue@.len() + 1,
        after.shared_pending.queue@.last() == 17,
        forall|i: int|
            0 <= i < before.shared_pending.queue@.len() ==> #[trigger] after.shared_pending.queue@[i]
                == before.shared_pending.queue@[i],
        after.thread_num == before.thread_num,
        after.rlimits == before.rlimits,
{
    assert(0x1_0000u64 == 1u64 << 16u64) by (bit_vector);
    lemma_lowest(0x1_0000, 0);
    lemma_bits(before.shared_pending.signals.bits, 0x1_0000, 16, k);
    assert forall|j: u64| j < 64 implies 0x1_0000u64 & #[trigger] (1u64 << j) != 0 <==> j == 16 by {
        lemma_bits(0, 0, 16, j);
    }
    assert(0x1_0000u64 & (1u64 << 16u64) != 0);
}

/// A thread of the parent is disturbed in its sleep by the end of a child unless it holds back
/// the signal; nothing else of it changes, and a thread that does not sleep stays as it is.
pub proof fn law_sleeping_parent_is_disturbed(task: TaskStruct)
    ensures
        ({
            let held_back = task.inner.signals.blocked.bits & (1u64 << 16u64) != 0;
            let sleeps = task.inner.sched.state == TaskStatus::Blocked;
            &&& !held_back && sleeps ==> told(task).inner.signals.signal_interrupted
            &&& held_back || !sleeps ==> told(task) == task
            &&& told(task).pid == task.pid
            &&& told(task).inner.sched == task.inner.sched
            &&& told(task).inner.parent == task.inner.parent
            &&& told(task).inner.children == task.inner.children
            &&& told(task).inner.signals.blocked == task.inner.signals.blocked
            &&& told(task).inner.signals.pending == task.inner.signals.pending
        }),
{
    assert(0x1_0000u64 == 1u64 << 16u64) by (bit_vector);
    lemma_bits(task.inner.signals.blocked.bits, 0, 16, 16);
}

/// When a process ends, its children become children of the first process, and of no other; all
/// other threads keep their parents.
pub proof fn law_children_go_to_the_first(
    before: Map<u64, TaskStruct>,
    after: Map<u64, TaskStruct>,
    first: u64,
    orphans: Seq<u64>,
    tid: u64,
)
    requires
        adopted(before, after, first, orphans),
        before.contains_key(first),
        before.contains_key(tid),
    ensures
        after.contains_key(tid),
        orphans.contains(tid) ==> after[tid].inner.parent == Some(first)
            && after[tid].inner.real_parent == Some(first),
        !orphans.contains(tid) ==> after[tid].inner.parent == before[tid].inner.parent
            && after[tid].inner.real_parent == before[tid].inner.real_parent,
        after[tid].pid == before[tid].pid,
        after[tid].inner.pgid == before[tid].inner.pgid,
        after[tid].inner.sched == before[tid].inner.sched,
        after[tid].inner.exit_code == before[tid].inner.exit_code,
        tid != first ==> after[tid].inner.children == before[tid].inner.children,
        forall|i: int|
            0 <= i < orphans.len() ==> after[first].inner.children@.contains(#[trigger] orphans[i]),
{
    let c = after[first].inner.children@;
    let old_len = before[first].inner.children@.len();
    assert forall|i: int| 0 <= i < orphans.len() implies c.contains(#[trigger] orphans[i]) by {
        assert(c[old_len + i] == orphans[i]);
    }
}

/// A parent that waits until its child does not use its memory any more is let go when the child
/// ends, once; nobody else is.
pub proof fn law_waiting_parent_is_let_go(
    before: Map<u64, VforkCompletion>,
    after: Map<u64, VforkCompletion>,
    completion: Option<u64>,
    released: Seq<u64>,
    number: u64,
)
    requires
        let_go(before, after, completion, released),
        before.contains_key(number),
    ensures
        completion == Some(number) ==> after[number].done,
        completion == Some(number) && !before[number].done ==> released
            == before[number].waiters.queue@ && after[number].waiters.queue@.len() == 0,
        completion == Some(number) && before[number].done ==> released.len() == 0,
        completion is None ==> released.len() == 0,
        completion != Some(number) ==> after[number] == before[number],
{
}

/// A parent waits for its child until the child has let go of its memory or the parent is killed.
pub proof fn law_how_long_a_parent_waits(done: bool, killed: bool)
    ensures
        vfork_next(done, killed) == VforkWait::Sleeping <==> !done && !killed,
        vfork_next(done, killed) == VforkWait::Finished <==> done || killed,
{
}

/// The end of a thread gives up its number, tells what comes next by who is left, and is the end
/// of the process exactly where no thread is left; only then are children handed on.
pub proof fn law_end_of_a_thread(
    before: ThreadTables,
    after: ThreadTables,
    task: TaskStruct,
    task_after: TaskStruct,
    first: u64,
    exit_code: i32,
    no_files: u64,
    exited: Exited,
    e: Entry,
)
    requires
        thread_ended(before, after, task, task_after, first, exit_code, no_files, exited),
    ensures
        exited.space == task.inner.mm,
        task_after.inner.exit_code == exit_code,
        task_after.inner.sched.state == TaskStatus::Zombie,
        task_after.inner.mm is None,
        e.tid == task.pid ==> !after.threads@.contains(e),
        e.tid != task.pid ==> (after.threads@.contains(e) <==> before.threads@.contains(e)),
        task.tgid == 1 <==> exited.next == ExitNext::Halt,
        exited.next != ExitNext::ProcessGone ==> {
            &&& task_after.inner.children == task.inner.children
            &&& after.tasks@ == before.tasks@
            &&& after.groups@ == before.groups@
            &&& exited.woken@.len() == 0
            &&& exited.waited@.len() == 0
        },
        exited.next == ExitNext::ProcessGone ==> {
            &&& task_after.inner.children@.len() == 0
            &&& process_ended(before, after, task, first, exited)
        },
{
    if after.threads@.contains(e) && e.tid == task.pid {
        let i = choose|i: int| 0 <= i < after.threads@.len() && after.threads@[i] == e;
        assert(after.threads@[i].tid == task.pid);
    }
}

/// The end of a process stops its timers and no others. Its parent's process gets the signal, and
/// everyone there who waits for a child is woken.
pub proof fn law_end_of_a_process(
    before: ThreadTables,
    after: ThreadTables,
    task: TaskStruct,
    first: u64,
    exited: Exited,
    parent: u64,
)
    requires
        process_ended(before, after, task, first, exited),
    ensures
        forall|i: int|
            0 <= i < after.timers@.len() ==> (#[trigger] after.timers@[i]).timer.owner_pid
                != task.tgid,
        task.inner.parent is None ==> after.groups@ == before.groups@ && exited.waited@.len() == 0
            && exited.woken@.len() == 0,
        task.inner.parent == Some(parent) && before.tasks@.contains_key(parent) ==> {
            let group = before.tasks@[parent].inner.signal;
            &&& before.groups@.contains_key(group) ==> child_ended(
                before.groups@[group],
                after.groups@[group],
            )
            &&& before.waiters@.contains_key(group) ==> exited.waited@
                == before.waiters@[group].queue@ && after.waiters@[group].queue@.len() == 0
            &&& forall|other: u64|
                before.groups@.contains_key(other) && other != group
                    ==> #[trigger] after.groups@[other] == before.groups@[other]
        },
{
    assert forall|i: int| 0 <= i < after.timers@.len() implies (
    #[trigger] after.timers@[i]).timer.owner_pid != task.tgid by {
        assert(after.timers@.contains(after.timers@[i]));
    }
    if task.inner.parent == Some(parent) && before.tasks@.contains_key(parent) {
        let tasks = choose|tasks: Map<u64, TaskStruct>| #[trigger]
            adopted(tasks, after.tasks@, first, task.inner.children@) && parent_told(
                before,
                tasks,
                after,
                parent,
                after.threads@,
                exited,
            );
        assert(parent_told(before, tasks, after, parent, after.threads@, exited));
    }
}

/// -1 asks for every child, a number above zero for the child of that number, zero for the own
/// group, and a number below -1 for the group of that number.
pub proof fn law_whom_wait4_asks_for(child: Child, own_pgid: u64, pid: i32)
    ensures
        pid == -1 ==> wait4_matches(child, own_pgid, pid),
        wait4_matches(child, own_pgid, 0) <==> child.pgid == own_pgid,
        pid > 0 ==> (wait4_matches(child, own_pgid, pid) <==> child.pid == pid),
        -0x8000_0000 < pid < -1 ==> (wait4_matches(child, own_pgid, pid) <==> child.pgid + pid == 0),
        pid == -0x8000_0000 ==> !wait4_matches(child, own_pgid, pid),
{
}

/// Kind 0 asks for every child, kind 1 for the child of a number, kind 2 for a group, and no
/// other kind for any.
pub proof fn law_whom_waitid_asks_for(child: Child, idtype: i32, id: i32)
    ensures
        waitid_matches(child, 0, id),
        waitid_matches(child, 1, id) <==> child.pid == id,
        waitid_matches(child, 2, id) <==> child.pgid == id,
        idtype != 0 && idtype != 1 && idtype != 2 ==> !waitid_matches(child, idtype, id),
{
}

/// A wait for children sleeps where there is one to wait for and none of them has ended.
pub proof fn law_when_a_wait_sleeps(
    children: Seq<Child>,
    wanted: spec_fn(Child) -> bool,
    task: SchedTask,
    task_after: SchedTask,
    queue: WaitQueue,
    queue_after: WaitQueue,
    k: int,
)
    requires
        sleeps_if(must_wait(children, wanted), task, task_after, queue, queue_after),
        0 <= k < children.len(),
        wanted(children[k]),
    ensures
        children[k].state == TaskStatus::Zombie ==> task_after == task && queue_after == queue,
        (forall|i: int|
            0 <= i < children.len() && wanted(#[trigger] children[i]) ==> children[i].state
                != TaskStatus::Zombie) ==> {
            &&& task_after.state == TaskStatus::BlockSaving
            &&& task_after.tid == task.tid
            &&& queue_after.queue@ == queue.queue@.push(task.tid)
        },
{
}

/// Without a child to wait for no wait sleeps.
pub proof fn law_nobody_to_wait_for(
    children: Seq<Child>,
    wanted: spec_fn(Child) -> bool,
    task: SchedTask,
    task_after: SchedTask,
    queue: WaitQueue,
    queue_after: WaitQueue,
)
    requires
        sleeps_if(must_wait(children, wanted), task, task_after, queue, queue_after),
        forall|i: int| 0 <= i < children.len() ==> !wanted(#[trigger] children[i]),
    ensures
        task_after == task,
        queue_after == queue,
{
}

/// The threads that are woken by the end of a child are those of the parent that do not hold the
/// signal back.
pub proof fn law_who_is_woken(tasks: Map<u64, TaskStruct>, tids: Seq<u64>, tid: u64)
    requires
        tasks.contains_key(tid),
    ensures
        reached_of(tasks, tids).contains(tid) <==> tids.contains(tid)
            && tasks[tid].inner.signals.blocked.bits & (1u64 << 16u64) == 0,
        !tids.contains(tid) ==> all_told(tasks, tids)[tid] == tasks[tid],
    decreases tids.len(),
{
    assert(0x1_0000u64 == 1u64 << 16u64) by (bit_vector);
    lemma_bits(tasks[tid].inner.signals.blocked.bits, 0, 16, 16);
    if tids.len() > 0 {
        let front = tids.drop_last();
        law_who_is_woken(tasks, front, tid);
        let some = reached_of(tasks, front);
        let all = reached_of(tasks, tids);
        if tids.last() == tid {
            assert(tids[tids.len() - 1] == tid);
            if all.len() > some.len() {
                assert(all[some.len() as int] == tid);
            }
        }
        if front.contains(tid) {
            let i = choose|i: int| 0 <= i < front.len() && front[i] == tid;
            assert(tids[i] == tid);
        }
        if tids.contains(tid) && tids.last() != tid {
            let i = choose|i: int| 0 <= i < tids.len() && tids[i] == tid;
            assert(front[i] == tid);
        }
        if some.contains(tid) {
            let i = choose|i: int| 0 <= i < some.len() && some[i] == tid;
            assert(all[i] == tid);
        }
        if all.contains(tid) && !some.contains(tid) {
            let i = choose|i: int| 0 <= i < all.len() && all[i] == tid;
            if i < some.len() {
                assert(some[i] == tid);
            }
        }
    }
}

} // verus!
