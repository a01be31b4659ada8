//! Waiting for a child to end.

use vstd::prelude::*;

use super::scheduler::runqueue::SchedTask;
use super::scheduler::wait::WaitQueue;
use super::task::status::TaskStatus;

verus! {

/// Any child.
pub const P_ALL: i32 = 0;

/// The child with a number.
pub const P_PID: i32 = 1;

/// A child of a group.
pub const P_PGID: i32 = 2;

/// A child of a process.
#[derive(Clone, Copy, Debug, PartialEq, Eq, Structural)]
pub struct Child {
    pub pid: u64,
    pub pgid: u64,
    pub state: TaskStatus,
}

/// The child is one of those that are waited for: -1 for all, 0 for the own group,
/// a number for that child, and a negative number for that group.
pub open spec fn wait4_matches(child: Child, own_pgid: u64, pid: i32) -> bool {
    if pid == -1 {
        true
    } else if pid == 0 {
        child.pgid == own_pgid
    } else if pid > 0 {
        child.pid == pid
    } else {
        pid != i32::MIN && child.pgid == -pid
    }
}

/// The child is one of those that are waited for.
pub open spec fn waitid_matches(child: Child, idtype: i32, id: i32) -> bool {
    if idtype == P_ALL {
        true
    } else if idtype == P_PID {
        id >= 0 && child.pid == id
    } else if idtype == P_PGID {
        id >= 0 && child.pgid == id
    } else {
        false
    }
}

/// A child that is waited for is there, and none of them has ended.
pub open spec fn must_wait(children: Seq<Child>, wanted: spec_fn(Child) -> bool) -> bool {
    &&& exists|i: int| 0 <= i < children.len() && wanted(#[trigger] children[i])
    &&& forall|i: int|
        0 <= i < children.len() && wanted(#[trigger] children[i]) ==> children[i].state
            != TaskStatus::Zombie
}

/// Tells whether the process has to wait for one of its children to end.
pub fn wait4_should_block(children: &Vec<Child>, own_pgid: u64, pid: i32) -> (block: bool)
    ensures
        block == must_wait(children@, |child: Child| wait4_matches(child, own_pgid, pid)),
{
    let ghost wanted = |child: Child| wait4_matches(child, own_pgid, pid);
    let mut any: bool = false;
    let mut i: usize = 0;
    while i < children.len()
        invariant
            i <= children@.len(),
            wanted == (|child: Child| wait4_matches(child, own_pgid, pid)),
            any == exists|j: int| 0 <= j < i && wanted(#[trigger] children@[j]),
            forall|j: int|
                0 <= j < i && wanted(#[trigger] children@[j]) ==> children@[j].state
                    != TaskStatus::Zombie,
        decreases children@.len() - i,
    {
        let child = children[i];
        let found: bool = if pid == -1 {
            true
        } else if pid == 0 {
            child.pgid == own_pgid
        } else if pid > 0 {
            child.pid == pid as u64
        } else {
            pid != i32::MIN && child.pgid == (-pid) as u64
        };
        assert(found == wanted(children@[i as int]));
        if found {
            any = true;
            if child.state == TaskStatus::Zombie {
                return false;
            }
        }
        i = i + 1;
    }
    any
}

/// Tells whether the process has to wait for one of its children to end.
pub fn waitid_should_block(children: &Vec<Child>, idtype: i32, id: i32) -> (block: bool)
    ensures
        block == must_wait(children@, |child: Child| waitid_matches(child, idtype, id)),
{
    let ghost wanted = |child: Child| waitid_matches(child, idtype, id);
    let mut any: bool = false;
    let mut i: usize = 0;
    while i < children.len()
        invariant
            i <= children@.len(),
            wanted == (|child: Child| waitid_matches(child, idtype, id)),
            any == exists|j: int| 0 <= j < i && wanted(#[trigger] children@[j]),
            forall|j: int|
                0 <= j < i && wanted(#[trigger] children@[j]) ==> children@[j].state
                    != TaskStatus::Zombie,
        decreases children@.len() - i,
    {
        let child = children[i];
        let found: bool = if idtype == P_ALL {
            true
        } else if idtype == P_PID {
            id >= 0 && child.pid == id as u64
        } else if idtype == P_PGID {
            id >= 0 && child.pgid == id as u64
        } else {
            false
        };
        assert(found == wanted(children@[i as int]));
        if found {
            any = true;
            if child.state == TaskStatus::Zombie {
                return false;
            }
        }
        i = i + 1;
    }
    any
}

/// A task sleeps in a queue, or nothing has happened.
pub open spec fn sleeps_if(
    must: bool,
    task: SchedTask,
    task_after: SchedTask,
    queue: WaitQueue,
    queue_after: WaitQueue,
) -> bool {
    if must {
        &&& task_after == (SchedTask { state: TaskStatus::BlockSaving, ..task })
        &&& queue_after.queue@ == queue.queue@.push(task.tid)
    } else {
        task_after == task && queue_after == queue
    }
}

/// Puts the task to sleep until a child ends, where it has to wait; tells whether it sleeps.
pub fn wait4_block_current(
    waiters: &mut WaitQueue,
    task: &mut SchedTask,
    children: &Vec<Child>,
    own_pgid: u64,
    pid: i32,
) -> (blocked: bool)
    ensures
        blocked == must_wait(children@, |child: Child| wait4_matches(child, own_pgid, pid)),
        sleeps_if(blocked, *old(task), *final(task), *old(waiters), *final(waiters)),
{
    let block: bool = wait4_should_block(children, own_pgid, pid);
    waiters.block_current_and_run_next_if(task, block)
}

/// Puts the task to sleep until a child ends, where it has to wait; tells whether it sleeps.
pub fn waitid_block_current(
    waiters: &mut WaitQueue,
    task: &mut SchedTask,
    children: &Vec<Child>,
    idtype: i32,
    id: i32,
) -> (blocked: bool)
    ensures
        blocked == must_wait(children@, |child: Child| waitid_matches(child, idtype, id)),
        sleeps_if(blocked, *old(task), *final(task), *old(waiters), *final(waiters)),
{
    let block: bool = waitid_should_block(children, idtype, id);
    waiters.block_current_and_run_next_if(task, block)
}

/// Returns the tasks to wake when a child has ended: all that wait, in their order.
pub fn wake_child_exit_waiters(waiters: &mut WaitQueue) -> (tids: Vec<u64>)
    ensures
        tids@ == old(waiters).queue@,
        final(waiters).queue@.len() == 0,
{
    waiters.drain()
}

/// Nobody waits where a child that is waited for has ended, or where there is none.
pub proof fn law_no_wait_for_the_ended(children: Seq<Child>, wanted: spec_fn(Child) -> bool, i: int)
    requires
        0 <= i < children.len(),
        wanted(children[i]),
        children[i].state == TaskStatus::Zombie,
    ensures
        !must_wait(children, wanted),
        !must_wait(Seq::<Child>::empty(), wanted),
{
}

} // verus!
