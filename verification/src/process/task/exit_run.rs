//! The end of a thread among the others: who is told, who is woken and who takes its children.

use vstd::prelude::*;

use super::exit::{
    after_exit, child_ended, child_of, next_of, notify_parent, notify_parent_thread, recycled,
    ExitNext,
};
use super::status::TaskStatus;
use super::tcb::{TaskStruct, TaskStructInner};
use super::vfork::VforkCompletion;
use crate::process::child_wait::wake_child_exit_waiters;
use crate::process::registry::{known, rising_ids, Entry, Registry};
use crate::process::scheduler::wait::WaitQueue;
use crate::process::signal::delivery::TaskSignals;
use crate::process::signal::flags::{covers, SIGCHLD};
use crate::process::signal::state::Signal;
use crate::process::timer::{Numbered, PosixTimers};
use std::collections::BTreeMap;

verus! {

broadcast use {vstd::std_specs::btree::group_btree_axioms, vstd::laws_cmp::group_laws_cmp};

/// The threads, and what they have by number.
pub struct ThreadTables {
    /// Every thread but the one that runs, by its number.
    pub tasks: BTreeMap<u64, TaskStruct>,
    pub threads: Registry,
    /// The signals of groups of threads.
    pub groups: BTreeMap<u64, Signal>,
    /// Who waits for a child of a group to end.
    pub waiters: BTreeMap<u64, WaitQueue>,
    /// What parents wait for whose memory a child uses.
    pub completions: BTreeMap<u64, VforkCompletion>,
    pub timers: PosixTimers,
}

/// What is to be done after a thread has ended.
pub struct Exited {
    pub next: ExitNext,
    /// The address space that the thread had, in which a word is to be cleared.
    pub space: Option<u64>,
    /// Threads that waited for it not to use their memory any more; they are to be woken.
    pub released: Vec<u64>,
    /// Threads of the parent that the signal reaches; they are to be woken.
    pub woken: Vec<u64>,
    /// Threads that waited for a child to end; they are to be woken.
    pub waited: Vec<u64>,
}

/// The signal that tells of the end of a child reaches the thread.
pub open spec fn reached(task: TaskStruct) -> bool {
    !covers(task.inner.signals.blocked.bits, SIGCHLD)
}

/// A thread of the parent after it was told: where it sleeps, its sleep is interrupted.
pub open spec fn told(task: TaskStruct) -> TaskStruct {
    if reached(task) && task.inner.sched.state == TaskStatus::Blocked {
        TaskStruct {
            inner: TaskStructInner {
                signals: TaskSignals { signal_interrupted: true, ..task.inner.signals },
                ..task.inner
            },
            ..task
        }
    } else {
        task
    }
}

/// The tasks after those of a list were told.
pub open spec fn all_told(tasks: Map<u64, TaskStruct>, tids: Seq<u64>) -> Map<u64, TaskStruct> {
    Map::new(
        |tid: u64| tasks.contains_key(tid),
        |tid: u64|
            if tids.contains(tid) {
                told(tasks[tid])
            } else {
                tasks[tid]
            },
    )
}

/// Those of a list that the signal reaches.
pub open spec fn reached_of(tasks: Map<u64, TaskStruct>, tids: Seq<u64>) -> Seq<u64>
    decreases tids.len(),
{
    if tids.len() == 0 {
        Seq::empty()
    } else {
        let front = reached_of(tasks, tids.drop_last());
        if tasks.contains_key(tids.last()) && reached(tasks[tids.last()]) {
            front.push(tids.last())
        } else {
            front
        }
    }
}

/// The tasks after those of a list got another parent.
pub open spec fn all_moved(tasks: Map<u64, TaskStruct>, tids: Seq<u64>, parent: u64) -> Map<
    u64,
    TaskStruct,
> {
    Map::new(
        |tid: u64| tasks.contains_key(tid),
        |tid: u64|
            if tids.contains(tid) {
                child_of(tasks[tid], parent)
            } else {
                tasks[tid]
            },
    )
}

/// The tasks after a process took children in.
pub open spec fn adopted(
    before: Map<u64, TaskStruct>,
    after: Map<u64, TaskStruct>,
    first: u64,
    orphans: Seq<u64>,
) -> bool {
    let moved = all_moved(before, orphans, first);
    &&& after.dom() == before.dom()
    &&& after[first].inner.children@ == before[first].inner.children@ + orphans
    &&& after[first].only_children_differ(&moved[first])
    &&& forall|tid: u64|
        before.contains_key(tid) && tid != first ==> #[trigger] after[tid] == moved[tid]
}

/// The parent that a thread has, where it is still there.
pub open spec fn parent_of(task: TaskStruct, tasks: Map<u64, TaskStruct>) -> Option<u64> {
    if task.inner.parent is Some && tasks.contains_key(task.inner.parent->Some_0) {
        task.inner.parent
    } else {
        None
    }
}

/// The numbers are those of the threads of a process, in order.
pub open spec fn threads_listed(threads: Seq<Entry>, pid: u64, tids: Seq<u64>) -> bool {
    &&& rising_ids(tids)
    &&& forall|tid: u64|
        #[trigger] tids.contains(tid) <==> threads.contains(Entry { tid, tgid: pid })
}

/// The parent was told that a child has ended: its group has the signal, its threads that the
/// signal reaches are to be woken, and those who waited for a child are, too.
pub open spec fn parent_told(
    before: ThreadTables,
    tasks: Map<u64, TaskStruct>,
    after: ThreadTables,
    parent: u64,
    threads: Seq<Entry>,
    exited: Exited,
) -> bool {
    let group = before.tasks@[parent].inner.signal;
    &&& exists|tids: Seq<u64>| #[trigger]
        threads_listed(threads, before.tasks@[parent].tgid, tids) && tasks == all_told(
            before.tasks@,
            tids,
        ) && exited.woken@ == reached_of(before.tasks@, tids)
    &&& after.groups@.dom() == before.groups@.dom()
    &&& before.groups@.contains_key(group) ==> child_ended(
        before.groups@[group],
        after.groups@[group],
    )
    &&& forall|number: u64|
        before.groups@.contains_key(number) && number != group
            ==> #[trigger] after.groups@[number] == before.groups@[number]
    &&& after.waiters@.dom() == before.waiters@.dom()
    &&& if before.waiters@.contains_key(group) {
        &&& exited.waited@ == before.waiters@[group].queue@
        &&& after.waiters@[group].queue@.len() == 0
    } else {
        exited.waited@.len() == 0
    }
    &&& forall|number: u64|
        before.waiters@.contains_key(number) && number != group
            ==> #[trigger] after.waiters@[number] == before.waiters@[number]
}

/// Who waited for a thread not to use their memory any more is let go.
pub open spec fn let_go(
    before: Map<u64, VforkCompletion>,
    after: Map<u64, VforkCompletion>,
    completion: Option<u64>,
    released: Seq<u64>,
) -> bool {
    &&& after.dom() == before.dom()
    &&& forall|number: u64|
        before.contains_key(number) && completion != Some(number) ==> #[trigger] after[number]
            == before[number]
    &&& if completion is Some && before.contains_key(completion->Some_0) {
        let was = before[completion->Some_0];
        &&& after[completion->Some_0].done
        &&& if was.done {
            &&& released.len() == 0
            &&& after[completion->Some_0].waiters.queue@ == was.waiters.queue@
        } else {
            &&& released == was.waiters.queue@
            &&& after[completion->Some_0].waiters.queue@.len() == 0
        }
    } else {
        released.len() == 0
    }
}

/// A process has ended with its last thread.
pub open spec fn process_ended(
    before: ThreadTables,
    after: ThreadTables,
    task: TaskStruct,
    first: u64,
    exited: Exited,
) -> bool {
    &&& forall|e: Numbered|
        #[trigger] after.timers@.contains(e) <==> before.timers@.contains(e) && e.timer.owner_pid
            != task.tgid
    &&& after.timers.next_id() == before.timers.next_id()
    &&& exists|tasks: Map<u64, TaskStruct>| #[trigger]
        adopted(tasks, after.tasks@, first, task.inner.children@) && match parent_of(
            task,
            before.tasks@,
        ) {
            Some(parent) => parent_told(before, tasks, after, parent, after.threads@, exited),
            None => {
                &&& tasks == before.tasks@
                &&& exited.woken@.len() == 0
                &&& exited.waited@.len() == 0
                &&& after.groups@ == before.groups@
                &&& after.waiters@ == before.waiters@
            },
        }
}

/// A thread has ended, and its process with it where it was the last.
pub open spec fn thread_ended(
    before: ThreadTables,
    after: ThreadTables,
    task: TaskStruct,
    task_after: TaskStruct,
    first: u64,
    exit_code: i32,
    no_files: u64,
    exited: Exited,
) -> bool {
    &&& exited.next == next_of(after.threads@, task.tgid, task.pid)
    &&& exited.space == task.inner.mm
    &&& !known(after.threads@, task.pid)
    &&& forall|e: Entry|
        e.tid != task.pid ==> (#[trigger] after.threads@.contains(e) <==> before.threads@.contains(
            e,
        ))
    &&& let_go(
        before.completions@,
        after.completions@,
        task.inner.vfork_completion,
        exited.released@,
    )
    &&& if exited.next == ExitNext::ProcessGone {
        &&& exists|ended: TaskStruct| #[trigger]
            recycled(task, ended, exit_code, no_files) && task_after.only_children_differ(&ended)
                && task_after.inner.children@.len() == 0
        &&& process_ended(before, after, task, first, exited)
    } else {
        &&& recycled(task, task_after, exit_code, no_files)
        &&& after.tasks@ == before.tasks@
        &&& after.groups@ == before.groups@
        &&& after.waiters@ == before.waiters@
        &&& after.timers == before.timers
        &&& exited.woken@.len() == 0
        &&& exited.waited@.len() == 0
    }
}

proof fn lemma_taken(s: Seq<u64>, i: int)
    requires
        0 <= i < s.len(),
    ensures
        forall|t: u64| #[trigger]
            s.take(i + 1).contains(t) <==> s.take(i).contains(t) || t == s[i],
{
    let a = s.take(i);
    let b = s.take(i + 1);
    assert(b =~= a.push(s[i]));
    assert(b[i] == s[i]);
    assert forall|t: u64| #[trigger] b.contains(t) <==> a.contains(t) || t == s[i] by {
        if a.contains(t) {
            let k = choose|k: int| 0 <= k < a.len() && a[k] == t;
            assert(b[k] == t);
        }
        if b.contains(t) && t != s[i] {
            let k = choose|k: int| 0 <= k < b.len() && b[k] == t;
            assert(a[k] == t);
        }
    }
}

/// Tells threads that a child has ended; returns those that the signal reaches.
fn tell_threads(tasks: &mut BTreeMap<u64, TaskStruct>, tids: &Vec<u64>) -> (woken: Vec<u64>)
    ensures
        final(tasks)@ == all_told(old(tasks)@, tids@),
        woken@ == reached_of(old(tasks)@, tids@),
{
    let mut woken: Vec<u64> = Vec::new();
    let mut i: usize = 0;
    assert(tids@.take(0) =~= Seq::<u64>::empty());
    assert(tasks@ =~= all_told(old(tasks)@, tids@.take(0)));
    while i < tids.len()
        invariant
            i <= tids@.len(),
            tasks@ == all_told(old(tasks)@, tids@.take(i as int)),
            woken@ == reached_of(old(tasks)@, tids@.take(i as int)),
        decreases tids@.len() - i,
    {
        let tid: u64 = tids[i];
        proof {
            lemma_taken(tids@, i as int);
            assert(tids@.take(i + 1).drop_last() =~= tids@.take(i as int));
            assert(tids@.take(i + 1).last() == tid);
        }
        if let Some(task) = tasks.remove(&tid) {
            let mut task = task;
            let state = task.inner.sched.state;
            if notify_parent_thread(&mut task.inner.signals, state) {
                woken.push(tid);
            }
            tasks.insert(tid, task);
        }
        i = i + 1;
        assert(tasks@ =~= all_told(old(tasks)@, tids@.take(i as int)));
    }
    assert(tids@.take(tids@.len() as int) =~= tids@);
    woken
}

/// Gives children to another parent.
fn move_children(tasks: &mut BTreeMap<u64, TaskStruct>, orphans: &Vec<u64>, parent: u64)
    ensures
        final(tasks)@ == all_moved(old(tasks)@, orphans@, parent),
{
    let mut i: usize = 0;
    assert(orphans@.take(0) =~= Seq::<u64>::empty());
    assert(tasks@ =~= all_moved(old(tasks)@, orphans@.take(0), parent));
    while i < orphans.len()
        invariant
            i <= orphans@.len(),
            tasks@ == all_moved(old(tasks)@, orphans@.take(i as int), parent),
        decreases orphans@.len() - i,
    {
        let tid: u64 = orphans[i];
        proof {
            lemma_taken(orphans@, i as int);
        }
        if let Some(task) = tasks.remove(&tid) {
            let mut task = task;
            task.set_parent(parent);
            tasks.insert(tid, task);
        }
        i = i + 1;
        assert(tasks@ =~= all_moved(old(tasks)@, orphans@.take(i as int), parent));
    }
    assert(orphans@.take(orphans@.len() as int) =~= orphans@);
}

/// Lets the first process take children in.
fn adopt(tasks: &mut BTreeMap<u64, TaskStruct>, orphans: Vec<u64>, first: u64)
    requires
        old(tasks)@.contains_key(first),
    ensures
        adopted(old(tasks)@, final(tasks)@, first, orphans@),
{
    move_children(tasks, &orphans, first);
    let ghost moved = tasks@;
    let mut orphans = orphans;
    let ghost all = orphans@;
    if let Some(root) = tasks.remove(&first) {
        let mut root = root;
        root.adopt_orphans(&mut orphans);
        tasks.insert(first, root);
    }
    assert(tasks@.dom() =~= old(tasks)@.dom());
}

impl ThreadTables {
    /// What is kept is in order, and the first process is there.
    pub open spec fn wf(&self, first: u64) -> bool {
        &&& self.threads.wf()
        &&& self.timers.wf()
        &&& self.tasks@.contains_key(first)
    }

    /// Lets those go who waited for a thread not to use their memory.
    fn complete(&mut self, completion: Option<u64>) -> (released: Vec<u64>)
        ensures
            let_go(
                old(self).completions@,
                final(self).completions@,
                completion,
                released@,
            ),
            final(self).tasks == old(self).tasks,
            final(self).threads == old(self).threads,
            final(self).groups == old(self).groups,
            final(self).waiters == old(self).waiters,
            final(self).timers == old(self).timers,
    {
        let mut released: Vec<u64> = Vec::new();
        if let Some(number) = completion {
            if let Some(awaited) = self.completions.remove(&number) {
                let mut awaited = awaited;
                released = awaited.complete();
                self.completions.insert(number, awaited);
            }
        }
        assert(self.completions@.dom() =~= old(self).completions@.dom());
        released
    }

    /// Tells the parent of a process that it has ended; returns the threads that the signal
    /// reaches, and those who waited for a child.
    fn tell_parent(&mut self, parent: u64) -> (told: (Vec<u64>, Vec<u64>))
        requires
            old(self).threads.wf(),
            old(self).tasks@.contains_key(parent),
        ensures
            forall|exited: Exited|
                #![trigger parent_told(*old(self), final(self).tasks@, *final(self), parent, old(self).threads@, exited)]
                exited.woken@ == told.0@ && exited.waited@ == told.1@ ==> parent_told(
                    *old(self),
                    final(self).tasks@,
                    *final(self),
                    parent,
                    old(self).threads@,
                    exited,
                ),
            final(self).tasks@.dom() == old(self).tasks@.dom(),
            final(self).threads == old(self).threads,
            final(self).completions == old(self).completions,
            final(self).timers == old(self).timers,
    {
        let mut tgid: u64 = 0;
        let mut group: u64 = 0;
        if let Some(task) = self.tasks.get(&parent) {
            tgid = task.gettgid();
            group = task.inner.signal;
        }
        if let Some(signal) = self.groups.remove(&group) {
            let mut signal = signal;
            notify_parent(&mut signal);
            self.groups.insert(group, signal);
        }
        let tids = self.threads.threads_of(tgid);
        let woken = tell_threads(&mut self.tasks, &tids);
        let mut waited: Vec<u64> = Vec::new();
        if let Some(queue) = self.waiters.remove(&group) {
            let mut queue = queue;
            waited = wake_child_exit_waiters(&mut queue);
            self.waiters.insert(group, queue);
        }
        proof {
            assert(threads_listed(old(self).threads@, tgid, tids@));
            assert(self.groups@.dom() =~= old(self).groups@.dom());
            assert(self.waiters@.dom() =~= old(self).waiters@.dom());
            assert(self.tasks@.dom() =~= old(self).tasks@.dom());
        }
        (woken, waited)
    }

    /// Ends the process of its last thread.
    fn end_process(&mut self, task: &mut TaskStruct, first: u64) -> (told: (Vec<u64>, Vec<u64>))
        requires
            old(self).wf(first),
        ensures
            final(self).wf(first),
            final(task).inner.children@.len() == 0,
            final(task).only_children_differ(old(task)),
            final(self).threads == old(self).threads,
            final(self).completions == old(self).completions,
            forall|exited: Exited|
                #![trigger process_ended(*old(self), *final(self), *old(task), first, exited)]
                exited.woken@ == told.0@ && exited.waited@ == told.1@ ==> process_ended(
                    *old(self),
                    *final(self),
                    *old(task),
                    first,
                    exited,
                ),
    {
        self.timers.remove_process_posix_timers(task.getpid());
        let orphans = task.take_children();
        let mut woken: Vec<u64> = Vec::new();
        let mut waited: Vec<u64> = Vec::new();
        let ghost begun = *self;
        if let Some(parent) = task.inner.parent {
            if self.tasks.contains_key(&parent) {
                let (reached, waiting) = self.tell_parent(parent);
                woken = reached;
                waited = waiting;
            }
        }
        let ghost mid = *self;
        adopt(&mut self.tasks, orphans, first);
        proof {
            assert forall|exited: Exited|
                #![trigger process_ended(*old(self), *self, *old(task), first, exited)]
                exited.woken@ == woken@ && exited.waited@ == waited@ implies process_ended(
                *old(self),
                *self,
                *old(task),
                first,
                exited,
            ) by {
                assert(adopted(mid.tasks@, self.tasks@, first, old(task).inner.children@));
                if let Some(parent) = parent_of(*old(task), old(self).tasks@) {
                    assert(parent_told(begun, mid.tasks@, mid, parent, begun.threads@, exited));
                }
            }
        }
        (woken, waited)
    }
}

/// Ends a thread: it is not known any more and has nothing. With the last thread of a process
/// the process ends: its timers go, its parent is told, and the first process takes its
/// children in.
pub fn exit_current_and_run_next(
    task: &mut TaskStruct,
    tables: &mut ThreadTables,
    first: u64,
    exit_code: i32,
    no_files: u64,
) -> (exited: Exited)
    requires
        old(tables).wf(first),
    ensures
        final(tables).wf(first),
        thread_ended(
            *old(tables),
            *final(tables),
            *old(task),
            *final(task),
            first,
            exit_code,
            no_files,
            exited,
        ),
{
    let space = task.inner.mm;
    tables.threads.remove_from_tid2task(task.gettid());
    let completion = task.recycle_on_exit(exit_code, no_files);
    let ghost ended = *task;
    let released = tables.complete(completion);
    let next = after_exit(&tables.threads, task.getpid(), task.gettid());
    let mut woken: Vec<u64> = Vec::new();
    let mut waited: Vec<u64> = Vec::new();
    let ghost mid = *tables;
    if next == ExitNext::ProcessGone {
        let (reached, waiting) = tables.end_process(task, first);
        woken = reached;
        waited = waiting;
    }
    let exited = Exited { next, space, released, woken, waited };
    proof {
        if next == ExitNext::ProcessGone {
            assert(recycled(*old(task), ended, exit_code, no_files));
            assert(process_ended(mid, *tables, ended, first, exited));
        }
    }
    exited
}

/// No child is lost when its parent ends: the first process has it among its children, and is
/// its parent.
pub proof fn law_orphans_are_adopted(
    before: ThreadTables,
    after: ThreadTables,
    task: TaskStruct,
    first: u64,
    exited: Exited,
    child: u64,
)
    requires
        before.tasks@.contains_key(first),
        process_ended(before, after, task, first, exited),
        task.inner.children@.contains(child),
    ensures
        after.tasks@[first].inner.children@.contains(child),
        after.tasks@[first].inner.children@ == before.tasks@[first].inner.children@
            + task.inner.children@,
        before.tasks@.contains_key(child) ==> after.tasks@[child].inner.parent == Some(first)
            && after.tasks@[child].inner.real_parent == Some(first),
{
    let tasks = choose|tasks: Map<u64, TaskStruct>| #[trigger]
        adopted(tasks, after.tasks@, first, task.inner.children@) && match parent_of(
            task,
            before.tasks@,
        ) {
            Some(parent) => parent_told(before, tasks, after, parent, after.threads@, exited),
            None => {
                &&& tasks == before.tasks@
                &&& exited.woken@.len() == 0
                &&& exited.waited@.len() == 0
                &&& after.groups@ == before.groups@
                &&& after.waiters@ == before.waiters@
            },
        };
    let orphans = task.inner.children@;
    let had = before.tasks@[first].inner.children@;
    let i = choose|i: int| 0 <= i < orphans.len() && orphans[i] == child;
    assert(tasks.dom() =~= before.tasks@.dom());
    assert(tasks[first].inner.children == before.tasks@[first].inner.children);
    assert((had + orphans)[had.len() + i] == child);
}

/// A thread of the parent is woken exactly where the signal is not held back.
pub proof fn law_woken_are_reached(tasks: Map<u64, TaskStruct>, tids: Seq<u64>, tid: u64)
    ensures
        reached_of(tasks, tids).contains(tid) <==> tids.contains(tid) && tasks.contains_key(tid)
            && reached(tasks[tid]),
    decreases tids.len(),
{
    if tids.len() > 0 {
        let front = tids.drop_last();
        law_woken_are_reached(tasks, front, tid);
        assert(tids =~= front.push(tids.last()));
        let before = reached_of(tasks, front);
        if tasks.contains_key(tids.last()) && reached(tasks[tids.last()]) {
            let after = before.push(tids.last());
            assert(after[before.len() as int] == tids.last());
            if before.contains(tid) {
                let k = choose|k: int| 0 <= k < before.len() && before[k] == tid;
                assert(after[k] == tid);
            }
            if after.contains(tid) && tid != tids.last() {
                let k = choose|k: int| 0 <= k < after.len() && after[k] == tid;
                assert(before[k] == tid);
            }
        }
        if front.contains(tid) {
            let k = choose|k: int| 0 <= k < front.len() && front[k] == tid;
            assert(tids[k] == tid);
        }
        if tids.contains(tid) && tid != tids.last() {
            let k = choose|k: int| 0 <= k < tids.len() && tids[k] == tid;
            assert(front[k] == tid);
        }
        if tid == tids.last() {
            assert(tids[tids.len() - 1] == tid);
        }
    }
}

} // verus!
