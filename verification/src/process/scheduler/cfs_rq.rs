//! A feedback queue of three levels.
//!
//! A task that is picked from a low level runs longer. Every so often the
//! tasks of the lowest level are lifted to the highest, so none starves.

use vstd::prelude::*;

use super::runqueue::SchedTask;
use crate::process::task::sched::SchedEntity;
use std::collections::BTreeMap;

verus! {

broadcast use {vstd::std_specs::btree::group_btree_axioms, vstd::laws_cmp::group_laws_cmp};

/// The number of levels.
pub const QUEUE_COUNT: u64 = 3;

/// After so many tasks were picked, the lowest level is lifted.
pub const BOOST_INTERVAL: u64 = 20;

/// A task in a queue: its number, and what it counts in the load.
#[derive(Clone, Copy, Debug, PartialEq, Eq, Structural)]
pub struct Queued {
    pub tid: u64,
    pub weight: u64,
}

/// The load of a queue.
#[derive(Clone, Copy, Debug, PartialEq, Eq, Structural)]
pub struct LoadWeight {
    /// The sum of the weights.
    pub weight: u64,
    /// The inverse of the weight, to multiply with in place of dividing; not used.
    pub inv_weight: u32,
}

/// The place of a task in a queue, from place `i` on.
pub open spec fn place_of(s: Seq<Queued>, tid: u64, i: int) -> Option<int>
    decreases s.len() - i,
{
    if i < 0 || i >= s.len() {
        None
    } else if s[i].tid == tid {
        Some(i)
    } else {
        place_of(s, tid, i + 1)
    }
}

/// Finds the place of a task in a queue.
pub fn find_task(queue: &Vec<Queued>, tid: u64) -> (place: Option<usize>)
    ensures
        match place {
            None => place_of(queue@, tid, 0) is None,
            Some(i) => place_of(queue@, tid, 0) == Some(i as int) && i < queue@.len()
                && queue@[i as int].tid == tid,
        },
{
    let mut i: usize = 0;
    while i < queue.len()
        invariant
            i <= queue@.len(),
            place_of(queue@, tid, 0) == place_of(queue@, tid, i as int),
        decreases queue@.len() - i,
    {
        if queue[i].tid == tid {
            return Some(i);
        }
        i = i + 1;
    }
    None
}

/// A task stands in a queue.
pub open spec fn stands_in(s: Seq<Queued>, tid: u64) -> bool {
    exists|i: int| 0 <= i < s.len() && (#[trigger] s[i]).tid == tid
}

/// A task that is of the highest level.
pub open spec fn at_top(task: SchedTask) -> SchedTask {
    SchedTask { se: SchedEntity { queue_level: 0, ..task.se }, ..task }
}

/// The tasks after those of a queue became ones of the highest level.
pub open spec fn raised(tasks: Map<u64, SchedTask>, s: Seq<Queued>) -> Map<u64, SchedTask> {
    Map::new(
        |tid: u64| tasks.contains_key(tid),
        |tid: u64|
            if stands_in(s, tid) {
                at_top(tasks[tid])
            } else {
                tasks[tid]
            },
    )
}

/// What a task counts in the load: its own weight, or the one that it was queued with where it
/// is not known.
pub open spec fn weight_of(tasks: Map<u64, SchedTask>, next: Queued) -> u64 {
    if tasks.contains_key(next.tid) {
        tasks[next.tid].se.load_weight
    } else {
        next.weight
    }
}

/// What a feedback queue holds.
pub struct Levels {
    pub first: Seq<Queued>,
    pub second: Seq<Queued>,
    pub third: Seq<Queued>,
    /// Tasks picked since the lowest level was lifted.
    pub dispatches: int,
}

impl Levels {
    /// The number of tasks.
    pub open spec fn count(self) -> nat {
        self.first.len() + self.second.len() + self.third.len()
    }

    /// With the lowest level lifted, where it is time.
    pub open spec fn lifted(self) -> Levels {
        if self.dispatches >= BOOST_INTERVAL {
            Levels {
                first: self.first + self.third,
                second: self.second,
                third: Seq::empty(),
                dispatches: 0,
            }
        } else {
            self
        }
    }

    /// The tasks after the lowest level was lifted, where it is time.
    pub open spec fn lifted_tasks(self, tasks: Map<u64, SchedTask>) -> Map<u64, SchedTask> {
        if self.dispatches >= BOOST_INTERVAL {
            raised(tasks, self.third)
        } else {
            tasks
        }
    }

    /// The task to run next, and its level.
    pub open spec fn head(self) -> Option<(Queued, int)> {
        if self.first.len() > 0 {
            Some((self.first[0], 0))
        } else if self.second.len() > 0 {
            Some((self.second[0], 1))
        } else if self.third.len() > 0 {
            Some((self.third[0], 2))
        } else {
            None
        }
    }

    /// With a task behind those of its level.
    pub open spec fn joined(self, task: Queued, level: int) -> Levels {
        if level <= 0 {
            Levels { first: self.first.push(task), ..self }
        } else if level == 1 {
            Levels { second: self.second.push(task), ..self }
        } else {
            Levels { third: self.third.push(task), ..self }
        }
    }

    /// Without the task to run next.
    pub open spec fn popped(self) -> Levels {
        if self.first.len() > 0 {
            Levels { first: self.first.skip(1), dispatches: self.dispatches + 1, ..self }
        } else if self.second.len() > 0 {
            Levels { second: self.second.skip(1), dispatches: self.dispatches + 1, ..self }
        } else {
            Levels { third: self.third.skip(1), dispatches: self.dispatches + 1, ..self }
        }
    }

    /// The level and the place of a task.
    pub open spec fn find(self, tid: u64) -> Option<(int, int)> {
        if place_of(self.first, tid, 0) is Some {
            Some((0, place_of(self.first, tid, 0)->Some_0))
        } else if place_of(self.second, tid, 0) is Some {
            Some((1, place_of(self.second, tid, 0)->Some_0))
        } else if place_of(self.third, tid, 0) is Some {
            Some((2, place_of(self.third, tid, 0)->Some_0))
        } else {
            None
        }
    }

    /// The tasks of a level.
    pub open spec fn level(self, level: int) -> Seq<Queued> {
        if level == 0 {
            self.first
        } else if level == 1 {
            self.second
        } else {
            self.third
        }
    }

    /// Without the task at a place of a level.
    pub open spec fn without(self, level: int, i: int) -> Levels {
        if level == 0 {
            Levels { first: self.first.remove(i), ..self }
        } else if level == 1 {
            Levels { second: self.second.remove(i), ..self }
        } else {
            Levels { third: self.third.remove(i), ..self }
        }
    }
}

/// The feedback queue of a processor.
pub struct CfsRq {
    pub load: LoadWeight,
    pub nr_queued: u64,
    pub h_nr_queued: u64,
    /// Kept for statistics; nothing is ordered by it.
    pub min_vruntime: u64,
    pub exec_clock: u64,
    pub first: Vec<Queued>,
    pub second: Vec<Queued>,
    pub third: Vec<Queued>,
    pub dispatches_since_boost: u64,
}

impl View for CfsRq {
    type V = Levels;

    open spec fn view(&self) -> Levels {
        Levels {
            first: self.first@,
            second: self.second@,
            third: self.third@,
            dispatches: self.dispatches_since_boost as int,
        }
    }
}

/// Less, but not below zero.
pub open spec fn less(a: int, b: int) -> int {
    if a >= b {
        a - b
    } else {
        0
    }
}

/// More, but not above the largest number.
pub open spec fn more(a: int, b: int) -> int {
    if a + b <= u64::MAX {
        a + b
    } else {
        u64::MAX as int
    }
}

impl CfsRq {
    /// The tasks since the lowest level was lifted are counted.
    pub open spec fn wf(&self) -> bool {
        self.dispatches_since_boost <= BOOST_INTERVAL
    }

    /// The counts are those of another queue with a task of a weight gone.
    pub open spec fn accounted(&self, before: &CfsRq, weight: int) -> bool {
        &&& self.nr_queued == less(before.nr_queued as int, 1)
        &&& self.h_nr_queued == less(before.h_nr_queued as int, 1)
        &&& self.load.weight == less(before.load.weight as int, weight)
        &&& self.load.inv_weight == before.load.inv_weight
        &&& self.min_vruntime == before.min_vruntime
        &&& self.exec_clock == before.exec_clock
    }

    /// The counts are those of another queue.
    pub open spec fn same_counts(&self, before: &CfsRq) -> bool {
        &&& self.nr_queued == before.nr_queued
        &&& self.h_nr_queued == before.h_nr_queued
        &&& self.load == before.load
        &&& self.min_vruntime == before.min_vruntime
        &&& self.exec_clock == before.exec_clock
    }

    /// Makes a queue without tasks.
    pub fn new() -> (rq: Self)
        ensures
            rq.wf(),
            rq@.count() == 0,
            rq.dispatches_since_boost == 0,
            rq.nr_queued == 0,
            rq.h_nr_queued == 0,
            rq.load == (LoadWeight { weight: 0, inv_weight: 0 }),
            rq.min_vruntime == 0,
            rq.exec_clock == 0,
    {
        CfsRq {
            load: LoadWeight { weight: 0, inv_weight: 0 },
            nr_queued: 0,
            h_nr_queued: 0,
            min_vruntime: 0,
            exec_clock: 0,
            first: Vec::new(),
            second: Vec::new(),
            third: Vec::new(),
            dispatches_since_boost: 0,
        }
    }

    /// Returns how long a task of a level runs, in milliseconds.
    pub fn time_slice_ms(level: u64) -> (ms: u64)
        ensures
            ms == if level == 0 {
                1u64
            } else if level == 1 {
                2u64
            } else {
                5u64
            },
    {
        if level == 0 {
            1
        } else if level == 1 {
            2
        } else {
            5
        }
    }

    /// Adds a task behind those of its level; returns the level.
    pub fn enqueue(&mut self, task: Queued, queue_level: u64) -> (level: u64)
        requires
            old(self).wf(),
            old(self).nr_queued < u64::MAX,
            old(self).h_nr_queued < u64::MAX,
        ensures
            final(self).wf(),
            level == if queue_level < QUEUE_COUNT {
                queue_level
            } else {
                (QUEUE_COUNT - 1) as u64
            },
            final(self)@ == old(self)@.joined(task, level as int),
            final(self).nr_queued == old(self).nr_queued + 1,
            final(self).h_nr_queued == old(self).h_nr_queued + 1,
            final(self).load.weight == more(old(self).load.weight as int, task.weight as int),
            final(self).load.inv_weight == old(self).load.inv_weight,
            final(self).min_vruntime == old(self).min_vruntime,
            final(self).exec_clock == old(self).exec_clock,
    {
        let level: u64 = if queue_level < QUEUE_COUNT {
            queue_level
        } else {
            QUEUE_COUNT - 1
        };
        if level == 0 {
            self.first.push(task);
        } else if level == 1 {
            self.second.push(task);
        } else {
            self.third.push(task);
        }
        self.nr_queued = self.nr_queued + 1;
        self.h_nr_queued = self.h_nr_queued + 1;
        self.load.weight = self.load.weight.saturating_add(task.weight);
        level
    }

    fn account_dequeue(&mut self, weight: u64)
        ensures
            final(self).accounted(old(self), weight as int),
            final(self)@ == old(self)@,
    {
        self.nr_queued = self.nr_queued.saturating_sub(1);
        self.h_nr_queued = self.h_nr_queued.saturating_sub(1);
        self.load.weight = self.load.weight.saturating_sub(weight);
    }

    /// Returns the task to run next, which stays.
    pub fn pick_next(&self) -> (task: Option<Queued>)
        ensures
            task == match self@.head() {
                None => None,
                Some((task, level)) => Some(task),
            },
    {
        if self.first.len() > 0 {
            Some(self.first[0])
        } else if self.second.len() > 0 {
            Some(self.second[0])
        } else if self.third.len() > 0 {
            Some(self.third[0])
        } else {
            None
        }
    }

    /// Lifts the tasks of the lowest level behind those of the highest, of which they are then.
    fn boost_bottom_queue(&mut self, tasks: &mut BTreeMap<u64, SchedTask>)
        ensures
            final(tasks)@ == raised(old(tasks)@, old(self)@.third),
            final(self)@ == (Levels {
                first: old(self)@.first + old(self)@.third,
                third: Seq::empty(),
                ..old(self)@
            }),
            final(self).same_counts(old(self)),
    {
        let mut lowest: Vec<Queued> = Vec::new();
        std::mem::swap(&mut lowest, &mut self.third);
        let mut i: usize = 0;
        assert(tasks@ =~= raised(tasks@, lowest@.take(0)));
        while i < lowest.len()
            invariant
                i <= lowest@.len(),
                tasks@ == raised(old(tasks)@, lowest@.take(i as int)),
            decreases lowest@.len() - i,
        {
            let tid: u64 = lowest[i].tid;
            let found: Option<SchedTask> = match tasks.get(&tid) {
                None => None,
                Some(task) => Some(*task),
            };
            if let Some(task) = found {
                let mut task = task;
                task.se.queue_level = 0;
                tasks.insert(tid, task);
            }
            proof {
                let before = lowest@.take(i as int);
                let after = lowest@.take(i + 1);
                assert(after[i as int].tid == tid);
                assert forall|t: u64| stands_in(after, t) == (stands_in(before, t) || t == tid) by {
                    if stands_in(before, t) {
                        let k = choose|k: int|
                            0 <= k < before.len() && (#[trigger] before[k]).tid == t;
                        assert(after[k].tid == t);
                    }
                    if stands_in(after, t) && t != tid {
                        let k = choose|k: int|
                            0 <= k < after.len() && (#[trigger] after[k]).tid == t;
                        assert(before[k].tid == t);
                    }
                }
                assert(tasks@ =~= raised(old(tasks)@, after));
            }
            i = i + 1;
        }
        assert(lowest@.take(lowest@.len() as int) =~= lowest@);
        self.first.append(&mut lowest);
        assert(self@.third =~= Seq::<Queued>::empty());
        assert(self@.first =~= old(self)@.first + old(self)@.third);
    }

    /// Takes the task to run next out; returns it with its level. It leaves the load with the
    /// weight that it has now.
    pub fn pop_next(&mut self, tasks: &mut BTreeMap<u64, SchedTask>) -> (task: Option<
        (Queued, u64),
    >)
        requires
            old(self).wf(),
        ensures
            final(self).wf(),
            final(tasks)@ == old(self)@.lifted_tasks(old(tasks)@),
            match old(self)@.lifted().head() {
                None => {
                    &&& task is None
                    &&& final(self)@ == old(self)@.lifted()
                    &&& final(self).same_counts(old(self))
                },
                Some((next, level)) => {
                    &&& task == Some((next, level as u64))
                    &&& final(self)@ == old(self)@.lifted().popped()
                    &&& final(self).accounted(old(self), weight_of(old(tasks)@, next) as int)
                },
            },
    {
        if self.dispatches_since_boost >= BOOST_INTERVAL {
            self.boost_bottom_queue(tasks);
            self.dispatches_since_boost = 0;
        }
        let ghost lifted = self@;
        assert(lifted == old(self)@.lifted());
        let (task, level): (Queued, u64) = if self.first.len() > 0 {
            (self.first.remove(0), 0)
        } else if self.second.len() > 0 {
            (self.second.remove(0), 1)
        } else if self.third.len() > 0 {
            (self.third.remove(0), 2)
        } else {
            return None;
        };
        proof {
            assert(lifted.first.remove(0) =~= lifted.first.skip(1) || lifted.first.len() == 0);
            assert(lifted.second.remove(0) =~= lifted.second.skip(1) || lifted.second.len() == 0);
            assert(lifted.third.remove(0) =~= lifted.third.skip(1) || lifted.third.len() == 0);
        }
        let weight: u64 = match tasks.get(&task.tid) {
            None => task.weight,
            Some(known) => known.se.load_weight,
        };
        assert(weight == weight_of(old(tasks)@, task));
        self.account_dequeue(weight);
        self.dispatches_since_boost = self.dispatches_since_boost + 1;
        Some((task, level))
    }

    /// Takes a task out of whatever level it is in, with the weight that it has now; returns it
    /// with its level.
    pub fn remove_task(&mut self, tid: u64, weight: u64) -> (task: Option<(Queued, u64)>)
        requires
            old(self).wf(),
        ensures
            final(self).wf(),
            match old(self)@.find(tid) {
                None => task is None && *final(self) == *old(self),
                Some((level, i)) => {
                    &&& task matches Some((gone, at)) && at == level && gone.tid == tid && gone
                        == old(self)@.level(level)[i]
                    &&& final(self)@ == old(self)@.without(level, i)
                    &&& final(self).accounted(old(self), weight as int)
                },
            },
    {
        let taken = self.remove_matching(tid);
        if taken.is_some() {
            self.account_dequeue(weight);
        }
        taken
    }

    /// Takes a task out of its level, with what it is said to count in the load.
    pub fn dequeue(&mut self, tid: u64, vruntime: u64, weight: u64) -> (task: Option<Queued>)
        requires
            old(self).wf(),
        ensures
            final(self).wf(),
            match old(self)@.find(tid) {
                None => task is None && *final(self) == *old(self),
                Some((level, i)) => {
                    &&& task matches Some(gone) && gone.tid == tid && gone == old(self)@.level(
                        level,
                    )[i]
                    &&& final(self)@ == old(self)@.without(level, i)
                    &&& final(self).accounted(old(self), weight as int)
                },
            },
    {
        match self.remove_matching(tid) {
            None => None,
            Some((task, level)) => {
                self.account_dequeue(weight);
                Some(task)
            },
        }
    }

    /// Takes a task out of its level; it is counted still.
    fn remove_matching(&mut self, tid: u64) -> (task: Option<(Queued, u64)>)
        requires
            old(self).wf(),
        ensures
            final(self).wf(),
            final(self).same_counts(old(self)),
            match old(self)@.find(tid) {
                None => task is None && *final(self) == *old(self),
                Some((level, i)) => {
                    &&& task matches Some((gone, at)) && at == level && gone.tid == tid && gone
                        == old(self)@.level(level)[i]
                    &&& final(self)@ == old(self)@.without(level, i)
                },
            },
    {
        if let Some(i) = find_task(&self.first, tid) {
            let task = self.first.remove(i);
            return Some((task, 0));
        }
        if let Some(i) = find_task(&self.second, tid) {
            let task = self.second.remove(i);
            return Some((task, 1));
        }
        if let Some(i) = find_task(&self.third, tid) {
            let task = self.third.remove(i);
            return Some((task, 2));
        }
        None
    }

    /// Nothing is ordered by virtual time, so there is nothing to move on.
    pub fn advance_min_vruntime(&mut self)
        ensures
            *final(self) == *old(self),
    {
    }
}

/// A task of the lowest level is not passed over for long: once it is time,
/// it is among those of the highest level, behind the ones that were there.
pub proof fn law_lowest_is_lifted(levels: Levels, i: int)
    requires
        levels.dispatches >= BOOST_INTERVAL,
        0 <= i < levels.third.len(),
    ensures
        levels.lifted().first[levels.first.len() + i] == levels.third[i],
        levels.lifted().third.len() == 0,
        levels.lifted().count() == levels.count(),
{
}

/// A task that is lifted is of the highest level from then on, and nothing else of it changes.
pub proof fn law_lifted_is_of_the_highest_level(levels: Levels, tasks: Map<u64, SchedTask>, i: int)
    requires
        levels.dispatches >= BOOST_INTERVAL,
        0 <= i < levels.third.len(),
        tasks.contains_key(levels.third[i].tid),
    ensures
        ({
            let tid = levels.third[i].tid;
            levels.lifted_tasks(tasks)[tid] == at_top(tasks[tid])
        }),
        levels.lifted_tasks(tasks).dom() == tasks.dom(),
{
    assert(levels.lifted_tasks(tasks).dom() =~= tasks.dom());
}

/// Picking a task takes one out and leaves the others.
pub proof fn law_pop_counts(levels: Levels)
    requires
        levels.head() is Some,
    ensures
        levels.popped().count() == levels.count() - 1,
{
}

} // verus!
