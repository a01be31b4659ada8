//! What the scheduling classes keep of a task.

use vstd::prelude::*;

verus! {

/// The weight of a task with the usual share.
pub const NICE_0_WEIGHT: u64 = 1024;

/// What the feedback queue keeps of a task.
#[derive(Clone, Copy, Debug, PartialEq, Eq, Structural)]
pub struct SchedEntity {
    /// The level of the feedback queue.
    pub queue_level: u64,
    /// The time it ran, by its weight.
    pub vruntime: u64,
    /// When it was last put on a processor.
    pub exec_start: u64,
    /// The time it ran.
    pub sum_exec_runtime: u64,
    /// The time it had run when it was last settled.
    pub prev_sum_exec_runtime: u64,
    /// Its weight in the load.
    pub load_weight: u64,
}

impl SchedEntity {
    /// Starts with the usual share.
    pub fn new() -> (entity: Self)
        ensures
            entity == (SchedEntity {
                queue_level: 0,
                vruntime: 0,
                exec_start: 0,
                sum_exec_runtime: 0,
                prev_sum_exec_runtime: 0,
                load_weight: NICE_0_WEIGHT,
            }),
    {
        SchedEntity {
            queue_level: 0,
            vruntime: 0,
            exec_start: 0,
            sum_exec_runtime: 0,
            prev_sum_exec_runtime: 0,
            load_weight: NICE_0_WEIGHT,
        }
    }
}

/// What the queue of fixed priorities keeps of a task.
#[derive(Clone, Copy, Debug, PartialEq, Eq, Structural)]
pub struct SchedRtEntity {
    /// What is left of its time.
    pub time_slice: u64,
    /// It may move to another processor.
    pub migratable: bool,
}

impl SchedRtEntity {
    /// Starts without time, free to move.
    pub fn new() -> (entity: Self)
        ensures
            entity == (SchedRtEntity { time_slice: 0, migratable: true }),
    {
        SchedRtEntity { time_slice: 0, migratable: true }
    }
}

/// What the queue of deadlines keeps of a task.
#[derive(Clone, Copy, Debug, PartialEq, Eq, Structural)]
pub struct SchedDlEntity {
    /// The time it may run in a period.
    pub runtime: u64,
    /// The deadline within a period.
    pub deadline: u64,
    /// The period.
    pub period: u64,
    /// What is left of its time in this period.
    pub remaining_runtime: u64,
    /// The deadline in this period.
    pub absolute_deadline: u64,
    /// Its time is used up.
    pub throttled: bool,
}

impl SchedDlEntity {
    /// Starts without a deadline.
    pub fn new() -> (entity: Self)
        ensures
            entity == (SchedDlEntity {
                runtime: 0,
                deadline: 0,
                period: 0,
                remaining_runtime: 0,
                absolute_deadline: u64::MAX,
                throttled: false,
            }),
    {
        SchedDlEntity {
            runtime: 0,
            deadline: 0,
            period: 0,
            remaining_runtime: 0,
            absolute_deadline: u64::MAX,
            throttled: false,
        }
    }
}

} // verus!
