//! The task of a processor that goes before all others.

use vstd::prelude::*;

verus! {

/// The stop task of a processor, and whether it is to run.
#[derive(Clone, Copy, Debug)]
pub struct StopRq {
    pub stop: Option<u64>,
    pub runnable: bool,
}

impl StopRq {
    /// Starts without a stop task.
    pub fn new() -> (rq: Self)
        ensures
            rq.stop is None,
            !rq.runnable,
    {
        StopRq { stop: None, runnable: false }
    }

    /// Sets the stop task.
    pub fn set_stop_task(&mut self, tid: u64)
        ensures
            final(self).stop == Some(tid),
            final(self).runnable == old(self).runnable,
    {
        self.stop = Some(tid);
    }

    /// Says whether the stop task is to run.
    pub fn set_runnable(&mut self, runnable: bool)
        ensures
            final(self).runnable == runnable,
            final(self).stop == old(self).stop,
    {
        self.runnable = runnable;
    }

    /// Returns the stop task where it is to run.
    pub fn pick_next(&self) -> (tid: Option<u64>)
        ensures
            tid == if self.runnable {
                self.stop
            } else {
                None
            },
    {
        if self.runnable {
            self.stop
        } else {
            None
        }
    }
}

} // verus!
