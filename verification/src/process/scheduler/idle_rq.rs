//! The task of a processor that has nothing else to do, and where it looks for work.

use vstd::prelude::*;

verus! {

/// The idle task of a processor.
#[derive(Clone, Copy, Debug)]
pub struct IdleRq {
    pub idle: Option<u64>,
}

impl IdleRq {
    /// Starts without an idle task.
    pub fn new() -> (rq: Self)
        ensures
            rq.idle is None,
    {
        IdleRq { idle: None }
    }

    /// Sets the idle task.
    pub fn set_idle_task(&mut self, tid: u64)
        ensures
            final(self).idle == Some(tid),
    {
        self.idle = Some(tid);
    }

    /// Returns the idle task.
    pub fn pick_next(&self) -> (tid: Option<u64>)
        ensures
            tid == self.idle,
    {
        self.idle
    }
}

/// The first of the processors before `n` with the most tasks, but for `cpu`;
/// none where no other has a task.
pub open spec fn busiest(loads: Seq<u64>, cpu: int, n: int) -> Option<int>
    decreases n,
{
    if n <= 0 {
        None
    } else {
        let rest = busiest(loads, cpu, n - 1);
        let most = match rest {
            Some(i) => loads[i],
            None => 0,
        };
        if n - 1 != cpu && loads[n - 1] > most {
            Some(n - 1)
        } else {
            rest
        }
    }
}

/// Returns the processor to take a task from: another one with the most tasks.
pub fn busiest_cpu(loads: &Vec<u64>, cpu_id: usize) -> (from: Option<usize>)
    ensures
        match from {
            None => cpu_id >= loads@.len() || busiest(
                loads@,
                cpu_id as int,
                loads@.len() as int,
            ) is None,
            Some(i) => cpu_id < loads@.len() && busiest(
                loads@,
                cpu_id as int,
                loads@.len() as int,
            ) == Some(i as int),
        },
{
    if cpu_id >= loads.len() {
        return None;
    }
    let mut best: Option<usize> = None;
    let mut most: u64 = 0;
    let mut i: usize = 0;
    while i < loads.len()
        invariant
            i <= loads@.len(),
            match best {
                None => busiest(loads@, cpu_id as int, i as int) is None && most == 0,
                Some(k) => busiest(loads@, cpu_id as int, i as int) == Some(k as int) && k < i
                    && most == loads@[k as int],
            },
        decreases loads@.len() - i,
    {
        if i != cpu_id && loads[i] > most {
            most = loads[i];
            best = Some(i);
        }
        i = i + 1;
    }
    best
}

/// The processor that a task is taken from has tasks, is another one, and none has more.
pub proof fn law_busiest(loads: Seq<u64>, cpu: int, n: int, other: int)
    requires
        0 <= n <= loads.len(),
        0 <= other < n,
        other != cpu,
    ensures
        busiest(loads, cpu, n) matches Some(i) ==> 0 <= i < n && i != cpu && loads[i] > 0
            && loads[other] <= loads[i],
        busiest(loads, cpu, n) is None ==> loads[other] == 0,
    decreases n,
{
    if n > 0 {
        if other < n - 1 {
            law_busiest(loads, cpu, n - 1, other);
        } else {
            law_busiest_in(loads, cpu, n - 1);
        }
    }
}

/// The processor that a task is taken from is another one, and has tasks.
pub proof fn law_busiest_in(loads: Seq<u64>, cpu: int, n: int)
    requires
        0 <= n <= loads.len(),
    ensures
        busiest(loads, cpu, n) matches Some(i) ==> 0 <= i < n && i != cpu && loads[i] > 0,
    decreases n,
{
    if n > 0 {
        law_busiest_in(loads, cpu, n - 1);
    }
}

} // verus!
