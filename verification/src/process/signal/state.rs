//! Signals that wait to be handled.

use vstd::prelude::*;

use super::flags::{covers, lowest_bit, SignalFlags};
use crate::process::task::limits::{initial_limits, Rlimits};

verus! {

/// The signals that wait, as a set and in the order they came.
pub struct Sigpending {
    pub queue: Vec<usize>,
    pub signals: SignalFlags,
    pub wait_chldexit: bool,
}

/// Tells numbers from one.
pub open spec fn other_than(number: usize) -> spec_fn(usize) -> bool {
    |n: usize| n != number
}

/// The numbers but for one.
pub open spec fn but_for(s: Seq<usize>, number: usize) -> Seq<usize> {
    s.filter(other_than(number))
}

/// The number of the lowest signal of a set.
pub open spec fn number_of(bits: u64) -> Option<usize> {
    match lowest_bit(bits, 0) {
        None => None,
        Some(i) => Some((i + 1) as usize),
    }
}

/// Returns the numbers but for one.
fn retain_others(queue: &Vec<usize>, number: usize) -> (kept: Vec<usize>)
    ensures
        kept@ == but_for(queue@, number),
{
    let ghost other = other_than(number);
    let mut kept: Vec<usize> = Vec::new();
    let mut i: usize = 0;
    assert(queue@.take(0) =~= Seq::<usize>::empty());
    assert(queue@.take(0).filter(other) =~= Seq::<usize>::empty()) by {
        reveal(Seq::filter);
    }
    while i < queue.len()
        invariant
            i <= queue@.len(),
            other == other_than(number),
            kept@ == queue@.take(i as int).filter(other),
        decreases queue@.len() - i,
    {
        proof {
            reveal(Seq::filter);
            assert(queue@.take(i + 1).drop_last() =~= queue@.take(i as int));
        }
        let n: usize = queue[i];
        if n != number {
            kept.push(n);
        }
        i = i + 1;
    }
    assert(queue@.take(queue@.len() as int) =~= queue@);
    kept
}

impl Sigpending {
    /// Starts without signals.
    pub fn new() -> (pending: Self)
        ensures
            pending.queue@.len() == 0,
            pending.signals.bits == 0,
            !pending.wait_chldexit,
    {
        Sigpending { queue: Vec::new(), signals: SignalFlags::empty(), wait_chldexit: false }
    }

    /// Adds a signal.
    pub fn insert(&mut self, signal: SignalFlags)
        ensures
            final(self).signals.bits == old(self).signals.bits | signal.bits,
            final(self).queue@ == match number_of(signal.bits) {
                None => old(self).queue@,
                Some(n) => old(self).queue@.push(n),
            },
            final(self).wait_chldexit == old(self).wait_chldexit,
    {
        self.signals.insert(signal);
        if let Some(n) = signal.number() {
            self.queue.push(n);
        }
    }

    /// Returns the signals as bits.
    pub fn bits(&self) -> (bits: u64)
        ensures
            bits == self.signals.bits,
    {
        self.signals.bits
    }

    /// Tells whether a signal waits.
    pub fn contains(&self, signal: SignalFlags) -> (yes: bool)
        ensures
            yes == covers(self.signals.bits, signal.bits),
    {
        self.signals.contains(signal)
    }

    /// Takes a signal out, however often it came.
    pub fn remove(&mut self, signal: SignalFlags)
        ensures
            final(self).signals.bits == old(self).signals.bits & !signal.bits,
            final(self).queue@ == match number_of(signal.bits) {
                None => old(self).queue@,
                Some(n) => but_for(old(self).queue@, n),
            },
            final(self).wait_chldexit == old(self).wait_chldexit,
    {
        self.signals.remove(signal);
        if let Some(n) = signal.number() {
            self.queue = retain_others(&self.queue, n);
        }
    }

    /// Returns the signals.
    pub fn flags(&self) -> (flags: SignalFlags)
        ensures
            flags == self.signals,
    {
        self.signals
    }
}

/// What the threads of a process share: signals sent to the process, and its limits.
pub struct Signal {
    pub shared_pending: Sigpending,
    pub group_exit_state: i32,
    pub thread_num: usize,
    pub next_thread: Option<u64>,
    pub rlimits: Rlimits,
}

impl Signal {
    /// A process with one thread and no signals.
    pub open spec fn is_fresh(&self, limits: Rlimits) -> bool {
        &&& self.shared_pending.queue@.len() == 0
        &&& self.shared_pending.signals.bits == 0
        &&& !self.shared_pending.wait_chldexit
        &&& self.group_exit_state == 0
        &&& self.thread_num == 1
        &&& self.next_thread is None
        &&& self.rlimits == limits
    }

    /// Starts with one thread and the usual limits.
    pub fn new() -> (signal: Self)
        ensures
            signal.is_fresh(initial_limits()),
    {
        Signal {
            shared_pending: Sigpending::new(),
            group_exit_state: 0,
            thread_num: 1,
            next_thread: None,
            rlimits: Rlimits::new(),
        }
    }

    /// Starts with one thread and the limits of another process.
    pub fn fork_from(parent: &Self) -> (signal: Self)
        ensures
            signal.is_fresh(parent.rlimits),
    {
        Signal {
            shared_pending: Sigpending::new(),
            group_exit_state: 0,
            thread_num: 1,
            next_thread: None,
            rlimits: parent.rlimits,
        }
    }

    /// Counts a thread.
    pub fn add_thread(&mut self)
        requires
            old(self).thread_num < usize::MAX,
        ensures
            *final(self) == (Signal {
                thread_num: (old(self).thread_num + 1) as usize,
                ..*old(self)
            }),
    {
        self.thread_num = self.thread_num + 1;
    }

    /// Adds a signal to the process.
    pub fn insert_pending(&mut self, signal: SignalFlags)
        ensures
            final(self).shared_pending.signals.bits == old(self).shared_pending.signals.bits
                | signal.bits,
            final(self).shared_pending.queue@ == match number_of(signal.bits) {
                None => old(self).shared_pending.queue@,
                Some(n) => old(self).shared_pending.queue@.push(n),
            },
            final(self).same_group(old(self)),
    {
        self.shared_pending.insert(signal);
    }

    /// Nothing but the signals that wait may differ.
    pub open spec fn same_group(&self, other: &Signal) -> bool {
        &&& self.shared_pending.wait_chldexit == other.shared_pending.wait_chldexit
        &&& self.group_exit_state == other.group_exit_state
        &&& self.thread_num == other.thread_num
        &&& self.next_thread == other.next_thread
        &&& self.rlimits == other.rlimits
    }

    /// Returns the signals that wait for the process.
    pub fn pending_flags(&self) -> (flags: SignalFlags)
        ensures
            flags == self.shared_pending.signals,
    {
        self.shared_pending.signals
    }

    /// Takes a signal of the process out.
    pub fn remove_pending(&mut self, signal: SignalFlags)
        ensures
            final(self).shared_pending.signals.bits == old(self).shared_pending.signals.bits
                & !signal.bits,
            final(self).shared_pending.queue@ == match number_of(signal.bits) {
                None => old(self).shared_pending.queue@,
                Some(n) => but_for(old(self).shared_pending.queue@, n),
            },
            final(self).same_group(old(self)),
    {
        self.shared_pending.remove(signal);
    }

    /// Returns the limits.
    pub fn rlimits(&self) -> (limits: &Rlimits)
        ensures
            *limits == self.rlimits,
    {
        &self.rlimits
    }

    /// Changes the limits.
    pub fn set_rlimits(&mut self, limits: Rlimits)
        ensures
            *final(self) == (Signal { rlimits: limits, ..*old(self) }),
    {
        self.rlimits = limits;
    }
}

} // verus!
