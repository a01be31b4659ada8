//! What a process does when a signal arrives.

use vstd::prelude::*;

use super::flags::{SignalFlags, MAX_SIG};

verus! {

/// The signal does what it usually does.
pub const SIG_DFL: u64 = 0;

/// The signal does nothing.
pub const SIG_IGN: u64 = 1;

/// A signal may arrive again while it is handled.
pub const SA_NODEFER: u64 = 0x4000_0000;

/// The signal is handled on the other stack.
pub const SA_ONSTACK: u64 = 0x0800_0000;

/// A call that was interrupted starts over.
pub const SA_RESTART: u64 = 0x1000_0000;

/// The answer to a signal: where its function is, how it is called,
/// and which other signals are held back meanwhile.
#[derive(Clone, Copy, Debug, PartialEq, Eq, Structural)]
pub struct SignalAction {
    pub handler: u64,
    pub flags: u64,
    pub mask: SignalFlags,
}

/// The usual answer.
pub open spec fn default_action() -> SignalAction {
    SignalAction { handler: 0, flags: 0, mask: SignalFlags { bits: 0 } }
}

impl Default for SignalAction {
    fn default() -> (action: Self)
        ensures
            action == default_action(),
    {
        SignalAction { handler: 0, flags: 0, mask: SignalFlags::empty() }
    }
}

/// The answers to all signals.
#[derive(Clone, Copy)]
pub struct SignalActions {
    pub table: [SignalAction; 64],
}

impl SignalActions {
    /// Starts with the usual answers.
    pub fn new() -> (actions: Self)
        ensures
            forall|i: int| 0 <= i < 64 ==> #[trigger] actions.table@[i] == default_action(),
    {
        let usual = SignalAction { handler: 0, flags: 0, mask: SignalFlags::empty() };
        SignalActions { table: [usual;64] }
    }
}

/// The answers to signals that the threads of a process share.
#[derive(Clone, Copy)]
pub struct SigHand {
    sig_actions: SignalActions,
}

impl View for SigHand {
    type V = Seq<SignalAction>;

    closed spec fn view(&self) -> Seq<SignalAction> {
        self.sig_actions.table@
    }
}

impl SigHand {
    /// Starts with the usual answers.
    pub fn new() -> (hand: Self)
        ensures
            hand@.len() == MAX_SIG,
            forall|i: int| 0 <= i < MAX_SIG ==> #[trigger] hand@[i] == default_action(),
    {
        SigHand { sig_actions: SignalActions::new() }
    }

    /// Returns the answer to a signal.
    pub fn action(&self, signal_index: usize) -> (action: SignalAction)
        requires
            signal_index < MAX_SIG,
        ensures
            action == self@[signal_index as int],
            self@.len() == MAX_SIG,
    {
        self.sig_actions.table[signal_index]
    }

    /// Changes the answer to a signal.
    pub fn set_action(&mut self, signal_index: usize, action: SignalAction)
        requires
            signal_index < MAX_SIG,
        ensures
            final(self)@ == old(self)@.update(signal_index as int, action),
    {
        self.sig_actions.table[signal_index] = action;
    }
}

} // verus!
