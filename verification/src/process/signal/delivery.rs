//! Which signal a thread handles, and how.

use vstd::prelude::*;

use super::action::{SigHand, SignalAction, SA_NODEFER, SA_ONSTACK, SA_RESTART, SIG_DFL, SIG_IGN};
use super::flags::{
    covers, has_bit, law_lowest_signal, law_one_signal, lowest_bit, lowest_signal, SignalFlags,
    MAX_SIG, SIGKILL, UNMASKABLE,
};
use super::frame::{
    applied, no_alt_stack, FramePlace, SignalAltStack, SignalUserContext, TrapRegs, SS_AUTODISARM,
};
use super::state::{but_for, number_of, Signal, Sigpending};

verus! {

/// What a thread has of signals for itself.
pub struct TaskSignals {
    /// Signals that are held back.
    pub blocked: SignalFlags,
    pub pending: Sigpending,
    /// A wait was ended by a signal.
    pub signal_interrupted: bool,
    /// What is held back again once a wait for signals is over.
    pub sigsuspend_saved_mask: Option<SignalFlags>,
    pub signal_mask_backup: Vec<SignalFlags>,
    pub trap_ctx_backup: Vec<TrapRegs>,
    pub signal_user_context_backup: Vec<u64>,
    pub signal_alt_stack: SignalAltStack,
    /// The signal that ends the thread.
    pub term_signal: Option<i32>,
    pub frozen: bool,
}

/// The signals that wait for a thread and are not held back.
pub open spec fn deliverable(private: u64, shared: u64, blocked: u64) -> u64 {
    (private | shared) & !(blocked & !UNMASKABLE)
}

/// The default of a signal is to do nothing: a child has ended, there is urgent data,
/// a window has changed.
pub open spec fn ignored_by_default(sig: int) -> bool {
    sig == 16 || sig == 22 || sig == 27
}

/// A signal with the answer does nothing.
pub open spec fn is_ignored(action: SignalAction, sig: int) -> bool {
    action.handler == SIG_IGN || (action.handler == SIG_DFL && ignored_by_default(sig))
}

/// The lowest signal from `i` on that does something.
pub open spec fn first_effective(bits: u64, actions: Seq<SignalAction>, i: int) -> Option<int>
    decreases 64 - i,
{
    if i < 0 || i >= 64 {
        None
    } else if has_bit(bits, i) && !is_ignored(actions[i], i) {
        Some(i)
    } else {
        first_effective(bits, actions, i + 1)
    }
}

/// Finds the lowest signal that does something.
fn find_effective(bits: u64, hand: &SigHand) -> (sig: Option<usize>)
    ensures
        match sig {
            None => first_effective(bits, hand@, 0) is None,
            Some(i) => first_effective(bits, hand@, 0) == Some(i as int) && i < MAX_SIG,
        },
{
    let mut i: usize = 0;
    while i < 64
        invariant
            i <= 64,
            first_effective(bits, hand@, 0) == first_effective(bits, hand@, i as int),
        decreases 64 - i,
    {
        if bits & (1u64 << (i as u64)) != 0 {
            let action = hand.action(i);
            let ignored: bool = action.handler == SIG_IGN || (action.handler == SIG_DFL && (i == 16
                || i == 22 || i == 27));
            if !ignored {
                return Some(i);
            }
        }
        i = i + 1;
    }
    None
}

/// The answer to a signal, and what is to be done before.
#[derive(Clone, Copy, Debug, PartialEq, Eq, Structural)]
pub enum Delivery {
    /// The thread goes on.
    Done,
    /// A frame is to be written, with the mask; the other stack is asked for.
    Frame { saved_mask: SignalFlags, use_alt_stack: bool },
}

/// What is held back once the signal was taken: where the thread waited for signals,
/// what was before.
pub open spec fn mask_to_restore(ts: TaskSignals) -> SignalFlags {
    match ts.sigsuspend_saved_mask {
        Some(mask) => mask,
        None => ts.blocked,
    }
}

/// What is held back while a signal is handled.
pub open spec fn mask_while_handled(blocked: u64, action: SignalAction, flag: u64) -> u64 {
    let with = blocked | action.mask.bits;
    if action.flags & SA_NODEFER == 0 {
        with | flag
    } else {
        with
    }
}

/// A signal does not wait any more.
pub open spec fn taken_from(before: Sigpending, after: Sigpending, i: int, flag: u64) -> bool {
    &&& after.signals.bits == before.signals.bits & !flag
    &&& after.queue@ == but_for(before.queue@, (i + 1) as usize)
    &&& after.wait_chldexit == before.wait_chldexit
}

/// How a thread is after it started to handle a signal, and what comes next.
pub open spec fn handled(
    before: TaskSignals,
    sig: usize,
    action: SignalAction,
    regs: TrapRegs,
    after: TaskSignals,
    next: Delivery,
) -> bool {
    let saved = mask_to_restore(before);
    let waited = before.sigsuspend_saved_mask is Some;
    let flag = 1u64 << (sig as u64);
    &&& after.sigsuspend_saved_mask is None
    &&& after.pending == before.pending
    &&& after.signal_interrupted == before.signal_interrupted
    &&& after.signal_alt_stack == before.signal_alt_stack
    &&& after.signal_user_context_backup == before.signal_user_context_backup
    &&& if action.handler == SIG_IGN || action.handler == SIG_DFL {
        &&& next == Delivery::Done
        &&& after.blocked == saved
        &&& after.signal_mask_backup == before.signal_mask_backup
        &&& after.trap_ctx_backup == before.trap_ctx_backup
        &&& after.term_signal == if action.handler == SIG_DFL && ends_thread(
            sig as int,
        ) {
            Some((sig + 1) as i32)
        } else {
            before.term_signal
        }
        &&& after.frozen == if action.handler == SIG_DFL && sig == 18 {
            true
        } else if action.handler == SIG_DFL && sig == 17 {
            false
        } else {
            before.frozen
        }
    } else {
        &&& next == (Delivery::Frame {
            saved_mask: saved,
            use_alt_stack: action.flags & SA_ONSTACK != 0,
        })
        &&& after.blocked.bits == mask_while_handled(
            before.blocked.bits,
            action,
            flag,
        )
        &&& after.signal_mask_backup@ == before.signal_mask_backup@.push(saved)
        &&& after.trap_ctx_backup@ == before.trap_ctx_backup@.push(regs)
        &&& after.term_signal == before.term_signal
        &&& after.frozen == before.frozen
    }
}

/// How a thread and its process are after the next signal was taken out.
pub open spec fn picked(
    before: TaskSignals,
    group: Signal,
    after: TaskSignals,
    group_after: Signal,
    sig: Option<usize>,
) -> bool {
    let blocked = before.blocked.bits & !UNMASKABLE;
    let private = before.pending.signals.bits;
    let shared = group.shared_pending.signals.bits;
    let ready = (private | shared) & !blocked;
    &&& after.same_backups(&before)
    &&& after.signal_interrupted == before.signal_interrupted
    &&& after.term_signal == before.term_signal
    &&& after.frozen == before.frozen
    &&& group_after.same_group(&group)
    &&& match lowest_bit(ready, 0) {
        None => {
            &&& ready == 0
            &&& sig is None
            &&& after.blocked == match before.sigsuspend_saved_mask {
                Some(mask) => mask,
                None => SignalFlags { bits: blocked },
            }
            &&& after.sigsuspend_saved_mask is None
            &&& after.pending == before.pending
            &&& group_after == group
        },
        Some(i) => {
            let flag = 1u64 << (i as u64);
            &&& 0 <= i < 64
            &&& sig == Some(i as usize)
            &&& after.blocked.bits == blocked
            &&& after.sigsuspend_saved_mask == before.sigsuspend_saved_mask
            &&& if covers(private, flag) {
                &&& taken_from(before.pending, after.pending, i, flag)
                &&& group_after == group
            } else {
                &&& after.pending == before.pending
                &&& taken_from(
                    group.shared_pending,
                    group_after.shared_pending,
                    i,
                    flag,
                )
            }
        },
    }
}

/// How a thread is after the frame of a signal was to be written, and its registers.
pub open spec fn entered(
    before: TaskSignals,
    regs: TrapRegs,
    sig: usize,
    handler: u64,
    return_address: u64,
    info_size: u64,
    place: Option<FramePlace>,
    after: TaskSignals,
    regs_after: TrapRegs,
) -> bool {
    &&& after.blocked == before.blocked
    &&& after.pending == before.pending
    &&& after.signal_interrupted == before.signal_interrupted
    &&& after.sigsuspend_saved_mask == before.sigsuspend_saved_mask
    &&& after.signal_mask_backup == before.signal_mask_backup
    &&& after.trap_ctx_backup == before.trap_ctx_backup
    &&& after.frozen == before.frozen
    &&& match place {
        None => {
            &&& after.term_signal == Some((sig + 1) as i32)
            &&& after.signal_user_context_backup == before.signal_user_context_backup
            &&& after.signal_alt_stack == before.signal_alt_stack
            &&& regs_after == regs
        },
        Some(p) => {
            &&& after.term_signal == before.term_signal
            &&& after.signal_user_context_backup@ == before.signal_user_context_backup@.push((p.frame_sp + info_size) as u64)
            &&& after.signal_alt_stack == if p.switching && before.signal_alt_stack.ss_flags & SS_AUTODISARM != 0 {
                no_alt_stack()
            } else {
                before.signal_alt_stack
            }
            &&& regs_after.pc == handler
            &&& regs_after.x@ == regs.x@.update(10, (sig + 1) as u64).update(
                11,
                p.frame_sp,
            ).update(12, (p.frame_sp + info_size) as u64).update(2, p.frame_sp).update(
                1,
                return_address,
            )
        },
    }
}

/// How a thread is after what was put aside last was taken back.
pub open spec fn taken_back(
    before: TaskSignals,
    after: TaskSignals,
    kept: Option<(u64, TrapRegs)>,
) -> bool {
    &&& {
        let c = before.signal_user_context_backup@;
        let m = before.signal_mask_backup@;
        let t = before.trap_ctx_backup@;
        &&& kept is Some <==> c.len() > 0 && m.len() > 0 && t.len() > 0
        &&& kept is Some ==> kept == Some((c.last(), t.last()))
        &&& after.signal_user_context_backup@ == if c.len() > 0 {
            c.drop_last()
        } else {
            c
        }
        &&& after.signal_mask_backup@ == if c.len() > 0 && m.len() > 0 {
            m.drop_last()
        } else {
            m
        }
        &&& after.trap_ctx_backup@ == if kept is Some {
            t.drop_last()
        } else {
            t
        }
        &&& after == (TaskSignals {
            signal_user_context_backup: after.signal_user_context_backup,
            signal_mask_backup: after.signal_mask_backup,
            trap_ctx_backup: after.trap_ctx_backup,
            ..before
        })
    }
}

/// How a thread goes on after a handler.
pub open spec fn gone_on(
    before: TaskSignals,
    context: SignalUserContext,
    after: TaskSignals,
    regs: TrapRegs,
    a0: u64,
) -> bool {
    &&& applied(context, regs)
    &&& a0 == regs.x@[10]
    &&& after == (TaskSignals {
        blocked: SignalFlags { bits: context.uc_sigmask@[0] },
        signal_alt_stack: context.uc_stack,
        ..before
    })
}

impl TaskSignals {
    /// Starts without signals.
    pub fn new() -> (ts: Self)
        ensures
            ts.blocked.bits == 0,
            ts.pending.signals.bits == 0,
            ts.pending.queue@.len() == 0,
            !ts.pending.wait_chldexit,
            ts.is_idle(),
            ts.signal_alt_stack == no_alt_stack(),
    {
        TaskSignals {
            blocked: SignalFlags::empty(),
            pending: Sigpending::new(),
            signal_interrupted: false,
            sigsuspend_saved_mask: None,
            signal_mask_backup: Vec::new(),
            trap_ctx_backup: Vec::new(),
            signal_user_context_backup: Vec::new(),
            signal_alt_stack: SignalAltStack::default(),
            term_signal: None,
            frozen: false,
        }
    }

    /// No signal is being handled.
    pub open spec fn is_idle(&self) -> bool {
        &&& !self.signal_interrupted
        &&& self.sigsuspend_saved_mask is None
        &&& self.signal_mask_backup@.len() == 0
        &&& self.trap_ctx_backup@.len() == 0
        &&& self.signal_user_context_backup@.len() == 0
        &&& self.term_signal is None
        &&& !self.frozen
    }

    /// What is kept of signals that are being handled is the same.
    pub open spec fn same_backups(&self, other: &TaskSignals) -> bool {
        &&& self.signal_mask_backup == other.signal_mask_backup
        &&& self.trap_ctx_backup == other.trap_ctx_backup
        &&& self.signal_user_context_backup == other.signal_user_context_backup
        &&& self.signal_alt_stack == other.signal_alt_stack
    }

    /// Tells whether the thread is to be killed.
    pub fn has_pending_sigkill(&self, group: &Signal) -> (yes: bool)
        ensures
            yes == (covers(self.pending.signals.bits, SIGKILL) || covers(
                group.shared_pending.signals.bits,
                SIGKILL,
            )),
    {
        let kill = SignalFlags { bits: SIGKILL };
        self.pending.contains(kill) || group.pending_flags().contains(kill)
    }

    /// Sends the thread a signal.
    pub fn current_add_signal(&mut self, signal: SignalFlags)
        ensures
            final(self).pending.signals.bits == old(self).pending.signals.bits | signal.bits,
            final(self).pending.queue@ == match number_of(signal.bits) {
                None => old(self).pending.queue@,
                Some(n) => old(self).pending.queue@.push(n),
            },
            final(self).same_backups(old(self)),
            final(self).blocked == old(self).blocked,
            final(self).signal_interrupted == old(self).signal_interrupted,
            final(self).sigsuspend_saved_mask == old(self).sigsuspend_saved_mask,
            final(self).term_signal == old(self).term_signal,
            final(self).frozen == old(self).frozen,
    {
        self.pending.insert(signal);
    }

    /// Notes that a signal ended a wait.
    pub fn mark_signal_interrupted(&mut self)
        ensures
            *final(self) == (TaskSignals { signal_interrupted: true, ..*old(self) }),
    {
        self.signal_interrupted = true;
    }

    /// Tells whether a signal ended a wait, and forgets it.
    pub fn take_current_signal_interrupted(&mut self) -> (interrupted: bool)
        ensures
            interrupted == old(self).signal_interrupted,
            *final(self) == (TaskSignals { signal_interrupted: false, ..*old(self) }),
    {
        let interrupted: bool = self.signal_interrupted;
        self.signal_interrupted = false;
        interrupted
    }

    /// Returns the signals that wait and are not held back.
    pub fn get_pending_signals(&self, group: &Signal) -> (flags: SignalFlags)
        ensures
            flags.bits == deliverable(
                self.pending.signals.bits,
                group.shared_pending.signals.bits,
                self.blocked.bits,
            ),
    {
        let raw: u64 = self.pending.signals.bits | group.pending_flags().bits;
        SignalFlags { bits: raw & !(self.blocked.bits & !UNMASKABLE) }
    }

    /// Tells whether a signal waits that does something.
    pub fn check_pending_signal(&self, group: &Signal, hand: &SigHand) -> (yes: bool)
        ensures
            yes == (first_effective(
                deliverable(
                    self.pending.signals.bits,
                    group.shared_pending.signals.bits,
                    self.blocked.bits,
                ),
                hand@,
                0,
            ) is Some),
    {
        let pending = self.get_pending_signals(group);
        find_effective(pending.bits, hand).is_some()
    }

    /// Tells whether the first signal that does something lets an interrupted call start over.
    pub fn pending_signal_should_restart(&self, group: &Signal, hand: &SigHand) -> (yes: bool)
        ensures
            yes == match first_effective(
                deliverable(
                    self.pending.signals.bits,
                    group.shared_pending.signals.bits,
                    self.blocked.bits,
                ),
                hand@,
                0,
            ) {
                None => false,
                Some(i) => hand@[i].handler != SIG_DFL && hand@[i].flags & SA_RESTART != 0,
            },
    {
        let pending = self.get_pending_signals(group);
        match find_effective(pending.bits, hand) {
            None => false,
            Some(i) => {
                let action = hand.action(i);
                action.handler != SIG_DFL && action.flags & SA_RESTART != 0
            },
        }
    }

    /// Takes the signal out that is handled now: the lowest that is not held back.
    /// One that was sent to the thread goes before one that was sent to the process.
    pub fn handle_signals(&mut self, group: &mut Signal) -> (sig: Option<usize>)
        ensures
            picked(*old(self), *old(group), *final(self), *final(group), sig),
    {
        self.blocked.remove(SignalFlags { bits: UNMASKABLE });
        let private = self.pending.flags();
        let shared = group.pending_flags();
        let ready: u64 = (private.bits | shared.bits) & !self.blocked.bits;
        proof {
            law_lowest_signal(ready, 0);
        }
        match lowest_signal(ready) {
            None => {
                if let Some(mask) = self.sigsuspend_saved_mask {
                    self.blocked = mask;
                }
                self.sigsuspend_saved_mask = None;
                None
            },
            Some(i) => {
                let flag = SignalFlags { bits: 1u64 << (i as u64) };
                proof {
                    law_one_signal(i as int);
                }
                if private.contains(flag) {
                    self.pending.remove(flag);
                } else {
                    group.remove_pending(flag);
                }
                Some(i)
            },
        }
    }

    /// Starts to handle a signal. One without a function does what it usually does;
    /// for one with a function, the registers and the mask are kept.
    pub fn call_signal_handler(&mut self, sig: usize, action: SignalAction, regs: TrapRegs) -> (next:
        Delivery)
        requires
            sig < MAX_SIG,
        ensures
            handled(*old(self), sig, action, regs, *final(self), next),
    {
        let (saved_mask, waited) = match self.sigsuspend_saved_mask {
            Some(mask) => (mask, true),
            None => (self.blocked, false),
        };
        self.sigsuspend_saved_mask = None;
        if action.handler == SIG_IGN {
            if waited {
                self.blocked = saved_mask;
            }
            return Delivery::Done;
        }
        if action.handler != SIG_DFL {
            self.signal_mask_backup.push(saved_mask);
            self.blocked.insert(action.mask);
            if action.flags & SA_NODEFER == 0 {
                self.blocked.insert(SignalFlags { bits: 1u64 << (sig as u64) });
            }
            self.trap_ctx_backup.push(regs);
            return Delivery::Frame { saved_mask, use_alt_stack: action.flags & SA_ONSTACK != 0 };
        }
        if sig == 16 || sig == 22 || sig == 27 {
        } else if sig == 18 {
            self.frozen = true;
        } else if sig == 17 {
            self.frozen = false;
        } else {
            self.term_signal = Some(sig as i32 + 1);
        }
        if waited {
            self.blocked = saved_mask;
        }
        Delivery::Done
    }

    /// Goes on after the frame of a signal was to be written: the program is taken to the
    /// function of the signal, or the thread ends where there was no place.
    pub fn frame_written(
        &mut self,
        sig: usize,
        handler: u64,
        return_address: u64,
        info_size: u64,
        place: Option<FramePlace>,
        regs: &mut TrapRegs,
    )
        requires
            sig < MAX_SIG,
            place matches Some(p) ==> p.frame_sp + info_size <= u64::MAX,
        ensures
            entered(
                *old(self),
                *old(regs),
                sig,
                handler,
                return_address,
                info_size,
                place,
                *final(self),
                *final(regs),
            ),
    {
        match place {
            None => {
                self.term_signal = Some(sig as i32 + 1);
            },
            Some(p) => {
                let context: u64 = p.frame_sp + info_size;
                self.signal_user_context_backup.push(context);
                if p.switching && self.signal_alt_stack.is_autodisarm() {
                    self.signal_alt_stack = SignalAltStack::default();
                }
                let mut x: [u64; 32] = regs.x;
                x[10] = sig as u64 + 1;
                x[11] = p.frame_sp;
                x[12] = context;
                x[2] = p.frame_sp;
                x[1] = return_address;
                *regs = TrapRegs { x, pc: handler };
            },
        }
    }

    /// Takes what was kept of the signal that was handled last: where its context is,
    /// and the registers.
    pub fn begin_restore(&mut self) -> (kept: Option<(u64, TrapRegs)>)
        ensures
            taken_back(*old(self), *final(self), kept),
    {
        let context: u64 = match self.signal_user_context_backup.pop() {
            None => {
                return None;
            },
            Some(context) => context,
        };
        if self.signal_mask_backup.pop().is_none() {
            return None;
        }
        match self.trap_ctx_backup.pop() {
            None => None,
            Some(regs) => Some((context, regs)),
        }
    }

    /// Goes on where the program was before the signal, as its context says.
    pub fn finish_restore(&mut self, context: &SignalUserContext, regs: &mut TrapRegs) -> (a0: u64)
        ensures
            gone_on(*old(self), *context, *final(self), *final(regs), a0),
    {
        context.apply_to_trap_ctx(regs);
        self.blocked = SignalFlags { bits: context.uc_sigmask[0] };
        self.signal_alt_stack = context.ucontext_stack();
        regs.x[10]
    }
}

/// A signal without a function ends the thread, but for some.
pub open spec fn ends_thread(sig: int) -> bool {
    !ignored_by_default(sig) && sig != 18 && sig != 17
}

/// The signals that kill and stop cannot be held back.
pub proof fn law_cannot_be_masked(private: u64, shared: u64, blocked: u64, sig: int)
    requires
        sig == 8 || sig == 18,
        has_bit(private, sig) || has_bit(shared, sig),
    ensures
        has_bit(deliverable(private, shared, blocked), sig),
{
    if sig == 8 {
        assert(private & (1u64 << 8u64) != 0 || shared & (1u64 << 8u64) != 0 ==> ((private | shared)
            & !(blocked & !0x4_0100u64)) & (1u64 << 8u64) != 0) by (bit_vector);
    } else {
        assert(private & (1u64 << 18u64) != 0 || shared & (1u64 << 18u64) != 0 ==> ((private
            | shared) & !(blocked & !0x4_0100u64)) & (1u64 << 18u64) != 0) by (bit_vector);
    }
}

/// A signal that is held back is not handled, but for those that cannot be.
pub proof fn law_masked_is_not_delivered(private: u64, shared: u64, blocked: u64, sig: int)
    requires
        0 <= sig < 64,
        sig != 8,
        sig != 18,
        has_bit(blocked, sig),
    ensures
        !has_bit(deliverable(private, shared, blocked), sig),
{
    let k = sig as u64;
    assert(((private | shared) & !(blocked & !0x4_0100u64)) & (1u64 << k) == 0) by (bit_vector)
        requires
            k < 64,
            k != 8,
            k != 18,
            blocked & (1u64 << k) != 0,
    ;
}

/// While a signal is handled it does not arrive again, unless it was asked for.
pub proof fn law_handled_signal_is_masked(blocked: u64, action: SignalAction, sig: int)
    requires
        0 <= sig < 64,
        action.flags & SA_NODEFER == 0,
    ensures
        has_bit(mask_while_handled(blocked, action, 1u64 << (sig as u64)), sig),
        covers(mask_while_handled(blocked, action, 1u64 << (sig as u64)), blocked),
{
    let k = sig as u64;
    let m = action.mask.bits;
    assert(k < 64 ==> ((blocked | m) | (1u64 << k)) & (1u64 << k) != 0) by (bit_vector);
    assert(((blocked | m) | (1u64 << k)) & blocked == blocked) by (bit_vector);
}

} // verus!
