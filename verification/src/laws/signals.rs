//! What becomes of a signal: when it is taken, and what it does.

use vstd::prelude::*;

use crate::process::signal::action::SignalAction;
use crate::process::signal::delivery::{
    deliverable, entered, first_effective, gone_on, handled, picked, taken_back, Delivery,
    TaskSignals,
};
use crate::process::signal::flags::{
    error_code, is_error, lowest_bit, SIGABRT, SIGALRM, SIGBUS, SIGCHLD, SIGCONT, SIGFPE, SIGHUP,
    SIGILL, SIGINT, SIGIO, SIGKILL, SIGPIPE, SIGPROF, SIGPWR, SIGQUIT, SIGSEGV, SIGSTKFLT, SIGSTOP,
    SIGSYS, SIGTERM, SIGTRAP, SIGTSTP, SIGTTIN, SIGTTOU, SIGURG, SIGUSR1, SIGUSR2, SIGVTALRM,
    SIGWINCH, SIGXCPU, SIGXFSZ, UNMASKABLE,
};
use crate::process::signal::frame::{
    applied, captured, frame_place, stack_status, FramePlace, SignalAltStack, SignalUserContext,
    TrapRegs,
};
use crate::process::signal::state::{number_of, Signal};

verus! {

/// Bits of a union, of a difference, and of one signal.
pub proof fn lemma_bits(a: u64, b: u64, s: u64, k: u64)
    requires
        k < 64,
        s < 64,
    ensures
        (a | b) & (1u64 << k) != 0 <==> a & (1u64 << k) != 0 || b & (1u64 << k) != 0,
        (a & !b) & (1u64 << k) != 0 <==> a & (1u64 << k) != 0 && b & (1u64 << k) == 0,
        (1u64 << s) & (1u64 << k) != 0 <==> s == k,
        0x4_0100u64 & (1u64 << k) != 0 <==> k == 8 || k == 18,
        a & (1u64 << k) == (1u64 << k) <==> a & (1u64 << k) != 0,
{
    assert((a | b) & (1u64 << k) != 0 <==> a & (1u64 << k) != 0 || b & (1u64 << k) != 0)
        by (bit_vector);
    assert((a & !b) & (1u64 << k) != 0 <==> a & (1u64 << k) != 0 && b & (1u64 << k) == 0)
        by (bit_vector);
    assert((1u64 << s) & (1u64 << k) != 0 <==> s == k) by (bit_vector)
        requires
            k < 64,
            s < 64,
    ;
    assert(0x4_0100u64 & (1u64 << k) != 0 <==> k == 8 || k == 18) by (bit_vector)
        requires
            k < 64,
    ;
    assert(a & (1u64 << k) == (1u64 << k) <==> a & (1u64 << k) != 0) by (bit_vector)
        requires
            k < 64,
    ;
}

/// A signal that the program has given no answer to ends the thread, unless its number (counted
/// from zero) is one of five: 16, 22 and 27 do nothing, 18 stops the thread, and 17 lets it go on.
pub proof fn law_usual_answer(
    before: TaskSignals,
    sig: usize,
    action: SignalAction,
    regs: TrapRegs,
    after: TaskSignals,
    next: Delivery,
)
    requires
        sig < 64,
        handled(before, sig, action, regs, after, next),
        action.handler == 0,
    ensures
        next == Delivery::Done,
        sig != 16 && sig != 22 && sig != 27 && sig != 18 && sig != 17 ==> after.term_signal == Some(
            (sig + 1) as i32,
        ) && after.frozen == before.frozen,
        sig == 16 || sig == 22 || sig == 27 ==> after.term_signal == before.term_signal
            && after.frozen == before.frozen,
        sig == 18 ==> after.frozen && after.term_signal == before.term_signal,
        sig == 17 ==> !after.frozen && after.term_signal == before.term_signal,
{
}

/// A signal that the program wants nothing of does nothing.
pub proof fn law_unwanted_signal(
    before: TaskSignals,
    sig: usize,
    action: SignalAction,
    regs: TrapRegs,
    after: TaskSignals,
    next: Delivery,
)
    requires
        sig < 64,
        handled(before, sig, action, regs, after, next),
        action.handler == 1,
    ensures
        next == Delivery::Done,
        after.term_signal == before.term_signal,
        after.frozen == before.frozen,
{
}

/// Without a handler no frame is written and nothing is put aside. A thread that waited for
/// signals holds back again what it held back before it waited.
pub proof fn law_without_handler(
    before: TaskSignals,
    sig: usize,
    action: SignalAction,
    regs: TrapRegs,
    after: TaskSignals,
    next: Delivery,
)
    requires
        sig < 64,
        handled(before, sig, action, regs, after, next),
        action.handler == 0 || action.handler == 1,
    ensures
        next == Delivery::Done,
        before.sigsuspend_saved_mask matches Some(mask) ==> after.blocked == mask,
        before.sigsuspend_saved_mask is None ==> after.blocked == before.blocked,
        after.sigsuspend_saved_mask is None,
        after.pending == before.pending,
        after.signal_mask_backup == before.signal_mask_backup,
        after.trap_ctx_backup == before.trap_ctx_backup,
        after.signal_user_context_backup == before.signal_user_context_backup,
{
}

/// A handler is entered by a frame, with the thread going on otherwise. While it runs, what was
/// held back still is, and what the answer names; the signal itself too, unless bit 0x4000_0000
/// of the answer says that it may come again. The other stack is asked for by bit 0x0800_0000.
/// What comes back later is the mask that holds without the handler, and the registers.
pub proof fn law_handler(
    before: TaskSignals,
    sig: usize,
    action: SignalAction,
    regs: TrapRegs,
    after: TaskSignals,
    next: Delivery,
    k: u64,
)
    requires
        sig < 64,
        handled(before, sig, action, regs, after, next),
        action.handler > 1,
        k < 64,
    ensures
        next matches Delivery::Frame { saved_mask, use_alt_stack } && {
            &&& before.sigsuspend_saved_mask matches Some(mask) ==> saved_mask == mask
            &&& before.sigsuspend_saved_mask is None ==> saved_mask == before.blocked
            &&& use_alt_stack <==> action.flags & 0x0800_0000 != 0
            &&& after.signal_mask_backup@ == before.signal_mask_backup@.push(saved_mask)
        },
        after.trap_ctx_backup@ == before.trap_ctx_backup@.push(regs),
        after.term_signal == before.term_signal,
        after.frozen == before.frozen,
        after.pending == before.pending,
        after.blocked.bits & (1u64 << k) != 0 <==> {
            ||| before.blocked.bits & (1u64 << k) != 0
            ||| action.mask.bits & (1u64 << k) != 0
            ||| k == sig && action.flags & 0x4000_0000 == 0
        },
{
    let flag = 1u64 << (sig as u64);
    lemma_bits(before.blocked.bits, action.mask.bits, sig as u64, k);
    lemma_bits(before.blocked.bits | action.mask.bits, flag, sig as u64, k);
}

/// A signal is ready for a thread where it waits for the thread or for its process and is not
/// held back; 8 and 18 cannot be held back.
pub proof fn law_ready_signals(private: u64, shared: u64, blocked: u64, k: u64)
    requires
        k < 64,
    ensures
        deliverable(private, shared, blocked) & (1u64 << k) != 0 <==> {
            &&& private & (1u64 << k) != 0 || shared & (1u64 << k) != 0
            &&& blocked & (1u64 << k) == 0 || k == 8 || k == 18
        },
{
    lemma_bits(private, shared, k, k);
    lemma_bits(blocked, 0x4_0100, k, k);
    lemma_bits(private | shared, blocked & !0x4_0100u64, k, k);
}

/// Where the search for a signal that does something ends.
pub proof fn lemma_effective(bits: u64, actions: Seq<SignalAction>, i: int)
    requires
        0 <= i <= 64,
    ensures
        match first_effective(bits, actions, i) {
            Some(k) => {
                &&& i <= k < 64
                &&& bits & (1u64 << (k as u64)) != 0
                &&& actions[k].handler != 1
                &&& actions[k].handler == 0 ==> k != 16 && k != 22 && k != 27
                &&& forall|j: int|
                    i <= j < k && bits & (1u64 << (j as u64)) != 0 ==> {
                        ||| (#[trigger] actions[j]).handler == 1
                        ||| actions[j].handler == 0 && (j == 16 || j == 22 || j == 27)
                    }
            },
            None => forall|j: int|
                i <= j < 64 && bits & (1u64 << (j as u64)) != 0 ==> {
                    ||| (#[trigger] actions[j]).handler == 1
                    ||| actions[j].handler == 0 && (j == 16 || j == 22 || j == 27)
                },
        },
    decreases 64 - i,
{
    if i < 64 {
        lemma_effective(bits, actions, i + 1);
    }
}

/// A wait is ended by the lowest ready signal that does something, and by none where each ready
/// signal does nothing: the program wants nothing of it, or has given no answer to 16, 22 or 27.
pub proof fn law_signal_that_does_something(bits: u64, actions: Seq<SignalAction>)
    ensures
        match first_effective(bits, actions, 0) {
            Some(k) => {
                &&& 0 <= k < 64
                &&& bits & (1u64 << (k as u64)) != 0
                &&& actions[k].handler != 1
                &&& actions[k].handler == 0 ==> k != 16 && k != 22 && k != 27
                &&& forall|j: int|
                    0 <= j < k && bits & (1u64 << (j as u64)) != 0 ==> {
                        ||| (#[trigger] actions[j]).handler == 1
                        ||| actions[j].handler == 0 && (j == 16 || j == 22 || j == 27)
                    }
            },
            None => forall|j: int|
                0 <= j < 64 && bits & (1u64 << (j as u64)) != 0 ==> {
                    ||| (#[trigger] actions[j]).handler == 1
                    ||| actions[j].handler == 0 && (j == 16 || j == 22 || j == 27)
                },
        },
{
    lemma_effective(bits, actions, 0);
}

/// A signal that ends a wait and has no handler ends the thread, stops it, or lets it go on.
pub proof fn law_waking_signal_has_an_effect(
    bits: u64,
    actions: Seq<SignalAction>,
    before: TaskSignals,
    sig: usize,
    regs: TrapRegs,
    after: TaskSignals,
    next: Delivery,
)
    requires
        first_effective(bits, actions, 0) == Some(sig as int),
        handled(before, sig, actions[sig as int], regs, after, next),
    ensures
        actions[sig as int].handler == 0 ==> {
            ||| after.term_signal == Some((sig + 1) as i32)
            ||| sig == 18 && after.frozen
            ||| sig == 17 && !after.frozen
        },
        actions[sig as int].handler != 0 ==> next is Frame,
{
    lemma_effective(bits, actions, 0);
}

/// The lowest bit that is set, from a place on.
pub proof fn lemma_lowest(bits: u64, i: int)
    requires
        0 <= i <= 64,
    ensures
        match lowest_bit(bits, i) {
            Some(k) => {
                &&& i <= k < 64
                &&& bits & (1u64 << (k as u64)) != 0
                &&& forall|j: u64| i <= j < k ==> bits & #[trigger] (1u64 << j) == 0
            },
            None => forall|j: u64| i <= j < 64 ==> bits & #[trigger] (1u64 << j) == 0,
        },
    decreases 64 - i,
{
    if i < 64 {
        lemma_lowest(bits, i + 1);
    }
}

/// The number of a set of signals is one more than the place of its lowest bit.
pub proof fn law_number_of_signals(bits: u64)
    ensures
        match number_of(bits) {
            Some(n) => {
                &&& 1 <= n <= 64
                &&& bits & (1u64 << ((n - 1) as u64)) != 0
                &&& forall|j: u64| j < n - 1 ==> bits & #[trigger] (1u64 << j) == 0
            },
            None => forall|j: u64| j < 64 ==> bits & #[trigger] (1u64 << j) == 0,
        },
{
    lemma_lowest(bits, 0);
}

/// The signal that a thread takes waits for it or its process, is not held back or is 8 or 18,
/// and no lower one is ready.
pub proof fn law_taken_signal_is_the_lowest_ready(
    before: TaskSignals,
    group: Signal,
    after: TaskSignals,
    group_after: Signal,
    sig: usize,
    k: u64,
)
    requires
        picked(before, group, after, group_after, Some(sig)),
        k <= sig,
    ensures
        sig < 64,
        k == sig <==> {
            &&& before.pending.signals.bits & (1u64 << k) != 0
                || group.shared_pending.signals.bits & (1u64 << k) != 0
            &&& before.blocked.bits & (1u64 << k) == 0 || k == 8 || k == 18
        },
{
    let private = before.pending.signals.bits;
    let shared = group.shared_pending.signals.bits;
    let blocked = before.blocked.bits;
    lemma_lowest((private | shared) & !(blocked & !0x4_0100u64), 0);
    law_ready_signals(private, shared, blocked, k);
}

/// Nothing is taken only where nothing is ready.
pub proof fn law_nothing_taken(
    before: TaskSignals,
    group: Signal,
    after: TaskSignals,
    group_after: Signal,
    k: u64,
)
    requires
        picked(before, group, after, group_after, None),
        k < 64,
    ensures
        before.pending.signals.bits & (1u64 << k) != 0 || group.shared_pending.signals.bits & (1u64
            << k) != 0 ==> before.blocked.bits & (1u64 << k) != 0 && k != 8 && k != 18,
        after.pending == before.pending,
        group_after == group,
        before.sigsuspend_saved_mask matches Some(mask) ==> after.blocked == mask,
{
    let private = before.pending.signals.bits;
    let shared = group.shared_pending.signals.bits;
    let blocked = before.blocked.bits;
    lemma_lowest((private | shared) & !(blocked & !0x4_0100u64), 0);
    law_ready_signals(private, shared, blocked, k);
    assert(lowest_bit((private | shared) & !(blocked & !0x4_0100u64), 0) is None);
}

/// The signal that is taken does not wait any more where it was taken from, for the thread first
/// and else for the process; every other signal that waited still waits.
pub proof fn law_taken_signal_is_gone(
    before: TaskSignals,
    group: Signal,
    after: TaskSignals,
    group_after: Signal,
    sig: usize,
    k: u64,
)
    requires
        picked(before, group, after, group_after, Some(sig)),
        k < 64,
    ensures
        before.pending.signals.bits & (1u64 << (sig as u64)) != 0 ==> {
            &&& group_after == group
            &&& after.pending.signals.bits & (1u64 << k) != 0 <==> before.pending.signals.bits & (
            1u64 << k) != 0 && k != sig
        },
        before.pending.signals.bits & (1u64 << (sig as u64)) == 0 ==> {
            &&& after.pending == before.pending
            &&& group_after.shared_pending.signals.bits & (1u64 << k) != 0
                <==> group.shared_pending.signals.bits & (1u64 << k) != 0 && k != sig
        },
        after.blocked.bits & (1u64 << k) != 0 <==> before.blocked.bits & (1u64 << k) != 0 && k != 8
            && k != 18,
        after.sigsuspend_saved_mask == before.sigsuspend_saved_mask,
        after.term_signal == before.term_signal,
        after.frozen == before.frozen,
{
    let private = before.pending.signals.bits;
    let shared = group.shared_pending.signals.bits;
    let blocked = before.blocked.bits;
    let s = sig as u64;
    lemma_lowest((private | shared) & !(blocked & !0x4_0100u64), 0);
    lemma_bits(private, 1u64 << s, s, s);
    lemma_bits(private, 1u64 << s, s, k);
    lemma_bits(shared, 1u64 << s, s, k);
    lemma_bits(blocked, 0x4_0100, k, k);
}

/// A handler is called with the number of the signal, the place of what is told of it and the
/// place of what is put aside, on a stack that ends where those begin, and returns to where it is
/// told. All other registers are as they were. Where no frame can be written, the signal ends the
/// thread.
pub proof fn law_handler_is_called(
    before: TaskSignals,
    regs: TrapRegs,
    sig: usize,
    handler: u64,
    return_address: u64,
    info_size: u64,
    place: Option<FramePlace>,
    after: TaskSignals,
    regs_after: TrapRegs,
)
    requires
        sig < 64,
        entered(
            before,
            regs,
            sig,
            handler,
            return_address,
            info_size,
            place,
            after,
            regs_after,
        ),
        place matches Some(p) ==> p.frame_sp + info_size <= u64::MAX,
    ensures
        place is None ==> after.term_signal == Some((sig + 1) as i32) && regs_after == regs,
        place matches Some(p) ==> {
            &&& after.term_signal == before.term_signal
            &&& regs_after.pc == handler
            &&& regs_after.x@[1] == return_address
            &&& regs_after.x@[2] == p.frame_sp
            &&& regs_after.x@[10] == sig + 1
            &&& regs_after.x@[11] == p.frame_sp
            &&& regs_after.x@[12] == p.frame_sp + info_size
            &&& forall|i: int|
                0 <= i < 32 && i != 1 && i != 2 && i != 10 && i != 11 && i != 12
                    ==> #[trigger] regs_after.x@[i] == regs.x@[i]
            &&& after.signal_user_context_backup@.len() == before.signal_user_context_backup@.len()
                + 1
            &&& after.signal_user_context_backup@.last() == p.frame_sp + info_size
        },
        after.blocked == before.blocked,
        after.pending == before.pending,
        after.frozen == before.frozen,
{
}

/// A frame lies right below the end of the stack that is used, at a multiple of 16 and less than
/// 16 bytes lower than it must. The stack is the other one where it is asked for, is not switched
/// off (bit 2) and is not in use; otherwise it is the one that the program uses.
pub proof fn law_place_of_a_frame(
    stack: SignalAltStack,
    sp: u64,
    frame_size: int,
    use_alt_stack: bool,
)
    requires
        frame_size >= 0,
    ensures
        ({
            let top = stack.ss_sp + stack.ss_size;
            let in_use = stack.ss_flags & 2 == 0 && top <= u64::MAX && stack.ss_sp <= sp < top;
            let other = use_alt_stack && stack.ss_flags & 2 == 0 && !in_use;
            let end: int = if other {
                top
            } else {
                sp as int
            };
            match frame_place(stack, sp, frame_size, use_alt_stack) {
                Some(p) => {
                    &&& p.user_sp == end
                    &&& p.frame_sp % 16 == 0
                    &&& p.frame_sp + frame_size <= end < p.frame_sp + frame_size + 16
                    &&& p.switching == other
                },
                None => end > u64::MAX || end < frame_size,
            }
        }),
{
}

/// What a program is told of its other stack: 2 where it is switched off, 1 where it is in use,
/// 0 otherwise; place and size are as the program gave them.
pub proof fn law_other_stack_as_told(stack: SignalAltStack, sp: u64)
    ensures
        ({
            let told = stack_status(stack, sp);
            let top = stack.ss_sp + stack.ss_size;
            &&& told.ss_sp == stack.ss_sp
            &&& told.ss_size == stack.ss_size
            &&& stack.ss_flags & 2 != 0 ==> told.ss_flags == 2
            &&& stack.ss_flags & 2 == 0 && top <= u64::MAX && stack.ss_sp <= sp < top
                ==> told.ss_flags == 1
            &&& stack.ss_flags & 2 == 0 && !(top <= u64::MAX && stack.ss_sp <= sp < top)
                ==> told.ss_flags == 0
        }),
{
}

/// What is put aside of a thread brings it back: the same place in the program and the same
/// registers, but that register zero is always zero.
pub proof fn law_put_aside_and_back(
    context: SignalUserContext,
    regs: TrapRegs,
    mask: u64,
    stack: SignalAltStack,
    back: TrapRegs,
)
    requires
        captured(context, regs, mask, stack),
        applied(context, back),
    ensures
        back.pc == regs.pc,
        back.x@[0] == 0,
        forall|i: int| 1 <= i < 32 ==> #[trigger] back.x@[i] == regs.x@[i],
        context.uc_sigmask@[0] == mask,
        context.uc_stack == stack,
{
}

/// What was put aside last is taken back first, and only where all of it is there.
pub proof fn law_last_put_aside_is_taken_back(
    before: TaskSignals,
    after: TaskSignals,
    kept: Option<(u64, TrapRegs)>,
)
    requires
        taken_back(before, after, kept),
    ensures
        kept is Some <==> before.signal_user_context_backup@.len() > 0
            && before.signal_mask_backup@.len() > 0 && before.trap_ctx_backup@.len() > 0,
        kept matches Some((at, regs)) ==> {
            let n = before.signal_user_context_backup@.len() - 1;
            let m = before.trap_ctx_backup@.len() - 1;
            &&& at == before.signal_user_context_backup@[n]
            &&& regs == before.trap_ctx_backup@[m]
            &&& after.signal_user_context_backup@ == before.signal_user_context_backup@.subrange(
                0,
                n,
            )
            &&& after.trap_ctx_backup@ == before.trap_ctx_backup@.subrange(0, m)
            &&& after.signal_mask_backup@ == before.signal_mask_backup@.subrange(
                0,
                before.signal_mask_backup@.len() - 1,
            )
        },
        after.blocked == before.blocked,
        after.pending == before.pending,
        after.term_signal == before.term_signal,
        after.frozen == before.frozen,
{
}

/// The return from a handler finds the registers with which the handler was called, and leaves
/// what was put aside before as it was.
pub proof fn law_handler_returns_to_its_caller(
    before: TaskSignals,
    sig: usize,
    action: SignalAction,
    regs: TrapRegs,
    called: TaskSignals,
    next: Delivery,
    frame_regs: TrapRegs,
    return_address: u64,
    info_size: u64,
    place: FramePlace,
    running: TaskSignals,
    running_regs: TrapRegs,
    after: TaskSignals,
    kept: Option<(u64, TrapRegs)>,
)
    requires
        handled(before, sig, action, regs, called, next),
        action.handler > 1,
        entered(
            called,
            frame_regs,
            sig,
            action.handler,
            return_address,
            info_size,
            Some(place),
            running,
            running_regs,
        ),
        taken_back(running, after, kept),
        place.frame_sp + info_size <= u64::MAX,
    ensures
        kept == Some(((place.frame_sp + info_size) as u64, regs)),
        after.signal_user_context_backup@ == before.signal_user_context_backup@,
        after.trap_ctx_backup@ == before.trap_ctx_backup@,
        after.signal_mask_backup@ == before.signal_mask_backup@,
{
    assert(after.trap_ctx_backup@ =~= before.trap_ctx_backup@);
    assert(after.signal_mask_backup@ =~= before.signal_mask_backup@);
    assert(after.signal_user_context_backup@ =~= before.signal_user_context_backup@);
}

/// After a handler the thread goes on where the frame says, with its registers, and holds back
/// what the frame says; the call that was interrupted sees its own first register again.
pub proof fn law_thread_goes_on(
    before: TaskSignals,
    context: SignalUserContext,
    after: TaskSignals,
    regs: TrapRegs,
    a0: u64,
    i: int,
)
    requires
        gone_on(before, context, after, regs, a0),
        1 <= i < 32,
    ensures
        regs.pc == context.gregs@[0],
        regs.x@[i] == context.gregs@[i],
        regs.x@[0] == 0,
        a0 == context.gregs@[10],
        after.blocked.bits == context.uc_sigmask@[0],
        after.signal_alt_stack == context.uc_stack,
        after.pending == before.pending,
        after.term_signal == before.term_signal,
        after.frozen == before.frozen,
        after.trap_ctx_backup == before.trap_ctx_backup,
{
}

/// Signals 2, 4, 6, 8, 9 and 11 end a program with an error, and no others do; the result is the
/// lowest of those numbers that there are, below zero.
pub proof fn law_result_of_an_error(bits: u64, k: u64)
    requires
        k < 64,
    ensures
        bits & (1u64 << k) != 0 && (k == 1 || k == 3 || k == 5 || k == 7 || k == 8 || k == 10)
            ==> is_error(bits) && error_code(bits) + k + 1 >= 0,
        bits == 1u64 << k ==> (is_error(bits) <==> k == 1 || k == 3 || k == 5 || k == 7 || k == 8 || k
            == 10),
        bits == 1u64 << k && is_error(bits) ==> error_code(bits) + k + 1 == 0,
{
    assert((0x2u64 | 0x8 | 0x20 | 0x80 | 0x100 | 0x400) == 0x5aa) by (bit_vector);
    assert(bits & (1u64 << k) != 0 && (k == 1 || k == 3 || k == 5 || k == 7 || k == 8 || k == 10)
        ==> bits & 0x5aa != 0) by (bit_vector);
    assert(bits == 1u64 << k && k < 64 ==> (bits & 0x5aa != 0 <==> k == 1 || k == 3 || k == 5 || k
        == 7 || k == 8 || k == 10)) by (bit_vector);
    assert((1u64 << 1u64) == 0x2 && (1u64 << 3u64) == 0x8 && (1u64 << 5u64) == 0x20 && (1u64 << 7u64)
        == 0x80 && (1u64 << 8u64) == 0x100 && (1u64 << 10u64) == 0x400) by (bit_vector);
    lemma_bits(bits, 0, k, 1);
    lemma_bits(bits, 0, k, 3);
    lemma_bits(bits, 0, k, 5);
    lemma_bits(bits, 0, k, 7);
    lemma_bits(bits, 0, k, 8);
    lemma_bits(bits, 0, k, 10);
}

/// Signal number `n` is bit `n - 1` of a set.
pub proof fn law_bits_of_signals()
    ensures
        SIGHUP == 1u64 << 0u64 && SIGINT == 1u64 << 1u64 && SIGQUIT == 1u64 << 2u64,
        SIGILL == 1u64 << 3u64 && SIGTRAP == 1u64 << 4u64 && SIGABRT == 1u64 << 5u64,
        SIGBUS == 1u64 << 6u64 && SIGFPE == 1u64 << 7u64 && SIGKILL == 1u64 << 8u64,
        SIGUSR1 == 1u64 << 9u64 && SIGSEGV == 1u64 << 10u64 && SIGUSR2 == 1u64 << 11u64,
        SIGPIPE == 1u64 << 12u64 && SIGALRM == 1u64 << 13u64 && SIGTERM == 1u64 << 14u64,
        SIGSTKFLT == 1u64 << 15u64 && SIGCHLD == 1u64 << 16u64 && SIGCONT == 1u64 << 17u64,
        SIGSTOP == 1u64 << 18u64 && SIGTSTP == 1u64 << 19u64 && SIGTTIN == 1u64 << 20u64,
        SIGTTOU == 1u64 << 21u64 && SIGURG == 1u64 << 22u64 && SIGXCPU == 1u64 << 23u64,
        SIGXFSZ == 1u64 << 24u64 && SIGVTALRM == 1u64 << 25u64 && SIGPROF == 1u64 << 26u64,
        SIGWINCH == 1u64 << 27u64 && SIGIO == 1u64 << 28u64 && SIGPWR == 1u64 << 29u64,
        SIGSYS == 1u64 << 30u64,
        UNMASKABLE == SIGKILL + SIGSTOP,
{
    assert(SIGHUP == 1u64 << 0u64 && SIGINT == 1u64 << 1u64 && SIGQUIT == 1u64 << 2u64 && SIGILL
        == 1u64 << 3u64 && SIGTRAP == 1u64 << 4u64 && SIGABRT == 1u64 << 5u64 && SIGBUS == 1u64
        << 6u64 && SIGFPE == 1u64 << 7u64 && SIGKILL == 1u64 << 8u64 && SIGUSR1 == 1u64 << 9u64
        && SIGSEGV == 1u64 << 10u64 && SIGUSR2 == 1u64 << 11u64 && SIGPIPE == 1u64 << 12u64
        && SIGALRM == 1u64 << 13u64 && SIGTERM == 1u64 << 14u64 && SIGSTKFLT == 1u64 << 15u64
        && SIGCHLD == 1u64 << 16u64 && SIGCONT == 1u64 << 17u64 && SIGSTOP == 1u64 << 18u64
        && SIGTSTP == 1u64 << 19u64 && SIGTTIN == 1u64 << 20u64 && SIGTTOU == 1u64 << 21u64
        && SIGURG == 1u64 << 22u64 && SIGXCPU == 1u64 << 23u64 && SIGXFSZ == 1u64 << 24u64
        && SIGVTALRM == 1u64 << 25u64 && SIGPROF == 1u64 << 26u64 && SIGWINCH == 1u64 << 27u64
        && SIGIO == 1u64 << 28u64 && SIGPWR == 1u64 << 29u64 && SIGSYS == 1u64 << 30u64)
        by (bit_vector);
}

} // verus!
