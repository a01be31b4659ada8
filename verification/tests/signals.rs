use shellcore::process::signal::action::{SigHand, SignalAction, SA_ONSTACK, SIG_IGN};
use shellcore::process::signal::delivery::{Delivery, TaskSignals};
use shellcore::process::signal::flags::{
    lowest_signal, SignalFlags, SIGALRM, SIGCHLD, SIGINT, SIGKILL, SIGSEGV, SIGTERM, SIGUSR1,
};
use shellcore::process::signal::frame::{
    place_frame, SignalAltStack, SignalUserContext, TrapRegs, SS_AUTODISARM, SS_DISABLE, SS_ONSTACK,
};
use shellcore::process::signal::state::{Signal, Sigpending};

fn flags(bits: u64) -> SignalFlags {
    SignalFlags { bits }
}

fn regs() -> TrapRegs {
    let mut regs = TrapRegs { x: [0; 32], pc: 0x1_0000 };
    for i in 0..32 {
        regs.x[i] = 100 + i as u64;
    }
    regs.x[0] = 0;
    regs.x[2] = 0x8_0000;
    regs
}

#[test]
fn flags_are_a_set() {
    let mut set = SignalFlags::empty();
    assert!(set.is_empty());
    set.insert(flags(SIGINT | SIGKILL));
    assert!(set.contains(flags(SIGINT)));
    assert_eq!(set.number(), Some(2));
    set.remove(flags(SIGINT));
    assert_eq!(set.bits(), SIGKILL);
    assert_eq!(set.number(), Some(9));
    assert_eq!(SignalFlags::empty().number(), None);
    assert_eq!(lowest_signal(0b1000), Some(3));
    assert_eq!(lowest_signal(0), None);
    assert_eq!(flags(SIGSEGV).check_error().unwrap().0, -11);
    assert_eq!(flags(SIGINT).check_error().unwrap().0, -2);
    assert_eq!(flags(SIGALRM).check_error(), None);
}

#[test]
fn the_lowest_signal_that_is_not_held_back_is_handled() {
    let mut signals = TaskSignals::new();
    let mut group = Signal::new();
    signals.blocked = flags(SIGINT | SIGKILL);
    signals.current_add_signal(flags(SIGINT));
    signals.current_add_signal(flags(SIGTERM));
    group.insert_pending(flags(SIGUSR1));
    assert_eq!(signals.handle_signals(&mut group), Some(9));
    assert_eq!(signals.handle_signals(&mut group), Some(14));
    assert_eq!(signals.handle_signals(&mut group), None);
    signals.current_add_signal(flags(SIGKILL));
    assert!(signals.has_pending_sigkill(&group));
    assert_eq!(signals.handle_signals(&mut group), Some(8));
    assert_eq!(signals.pending.bits(), SIGINT);
    assert_eq!(signals.get_pending_signals(&group).bits(), 0);
}

#[test]
fn ignored_signals_interrupt_nobody() {
    let mut signals = TaskSignals::new();
    let group = Signal::new();
    let mut hand = SigHand::new();
    signals.current_add_signal(flags(SIGCHLD));
    assert!(!signals.check_pending_signal(&group, &hand));
    signals.current_add_signal(flags(SIGUSR1));
    assert!(signals.check_pending_signal(&group, &hand));
    let mut action = SignalAction::default();
    action.handler = SIG_IGN;
    hand.set_action(9, action);
    assert_eq!(hand.action(9).handler, SIG_IGN);
    assert!(!signals.check_pending_signal(&group, &hand));
    signals.mark_signal_interrupted();
    assert!(signals.take_current_signal_interrupted());
    assert!(!signals.take_current_signal_interrupted());
}

#[test]
fn a_handler_runs_and_the_program_goes_on() {
    let mut signals = TaskSignals::new();
    signals.blocked = flags(SIGINT);
    let mut action = SignalAction::default();
    action.handler = 0x4000;
    action.mask = flags(SIGTERM);
    let before = regs();
    let next = signals.call_signal_handler(9, action, before);
    assert_eq!(next, Delivery::Frame { saved_mask: flags(SIGINT), use_alt_stack: false });
    assert_eq!(signals.blocked.bits, SIGINT | SIGTERM | SIGUSR1);
    let place = place_frame(signals.signal_alt_stack, before.x[2], 0x100, false).unwrap();
    assert_eq!(place.frame_sp, 0x7_ff00);
    let context = SignalUserContext::from_trap_ctx(&before, SIGINT, signals.signal_alt_stack);
    let mut now = before;
    signals.frame_written(9, 0x4000, 0x5000, 0x80, Some(place), &mut now);
    assert_eq!(now.pc, 0x4000);
    assert_eq!((now.x[10], now.x[11], now.x[12]), (10, 0x7_ff00, 0x7_ff80));
    assert_eq!((now.x[1], now.x[2]), (0x5000, 0x7_ff00));
    let (at, kept) = signals.begin_restore().unwrap();
    assert_eq!(at, 0x7_ff80);
    assert_eq!((kept.pc, kept.x), (before.pc, before.x));
    assert_eq!(signals.finish_restore(&context, &mut now), before.x[10]);
    assert_eq!(now.pc, before.pc);
    assert_eq!(now.x[1..], before.x[1..]);
    assert_eq!(signals.blocked.bits, SIGINT);
    assert!(signals.begin_restore().is_none());
}

#[test]
fn signals_without_a_handler_end_stop_or_do_nothing() {
    let mut signals = TaskSignals::new();
    let default = SignalAction::default();
    assert_eq!(signals.call_signal_handler(16, default, regs()), Delivery::Done);
    assert_eq!(signals.term_signal, None);
    signals.call_signal_handler(18, default, regs());
    assert!(signals.frozen);
    signals.call_signal_handler(17, default, regs());
    assert!(!signals.frozen);
    signals.call_signal_handler(10, default, regs());
    assert_eq!(signals.term_signal, Some(11));
    let mut signals = TaskSignals::new();
    let mut now = regs();
    signals.frame_written(3, 1, 2, 3, None, &mut now);
    assert_eq!(signals.term_signal, Some(4));
    assert_eq!((now.pc, now.x), (regs().pc, regs().x));
}

#[test]
fn another_stack_is_used_where_it_is_asked_for() {
    let stack = SignalAltStack { ss_sp: 0x1000, ss_flags: SS_AUTODISARM, pad: 0, ss_size: 0x1000 };
    assert!(stack.is_enabled());
    assert!(stack.is_autodisarm());
    assert!(stack.contains(0x1800));
    assert!(!stack.contains(0x8000));
    let place = place_frame(stack, 0x8_0000, 0x108, true).unwrap();
    assert!(place.switching);
    assert_eq!(place.user_sp, 0x2000);
    assert_eq!(place.frame_sp, 0x1ef0);
    let inside = place_frame(stack, 0x1800, 0x100, true).unwrap();
    assert!(!inside.switching);
    assert_eq!(place_frame(stack, 0x80, 0x100, false), None);
    assert!(!SignalAltStack::default().is_enabled());
    assert_eq!(SignalAltStack::default().ss_flags, SS_DISABLE);
    let plain = SignalAltStack { ss_sp: 0x1000, ss_flags: 0, pad: 0, ss_size: 0x1000 };
    assert_eq!(plain.status_for_sp(0x1800).ss_flags, SS_ONSTACK);
    let mut signals = TaskSignals::new();
    signals.signal_alt_stack = stack;
    let mut action = SignalAction::default();
    action.handler = 0x4000;
    action.flags = SA_ONSTACK;
    let next = signals.call_signal_handler(9, action, regs());
    assert!(matches!(next, Delivery::Frame { use_alt_stack: true, .. }));
    let mut now = regs();
    signals.frame_written(9, 0x4000, 0x5000, 0x80, Some(place), &mut now);
    assert!(!signals.signal_alt_stack.is_enabled());
}

#[test]
fn pending_signals_are_kept_in_order() {
    let mut pending = Sigpending::new();
    pending.insert(flags(SIGTERM));
    pending.insert(flags(SIGINT));
    assert_eq!(pending.queue.len(), 2);
    assert!(pending.contains(flags(SIGINT)));
    pending.remove(flags(SIGINT));
    assert_eq!(pending.bits(), SIGTERM);
    assert_eq!(pending.flags(), flags(SIGTERM));
    let mut group = Signal::new();
    group.insert_pending(flags(SIGTERM));
    group.add_thread();
    assert_eq!(group.thread_num, 2);
    let child = Signal::fork_from(&group);
    assert!(child.pending_flags().is_empty());
    assert_eq!(child.thread_num, 1);
    group.remove_pending(flags(SIGTERM));
    assert!(group.pending_flags().is_empty());
}
