//! What is put on the stack of a program before it handles a signal.

use vstd::prelude::*;

verus! {

/// The program is on the other stack.
pub const SS_ONSTACK: i32 = 1;

/// There is no other stack.
pub const SS_DISABLE: i32 = 2;

/// The other stack is not used again while a signal is handled on it.
pub const SS_AUTODISARM: i32 = -0x8000_0000;

/// The other stack of a thread, on which signals can be handled.
#[derive(Clone, Copy, Debug, PartialEq, Eq, Structural)]
pub struct SignalAltStack {
    pub ss_sp: u64,
    pub ss_flags: i32,
    pub pad: i32,
    pub ss_size: u64,
}

/// A thread without another stack.
pub open spec fn no_alt_stack() -> SignalAltStack {
    SignalAltStack { ss_sp: 0, ss_flags: SS_DISABLE, pad: 0, ss_size: 0 }
}

impl Default for SignalAltStack {
    fn default() -> (stack: Self)
        ensures
            stack == no_alt_stack(),
    {
        SignalAltStack { ss_sp: 0, ss_flags: SS_DISABLE, pad: 0, ss_size: 0 }
    }
}

impl SignalAltStack {
    /// There is another stack.
    pub open spec fn enabled(&self) -> bool {
        self.ss_flags & SS_DISABLE == 0
    }

    /// An address is on the other stack.
    pub open spec fn covers(&self, sp: u64) -> bool {
        self.enabled() && self.ss_sp + self.ss_size <= u64::MAX && self.ss_sp <= sp < self.ss_sp
            + self.ss_size
    }

    /// Tells whether there is another stack.
    pub fn is_enabled(&self) -> (yes: bool)
        ensures
            yes == self.enabled(),
    {
        self.ss_flags & SS_DISABLE == 0
    }

    /// Tells whether the other stack is not used again while a signal is handled on it.
    pub fn is_autodisarm(&self) -> (yes: bool)
        ensures
            yes == (self.ss_flags & SS_AUTODISARM != 0),
    {
        self.ss_flags & SS_AUTODISARM != 0
    }

    /// Tells whether an address is on the other stack.
    pub fn contains(&self, sp: u64) -> (yes: bool)
        ensures
            yes == self.covers(sp),
    {
        if !self.is_enabled() {
            return false;
        }
        match self.ss_sp.checked_add(self.ss_size) {
            None => false,
            Some(end) => sp >= self.ss_sp && sp < end,
        }
    }

    /// Returns what a program is told of the stack.
    pub fn status_for_sp(&self, sp: u64) -> (status: Self)
        ensures
            status == stack_status(*self, sp),
    {
        let mut status = *self;
        status.ss_flags = if self.contains(sp) {
            SS_ONSTACK
        } else if self.is_enabled() {
            0
        } else {
            SS_DISABLE
        };
        status
    }
}

/// What a program with a stack pointer is told of the other stack.
pub open spec fn stack_status(stack: SignalAltStack, sp: u64) -> SignalAltStack {
    SignalAltStack {
        ss_flags: if stack.covers(sp) {
            SS_ONSTACK
        } else if stack.enabled() {
            0
        } else {
            SS_DISABLE
        },
        ..stack
    }
}

/// The registers of a program: 1 holds the return address, 2 the stack pointer,
/// 4 the thread pointer, 10 to 12 the arguments of a function.
#[derive(Clone, Copy, Debug)]
pub struct TrapRegs {
    pub x: [u64; 32],
    pub pc: u64,
}

/// What a program finds of itself while it handles a signal.
#[derive(Clone, Copy, Debug)]
pub struct SignalUserContext {
    pub uc_flags: u64,
    pub uc_link: u64,
    pub uc_stack: SignalAltStack,
    pub uc_sigmask: [u64; 16],
    pub gregs: [u64; 32],
}

/// The registers, the mask and the stack are in the context; the first place holds the counter.
pub open spec fn captured(
    context: SignalUserContext,
    regs: TrapRegs,
    mask: u64,
    stack: SignalAltStack,
) -> bool {
    &&& context.uc_flags == 0
    &&& context.uc_link == 0
    &&& context.uc_stack == stack
    &&& context.uc_sigmask@[0] == mask
    &&& forall|i: int| 1 <= i < 16 ==> #[trigger] context.uc_sigmask@[i] == 0
    &&& context.gregs@[0] == regs.pc
    &&& forall|i: int| 1 <= i < 32 ==> #[trigger] context.gregs@[i] == regs.x@[i]
}

/// The registers are those of the context.
pub open spec fn applied(context: SignalUserContext, regs: TrapRegs) -> bool {
    &&& regs.pc == context.gregs@[0]
    &&& regs.x@[0] == 0
    &&& forall|i: int| 1 <= i < 32 ==> #[trigger] regs.x@[i] == context.gregs@[i]
}

impl SignalUserContext {
    /// Keeps the registers, the mask and the stack.
    pub fn from_trap_ctx(regs: &TrapRegs, sigmask: u64, alt_stack: SignalAltStack) -> (context: Self)
        ensures
            captured(context, *regs, sigmask, alt_stack),
    {
        let mut uc_sigmask: [u64; 16] = [0;16];
        uc_sigmask[0] = sigmask;
        let mut gregs: [u64; 32] = regs.x;
        gregs[0] = regs.pc;
        SignalUserContext { uc_flags: 0, uc_link: 0, uc_stack: alt_stack, uc_sigmask, gregs }
    }

    /// Returns where the program goes on.
    pub fn program_counter(&self) -> (pc: u64)
        ensures
            pc == self.gregs@[0],
    {
        self.gregs[0]
    }

    /// Sets the registers.
    pub fn apply_to_trap_ctx(&self, regs: &mut TrapRegs)
        ensures
            applied(*self, *final(regs)),
    {
        let mut x: [u64; 32] = self.gregs;
        x[0] = 0;
        *regs = TrapRegs { x, pc: self.gregs[0] };
    }

    /// Returns the stack.
    pub fn ucontext_stack(&self) -> (stack: SignalAltStack)
        ensures
            stack == self.uc_stack,
    {
        self.uc_stack
    }
}

/// A program that leaves its context as it found it goes on as if nothing had happened.
pub proof fn law_return_restores(
    context: SignalUserContext,
    before: TrapRegs,
    mask: u64,
    stack: SignalAltStack,
    after: TrapRegs,
)
    requires
        captured(context, before, mask, stack),
        applied(context, after),
        before.x@[0] == 0,
    ensures
        after.pc == before.pc,
        after.x@ == before.x@,
{
    assert forall|i: int| 0 <= i < 32 implies after.x@[i] == before.x@[i] by {
        if i > 0 {
            assert(context.gregs@[i] == before.x@[i]);
        }
    }
    assert(after.x@ =~= before.x@);
}

/// Where a frame goes.
#[derive(Clone, Copy, Debug, PartialEq, Eq, Structural)]
pub struct FramePlace {
    /// The end of the stack that is used.
    pub user_sp: u64,
    /// The start of the frame.
    pub frame_sp: u64,
    /// The program is taken to the other stack.
    pub switching: bool,
}

/// The program is taken to the other stack.
pub open spec fn switches(stack: SignalAltStack, sp: u64, use_alt_stack: bool) -> bool {
    use_alt_stack && stack.enabled() && !stack.covers(sp)
}

/// The end of the stack that is used.
pub open spec fn stack_end(stack: SignalAltStack, sp: u64, use_alt_stack: bool) -> int {
    if switches(stack, sp, use_alt_stack) {
        stack.ss_sp + stack.ss_size
    } else {
        sp as int
    }
}

/// The place of a frame: below the end of the stack, at an address that sixteen divides.
pub open spec fn frame_place(
    stack: SignalAltStack,
    sp: u64,
    frame_size: int,
    use_alt_stack: bool,
) -> Option<FramePlace> {
    let end = stack_end(stack, sp, use_alt_stack);
    if end > u64::MAX || end < frame_size {
        None
    } else {
        Some(
            FramePlace {
                user_sp: end as u64,
                frame_sp: ((end - frame_size) / 16 * 16) as u64,
                switching: switches(stack, sp, use_alt_stack),
            },
        )
    }
}

/// Finds the place of a frame.
pub fn place_frame(stack: SignalAltStack, sp: u64, frame_size: u64, use_alt_stack: bool) -> (place:
    Option<FramePlace>)
    ensures
        place == frame_place(stack, sp, frame_size as int, use_alt_stack),
{
    let switching: bool = use_alt_stack && stack.is_enabled() && !stack.contains(sp);
    let user_sp: u64 = if switching {
        match stack.ss_sp.checked_add(stack.ss_size) {
            None => {
                return None;
            },
            Some(end) => end,
        }
    } else {
        sp
    };
    if user_sp < frame_size {
        return None;
    }
    let frame_sp: u64 = (user_sp - frame_size) / 16 * 16;
    Some(FramePlace { user_sp, frame_sp, switching })
}

/// A frame does not reach what is on the stack already, and stays on the other stack where
/// that is used and is large enough.
pub proof fn law_frame_is_below(
    stack: SignalAltStack,
    sp: u64,
    frame_size: int,
    use_alt_stack: bool,
)
    requires
        frame_size > 0,
        frame_place(stack, sp, frame_size, use_alt_stack) is Some,
    ensures
        ({
            let place = frame_place(stack, sp, frame_size, use_alt_stack)->Some_0;
            &&& place.frame_sp + frame_size <= place.user_sp
            &&& place.frame_sp % 16 == 0
            &&& place.switching && stack.ss_size >= frame_size + 16 ==> stack.ss_sp
                <= place.frame_sp
            &&& !place.switching ==> place.user_sp == sp
        }),
{
}

} // verus!
