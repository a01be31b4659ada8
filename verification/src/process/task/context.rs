//! The registers that are saved when a task is switched away.

use vstd::prelude::*;

verus! {

/// The saved registers.
#[derive(Clone, Copy, Debug)]
pub struct TaskContext {
    /// Where the task goes on.
    pub ra: u64,
    /// The stack pointer.
    pub sp: u64,
    /// The registers that a function has to keep.
    pub s: [u64; 12],
}

impl TaskContext {
    /// Makes a context of zeros.
    pub fn zero_init() -> (context: Self)
        ensures
            context.ra == 0,
            context.sp == 0,
            forall|i: int| 0 <= i < 12 ==> #[trigger] context.s@[i] == 0,
    {
        TaskContext { ra: 0, sp: 0, s: [0;12] }
    }

    /// Makes a context that goes on at `trap_return` with a kernel stack.
    pub fn goto_trap_return(trap_return: u64, kstack_ptr: u64) -> (context: Self)
        ensures
            context.ra == trap_return,
            context.sp == kstack_ptr,
            forall|i: int| 0 <= i < 12 ==> #[trigger] context.s@[i] == 0,
    {
        TaskContext { ra: trap_return, sp: kstack_ptr, s: [0;12] }
    }
}

} // verus!
