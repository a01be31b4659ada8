//! The memory, process, scheduling and network logic of the ShellCore kernel.
//!
//! Every module states its data over plain values and proves its functions
//! against contracts. Locks, device registers and context switches belong to
//! the surrounding program, which holds these values and calls in.

pub mod errno;
pub mod laws;
pub mod mm;
pub mod net;
pub mod process;
