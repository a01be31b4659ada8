//! Processes, threads, signals and scheduling.

pub mod child_wait;
pub mod clone;
pub mod first_program;
pub mod id;
pub mod manager;
pub mod pcb;
pub mod registry;
pub mod schedule;
pub mod scheduler;
pub mod signal;
pub mod task;
pub mod timer;
pub mod trap_area;
