//! Tasks and what belongs to them.

pub mod clone;
pub mod clone_run;
pub mod context;
pub mod cred;
pub mod exec;
pub mod exec_image;
pub mod exec_run;
pub mod exec_stack;
pub mod exec_start;
pub mod exit;
pub mod exit_run;
pub mod files;
pub mod limits;
pub mod sched;
pub mod status;
pub mod task_fs;
pub mod tcb;
pub mod vfork;
pub mod worker;
