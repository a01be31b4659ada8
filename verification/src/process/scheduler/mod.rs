//! Run queues and the structures they are built from.

pub mod cfs_rq;
pub mod deadline_rq;
pub mod dispatch;
pub mod futex;
pub mod idle_rq;
pub mod nanosleep;
pub mod processor;
pub mod rbtree;
pub mod rt_rq;
pub mod runqueue;
pub mod stop_rq;
pub mod wait;
pub mod wakeup;
