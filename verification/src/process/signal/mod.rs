//! Signals.

pub mod action;
pub mod delivery;
pub mod flags;
pub mod frame;
pub mod state;
