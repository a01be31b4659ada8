//! What the operations of the kernel are for.
//!
//! The laws relate what goes into an operation to what comes out of it, in
//! terms of the values that its caller sees: bits of flags, entries of tables,
//! numbers of files and signals, bytes of packets.

pub mod access;
pub mod boot;
pub mod clocks;
pub mod endings;
pub mod memory;
pub mod network;
pub mod pools;
pub mod programs;
pub mod scheduling;
pub mod scripts;
pub mod sharing;
pub mod signals;
pub mod tables;
pub mod threads;
