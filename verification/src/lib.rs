//! Interception bookkeeping, console command dispatch and entity-list
//! traversal for an in-process companion to a running host program.
//!
//! Everything here works on plain values: the surrounding program reads host
//! memory and performs the low-level patching, and hands the results in.

pub mod text;
pub mod command;
pub mod console;
pub mod wide;
pub mod entity;
pub mod hook;
pub mod motion;
pub mod layout;

pub use crate::console::TextColor;
