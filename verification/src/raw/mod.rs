//! Raw mode: switching a terminal into it, and out of it again.
//!
//! The system calls are made by the caller, which hands back what they
//! returned; which call comes next, and with what, is decided here.

pub mod reset;
pub mod unix;
pub mod windows;
