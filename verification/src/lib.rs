//! The decisions behind an interactive raw-mode terminal interface in a CLI
//! tool: what the user types is filtered for an escape sequence and relayed to
//! a WebSocket, what comes back is shown, and the terminal is put into raw mode
//! and out of it again.
//!
//! - [`input`]: the escape sequence filter
//! - [`matcher`]: its mathematical model
//! - [`laws`], [`recognition`]: what holds of it, and when it recognises the
//!   sequence
//! - [`behaviour`]: what it makes of what is typed, seen from outside
//! - [`cursor`]: Cursor Position Reports, which the filter sets apart
//! - [`relay`]: the tasks between standard input and its readers
//! - [`session`]: the event loop between a console and a WebSocket
//! - [`raw`]: entering and leaving raw mode
//! - [`echo`]: a small console to try it out with

pub mod behaviour;
pub mod cursor;
pub mod echo;
pub mod input;
pub mod laws;
pub mod matcher;
pub mod raw;
pub mod recognition;
pub mod relay;
pub mod session;

pub use crate::input::EscapeSequence;
