//! Verified core of a command-line volume control.
//!
//! An invocation parses one percentage argument, resolves the default output
//! device, writes the volume fraction to it, and then writes a derived mute
//! flag (muted exactly when the volume is zero).  The decisions of that
//! sequence live here, fully verified; the process edges (argument intake,
//! the audio-hardware property calls, printing, the exit) are left to the
//! surrounding binary, which drives the [`machine`] one step at a time.

pub mod decimal;
pub mod error;
pub mod machine;
pub mod number;
pub mod volume;
