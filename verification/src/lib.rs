//! Drive a long-running interactive program non-interactively.
//!
//! A session is a directory holding an input pipe and an append-only output
//! log written by an external terminal-wrapping process.  This library holds
//! the prompt-synchronization and output-windowing logic: normalizing raw
//! terminal bytes into comparable text, deciding whether a prompt is ready at
//! the end of the log, waiting for a prompt to reappear, and extracting the
//! stanza of output produced between two prompt occurrences.  All file and
//! process handling stays with the caller; the functions here work on plain
//! values read from the log.

pub mod cli;
pub mod codec;
pub mod normalize;
pub mod prompt;
pub mod session;
pub mod tail;

use vstd::prelude::*;

verus! {

} // verus!
