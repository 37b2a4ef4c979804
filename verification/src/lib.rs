//! tsuji: a local, file-based chat log shared between sessions on one machine.
//!
//! The library holds the rules of the tool: validation of names, senders and
//! cursors, the layout of the channel log, the cursor semantics of `read`,
//! the per-sender summary of `members`, and the human-readable rendering.

pub mod cli;
pub mod error;
pub mod message;
pub mod pretty;
pub mod storage;
pub mod text;
