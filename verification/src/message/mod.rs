//! Messages: their ids and the record that one line of a channel log holds.

pub mod id;
pub mod record;

pub use record::{Message, Timestamp};
