//! The channel log on disk: where it lives, how its lines are framed and how
//! it reads back.

pub mod paths;
pub mod reader;
pub mod writer;
