//! Outcomes and validation errors of the command-line tool.

use vstd::prelude::*;
use vstd::string::StringExecFns;

verus! {

/// How a command ended when it did not fail.
#[derive(Clone, Copy, Debug, PartialEq, Eq, Structural)]
pub enum ExitCode {
    Success,
    Other(u8),
}

impl ExitCode {
    /// The process status for this outcome: `0` for `Success`, the code itself
    /// otherwise.
    pub fn status(self) -> (r: i32)
        ensures
            r == match self {
                ExitCode::Success => 0,
                ExitCode::Other(n) => n as i32,
            },
    {
        match self {
            ExitCode::Success => 0,
            ExitCode::Other(n) => n as i32,
        }
    }
}

/// A rejected argument.
#[derive(Debug, PartialEq, Eq)]
pub enum CliError {
    InvalidChannelName(String),
    InvalidSender(String),
    EmptyBody,
    InvalidUlid(String),
    MissingBody,
}

/// The one-line, human-readable text of an error.
pub open spec fn error_text(e: CliError) -> Seq<char> {
    match e {
        CliError::InvalidChannelName(s) => "channel: invalid name '"@ + s@
            + "' (allowed: [a-zA-Z0-9_-]{1,64})"@,
        CliError::InvalidSender(s) => "as: invalid sender '"@ + s@
            + "' (non-empty, no newline, length <= 64)"@,
        CliError::EmptyBody => "body: must not be empty"@,
        CliError::InvalidUlid(s) => "since: not a valid ULID '"@ + s@ + "'"@,
        CliError::MissingBody => "body is required (use --body <TEXT> or --body -)"@,
    }
}

impl CliError {
    /// The message that the tool prints for this error (its `Display` text).
    pub fn message(&self) -> (r: String)
        ensures
            r@ == error_text(*self),
    {
        match self {
            CliError::InvalidChannelName(s) => {
                let mut r = String::from_str("channel: invalid name '");
                r.append(s.as_str());
                r.append("' (allowed: [a-zA-Z0-9_-]{1,64})");
                r
            },
            CliError::InvalidSender(s) => {
                let mut r = String::from_str("as: invalid sender '");
                r.append(s.as_str());
                r.append("' (non-empty, no newline, length <= 64)");
                r
            },
            CliError::EmptyBody => String::from_str("body: must not be empty"),
            CliError::InvalidUlid(s) => {
                let mut r = String::from_str("since: not a valid ULID '");
                r.append(s.as_str());
                r.append("'");
                r
            },
            CliError::MissingBody => String::from_str(
                "body is required (use --body <TEXT> or --body -)",
            ),
        }
    }
}

} // verus!
