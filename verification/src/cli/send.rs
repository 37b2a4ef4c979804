//! `send`: checking a message before it is appended to a channel.
//!
//! The body may come from standard input (`--body -`). Reading it is outside
//! work, so `run` is asked twice in that case: first without the input, when
//! it answers `NeedStdin`, then with what was read.

use vstd::prelude::*;
use vstd::string::StringExecFns;
use vstd::utf8::encode_utf8;

use crate::cli::validate::{valid_channel_name, valid_sender, validate_channel_name, validate_sender};
use crate::error::CliError;
use crate::storage::paths::{channel_file, channel_path};
use crate::text::{chars_of, string_from_chars};

verus! {

/// Arguments of `send`.
#[derive(Debug)]
pub struct SendArgs {
    /// Target channel.
    pub channel: String,
    /// Sender label (`--as`).
    pub from: String,
    /// Message body; `-` reads it from standard input.
    pub body: Option<String>,
}

/// What `send` does next.
#[derive(Debug, PartialEq, Eq)]
pub enum SendStep {
    /// The body is to be read from standard input; ask again with it.
    NeedStdin,
    /// Append a message from `from` with `body` to the log at `path`.
    Append { path: String, from: String, body: String },
}

/// Standard input loses one trailing line feed, and then one carriage return
/// before it, which shells and pipes add.
pub open spec fn trim_stdin(raw: Seq<char>) -> Seq<char> {
    if raw.len() > 0 && raw.last() == '\n' {
        let t = raw.drop_last();
        if t.len() > 0 && t.last() == '\r' {
            t.drop_last()
        } else {
            t
        }
    } else {
        raw
    }
}

/// Standard input loses exactly one line ending: text followed by a line
/// feed, or by a carriage return and a line feed, comes back as the text
/// (when the text itself does not end in a carriage return), and text that
/// does not end in a line feed comes back unchanged, so only one of several
/// final line feeds is removed.
pub proof fn lemma_trim_stdin_one_line_ending(text: Seq<char>)
    ensures
        trim_stdin(text + seq!['\r', '\n']) == text,
        (text.len() == 0 || text.last() != '\r') ==> trim_stdin(text + seq!['\n']) == text,
        (text.len() == 0 || text.last() != '\n') ==> trim_stdin(text) == text,
{
    assert((text + seq!['\r', '\n']).drop_last() =~= text + seq!['\r']);
    assert((text + seq!['\r']).drop_last() =~= text);
    assert((text + seq!['\n']).drop_last() =~= text);
}

/// The body that `send` would append, given the argument and standard input.
pub open spec fn chosen_body(body: Seq<char>, stdin: Option<Seq<char>>) -> Option<Seq<char>> {
    if body == seq!['-'] {
        match stdin {
            Some(raw) => Some(trim_stdin(raw)),
            None => None,
        }
    } else {
        Some(body)
    }
}

/// Removes one trailing line feed from text read on standard input, and then
/// one carriage return before it.
pub fn trim_stdin_body(raw: &str) -> (r: String)
    ensures
        r@ == trim_stdin(raw@),
{
    let mut cs = chars_of(raw);
    if cs.len() > 0 && cs[cs.len() - 1] == '\n' {
        cs.pop();
        if cs.len() > 0 && cs[cs.len() - 1] == '\r' {
            cs.pop();
        }
    }
    string_from_chars(cs.as_slice())
}

fn is_dash(s: &str) -> (r: bool)
    ensures
        r == (s@ == seq!['-']),
{
    let cs = chars_of(s);
    let r = cs.len() == 1 && cs[0] == '-';
    assert(r ==> cs@ =~= seq!['-']);
    r
}

/// Checks a `send` against the rules, in order: the channel name, the sender,
/// the presence of a body, and that the body is not empty. On success it
/// says where to append which message, or that standard input is needed.
pub fn run(root: &str, args: &SendArgs, stdin: Option<&str>) -> (r: Result<SendStep, CliError>)
    ensures
        !valid_channel_name(encode_utf8(args.channel@)) ==> (r matches Err(
            CliError::InvalidChannelName(t),
        ) && t@ == args.channel@),
        valid_channel_name(encode_utf8(args.channel@)) && !valid_sender(
            args.from@,
            encode_utf8(args.from@),
        ) ==> (r matches Err(CliError::InvalidSender(t)) && t@ == args.from@),
        valid_channel_name(encode_utf8(args.channel@)) && valid_sender(
            args.from@,
            encode_utf8(args.from@),
        ) ==> match args.body {
            None => r matches Err(CliError::MissingBody),
            Some(b) => match chosen_body(b@, crate::storage::paths::opt_view(stdin)) {
                None => r matches Ok(SendStep::NeedStdin),
                Some(text) => if text.len() == 0 {
                    r matches Err(CliError::EmptyBody)
                } else {
                    (r matches Ok(SendStep::Append { path, from, body }) && path@ == channel_file(
                        root@,
                        args.channel@,
                    ) && from@ == args.from@ && body@ == text)
                },
            },
        },
{
    validate_channel_name(args.channel.as_str())?;
    validate_sender(args.from.as_str())?;
    let body = match &args.body {
        None => {
            return Err(CliError::MissingBody);
        },
        Some(b) => {
            if is_dash(b.as_str()) {
                match stdin {
                    None => {
                        return Ok(SendStep::NeedStdin);
                    },
                    Some(raw) => trim_stdin_body(raw),
                }
            } else {
                b.clone()
            }
        },
    };
    if body.as_str().is_empty() {
        return Err(CliError::EmptyBody);
    }
    Ok(
        SendStep::Append {
            path: channel_path(root, args.channel.as_str()),
            from: args.from.clone(),
            body,
        },
    )
}

} // verus!
