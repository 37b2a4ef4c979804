//! The commands of the tool: their arguments and the decisions they make.

pub mod members;
pub mod read;
pub mod send;
pub mod validate;

use vstd::prelude::*;
use vstd::string::StringExecFns;

use crate::cli::members::MembersArgs;
use crate::cli::read::{opt_string, ReadArgs};
use crate::cli::send::SendArgs;
use crate::storage::paths::root_for;

pub use validate::{validate_channel_name, validate_sender, validate_ulid_string};

verus! {

/// The parsed command line.
#[derive(Debug)]
pub struct Cli {
    /// Override the channel storage root.
    pub root: Option<String>,
    pub command: Commands,
}

/// The subcommands.
#[derive(Debug)]
pub enum Commands {
    /// Send a message to a channel.
    Send(SendArgs),
    /// Read messages from a channel.
    Read(ReadArgs),
    /// List existing channels.
    Channels,
    /// Summarize who has spoken in a channel.
    Members(MembersArgs),
}

/// The values of `TSUJI_ROOT`, `XDG_DATA_HOME` and `HOME` (absent when unset
/// or not Unicode).
#[derive(Debug)]
pub struct Environment {
    pub tsuji_root: Option<String>,
    pub xdg_data_home: Option<String>,
    pub home: Option<String>,
}

/// Resolves the storage root for a command line and hands back the command
/// to run there.
pub fn dispatch(cli: Cli, env: &Environment) -> (r: (String, Commands))
    ensures
        r.0@ == root_for(
            opt_string(cli.root),
            opt_string(env.tsuji_root),
            opt_string(env.xdg_data_home),
            opt_string(env.home),
        ),
        r.1 == cli.command,
{
    let root = crate::storage::paths::resolve_root(
        as_str_opt(&cli.root),
        as_str_opt(&env.tsuji_root),
        as_str_opt(&env.xdg_data_home),
        as_str_opt(&env.home),
    );
    (root, cli.command)
}

fn as_str_opt(o: &Option<String>) -> (r: Option<&str>)
    ensures
        crate::storage::paths::opt_view(r) == opt_string(*o),
{
    match o {
        Some(s) => Some(s.as_str()),
        None => None,
    }
}

} // verus!
