//! The command set of the tool. The surrounding application derives its
//! argument parser from a mirror of these types and converts into them.

use vstd::prelude::*;

verus! {

/// Authentication subcommands.
#[derive(Debug, PartialEq, Eq, Structural)]
pub enum AuthCommands {
    /// Log in and store the token.
    Login,
    /// Log out and remove the token.
    Logout,
}

/// The tool's commands.
#[derive(Debug, PartialEq, Eq, Structural)]
pub enum Commands {
    /// Fetch saved searches and tags.
    Pull,
    /// Fetch and merge into the local configuration.
    Sync,
    /// Display planned changes between the local configuration and the
    /// remote state.
    Diff,
    /// Apply changes to the remote state.
    Push,
    /// Authentication commands.
    Auth(AuthCommands),
}

/// A parsed command line.
#[derive(Debug, PartialEq, Eq, Structural)]
pub struct Cli {
    pub command: Commands,
}

} // verus!
