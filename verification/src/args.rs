//! Plain data carried by the command line: which operation was asked for and
//! with which paths. Parsing the command line itself is left to the caller.

use vstd::prelude::*;

verus! {

/// The operation the user asked for.
#[derive(Debug, Clone)]
pub enum Subcommands {
    /// Set a directory up for syncing.
    Init(InitSubcommand),
    /// Encrypt and sync files.
    Sync(SyncSubCommand),
    /// Restore files from their encrypted form.
    Restore(RestoreSubcommand),
}

/// What a sync operation works on.
#[derive(Debug, Clone)]
pub struct SyncSubCommand {
    /// The pattern to look for.
    pub pattern: String,
    /// The path of the file to read.
    pub path: String,
}

/// What a restore operation works on.
#[derive(Debug, Clone)]
pub struct RestoreSubcommand {
    /// The pattern to look for.
    pub pattern: String,
    /// The path of the file to read.
    pub path: String,
}

/// Where to set the tool up.
#[derive(Debug, Clone)]
pub struct InitSubcommand {
    /// The directory to initialize.
    pub path: String,
}

} // verus!
