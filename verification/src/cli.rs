//! The commands of the program and their options, as plain values.

use crate::import_cmd::ImportCmd;
use crate::sync_cmd::SyncCmd;
use vstd::prelude::*;

verus! {

/// The name of the program.
pub const PROGRAM_NAME: &'static str = "yflow";

/// What was asked of the program.
#[derive(Debug)]
pub struct CliArgs {
    /// The path of the configuration file, where one was given.
    pub config: Option<String>,
    /// Say more about what is done.
    pub verbose: bool,
    /// The command.
    pub command: Commands,
}

/// The commands.
#[derive(Debug)]
pub enum Commands {
    /// Push the local translations to the store.
    Import(ImportCmd),
    /// Pull the store's translations into the local files.
    Sync(SyncCmd),
    /// Write a sample configuration file.
    Init {
        /// Where to write it, if not to the default place.
        output: Option<String>,
    },
    /// Show the version.
    Version,
    /// Show help, on everything or on one command.
    HelpCmd {
        /// The command to show help on.
        command: Option<String>,
    },
}

impl Commands {
    /// The configuration path that counts for a command: its own where it
    /// has one, else the one given to the program.
    pub fn config_path(own: Option<String>, global: Option<String>) -> (r: Option<String>)
        ensures
            r == match own {
                Some(path) => Some(path),
                None => global,
            },
    {
        match own {
            Some(path) => Some(path),
            None => global,
        }
    }
}

} // verus!
