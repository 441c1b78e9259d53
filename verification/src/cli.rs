//! The commands of the command-line tool.

use vstd::prelude::*;

verus! {

/// The parsed command line.
#[derive(Debug, Clone)]
pub struct Cli {
    pub command: Commands,
}

/// The subcommands.
#[derive(Debug, Clone)]
pub enum Commands {
    /// Initialize a new workspace.
    Init,
    /// Build all modules of the workspace, or only `machine`.
    Build { config: String, machine: Option<String> },
    /// Compile one source file for comma-separated target languages.
    Compile { source: String, langs: String, out_dir: String },
}

} // verus!
