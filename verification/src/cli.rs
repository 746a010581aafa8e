//! The command-line arguments the editor is started with, as plain data;
//! the process-argument parsing itself lives with the binary.

use vstd::prelude::*;

verus! {

/// Everything the editor can be asked to do from the command line.
pub struct Cli {
    /// An explicit subcommand, if one was given.
    pub command: Option<Command>,
    /// The command line to edit, one process argument per word.
    pub wrapped_command: Vec<String>,
}

/// The explicit subcommands.
pub enum Command {
    /// Print the integration script for a shell, with an optional key
    /// binding for zsh.
    Init { shell: String, bindkey: Option<String> },
}

} // verus!
