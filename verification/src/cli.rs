//! The command surface of the tool, as plain data.
//!
//! Argument parsing lives in the surrounding application; it hands the
//! library one of these values.

use vstd::prelude::*;

verus! {

/// One invocation of the tool.
pub struct Cli {
    pub command: Commands,
}

/// The three user-facing commands.
pub enum Commands {
    /// Install a package from an archive file.
    Install { file: String },
    /// Remove a package record by name.
    Remove { name: String },
    /// List installed packages.
    List,
}

} // verus!
