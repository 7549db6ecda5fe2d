//! Command-line options, as plain data. The binary front end parses its
//! arguments into these.

use vstd::prelude::*;

verus! {

/// The subcommands the tool offers.
pub enum Commands {
    /// Scan a directory tree for session layout files and simplify them;
    /// with `dry_run` set, report what would change without writing.
    ScanLayouts { path: String, dry_run: bool },
}

/// The command-line options: an optional subcommand and a global verbose
/// flag.
pub struct Cli {
    pub command: Option<Commands>,
    pub verbose: bool,
}

} // verus!
