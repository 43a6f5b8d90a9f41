//! The commands that the tool runs.

use vstd::prelude::*;

verus! {

/// One operation of the tool.
pub enum Commands {
    /// Write a template configuration file at `file`.
    Init { file: String },
    /// Reconcile the system with the configuration rooted at `file`, reading
    /// the scope `section` of each file.
    Apply { file: String, section: String },
}

/// The parsed command line.
pub struct Args {
    pub command: Commands,
}

impl Commands {
    /// The name of the command, as the command line spells it.
    pub fn name(&self) -> (r: &'static str)
        ensures
            self is Init ==> r@ == "init"@,
            self is Apply ==> r@ == "apply"@,
    {
        match self {
            Commands::Init { .. } => "init",
            Commands::Apply { .. } => "apply",
        }
    }
}

} // verus!
