//! The errors that resolving and applying a configuration can end in.

use vstd::prelude::*;

use crate::source::PackageSource;

verus! {

/// Why resolving or applying a configuration stopped.
#[derive(Debug, PartialEq)]
pub enum BlueprintError {
    /// A configuration file does not exist: the root file, or the target of
    /// a link, with the file that declared the link.
    ConfigNotFound { path: String, referenced_by: Option<String> },
    /// A configuration file could not be read as a configuration.
    ConfigParseError { path: String, message: String },
    /// The user declined to apply.
    UserAborted,
    /// A backend command could not be started.
    BackendInvocationError { source: PackageSource, command: String },
    /// A backend command ran and reported failure.
    BackendExecutionError { source: PackageSource, command: String, status: i32 },
}

} // verus!
