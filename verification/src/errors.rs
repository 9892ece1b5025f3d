//! The bootstrap failure taxonomy. Every variant is fatal at load time: the
//! caller reports the error to the operator and terminates, because the
//! server cannot run on partial or invalid configuration.

use vstd::prelude::*;

verus! {

/// A fatal condition met while resolving the command line or loading and
/// expanding the configuration files.
#[derive(Debug, Clone, PartialEq, Eq)]
pub enum BootstrapError {
    /// A malformed command-line token, or a missing `--config` parameter
    /// (`argument` is `None` in the missing case).
    UsageError { argument: Option<String> },
    /// The main or an included file could not be read.
    IoError { path: String },
    /// The external key-value parser rejected a file's contents.
    ParseError { path: String },
    /// A referenced macro name is absent from the table.
    UnknownMacro { name: String, key: String },
    /// An opening `%{` without its closing `}%`.
    UnterminatedMacro { fragment: String, key: String },
}

} // verus!
