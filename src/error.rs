//! Failures of brick actions.
use vstd::prelude::*;

verus! {

/// Why an action stopped.
#[derive(Clone, Copy, Debug, PartialEq, Eq, Structural)]
pub enum ActionError {
    /// The selector of a modification occurs nowhere in the target text.
    NoSelectorMatch,
    /// A modification names a target file that does not exist.
    TargetFileMissing,
    /// A file was to be created where one already exists.
    FileAlreadyExists,
    /// A file was to be read that does not exist.
    NotFound,
    /// The shell for a command could not be started.
    ProcessSpawnFailure,
}

} // verus!
