//! The error taxonomy: filesystem failures reported by the host's accessor,
//! and logic failures detected by the engine itself.

use vstd::prelude::*;

verus! {

/// Failures of the filesystem accessor, as classified by the host when a
/// rename or listing fails.
#[derive(Debug, Clone, Copy, PartialEq, Eq, Structural)]
pub enum FsErrorKind {
    NotFound,
    PermissionDenied,
    NotADirectory,
    CrossDevice,
    NameCollision,
    UnsupportedType,
    Other,
}

/// Logic failures of the explorer engine.
#[derive(Debug, Clone, Copy, PartialEq, Eq, Structural)]
pub enum EngineError {
    NoSelection,
    SelectedNotADirectory,
    RootHasNoParent,
}

impl EngineError {
    /// A short description, for hosts that display errors.
    pub fn describe(&self) -> (r: &'static str)
        ensures
            r@.len() > 0,
    {
        let r = match self {
            EngineError::NoSelection => "no entry is selected",
            EngineError::SelectedNotADirectory => "the selected entry is not a directory",
            EngineError::RootHasNoParent => "the root has no parent directory",
        };
        proof {
            reveal_strlit("no entry is selected");
            reveal_strlit("the selected entry is not a directory");
            reveal_strlit("the root has no parent directory");
        }
        r
    }
}

} // verus!
