use vstd::prelude::*;

verus! {

/// Why an operation on the todo list or its snapshots failed.
#[derive(Clone, Copy, PartialEq, Eq, Structural, Debug)]
pub enum TodoError {
    /// No todo has this identifier.
    IdNotFound(usize),
    /// No snapshot has the requested timestamp.
    BackupNotFound,
    /// There is no stored todo list to take a snapshot of.
    SourceMissing,
    /// Stored contents break the list's invariant.
    InvalidStore,
}

} // verus!
