use vstd::prelude::*;

verus! {

/// A parsed command line: the command to run, or none to list the todos.
pub struct Cli {
    pub pattern: Option<Pattern>,
}

/// The commands of the todo tool.
pub enum Pattern {
    List,
    Add { args: Vec<String> },
    Edit { id: usize, description: Vec<String> },
    Filter { query: Vec<String> },
    Done { args: Vec<usize> },
    Undone { args: Vec<usize> },
    Star { args: Vec<usize> },
    Rm { args: Vec<usize> },
    Reset,
    Sort { sort_by: Option<SortBy> },
    Backup { name: Option<BackupAction> },
}

/// What to do with snapshots; listing them when none is given.
pub enum BackupAction {
    List,
    Create,
    Open { timestamp: String },
    Restore { timestamp: String, args: Vec<usize> },
    Delete(DeleteOptions),
}

/// Which snapshots to delete.
pub struct DeleteOptions {
    pub option: DeleteOption,
}

/// Every snapshot, or the one with the given timestamp.
pub enum DeleteOption {
    All,
    Timestamp { timestamp: String },
}

/// The orders in which todos can be sorted.
#[derive(Clone, Copy, PartialEq, Eq, Structural, Debug)]
pub enum SortBy {
    Id,
    Date,
    Done,
}

} // verus!
