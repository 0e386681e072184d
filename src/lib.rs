use vstd::prelude::*;

pub mod backup;
pub mod cli;
pub mod config;
pub mod error;
pub mod order;
pub mod store;
pub mod text;

pub use backup::{
    backup_file_name, backup_files_to_delete, get_backup_file_path, get_config_file_path,
    get_todo_file_path, list_backup_timestamps, new_backup_file_path, trim_backup_file_name,
};
pub use cli::{BackupAction, Cli, DeleteOption, DeleteOptions, Pattern, SortBy};
pub use config::Config;
pub use error::TodoError;
pub use store::{Change, Outcome, Timestamp, Todo, TodoList};

verus! {

} // verus!
