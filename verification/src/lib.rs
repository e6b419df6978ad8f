//! Completion of C/C++ compilation databases with entries for header files.
//!
//! A compilation database lists, for each source file, the directory the
//! compiler ran in, the file it compiled and its argument vector. This library
//! holds the deduplicated table of such entries, the glob filters that select
//! which files are parsed and which discovered headers are kept, and the steps
//! that turn the headers found for an entry into new entries of the table.
pub mod command_table;
pub mod command_table_entry;
pub mod compilation_database;
pub mod context;
pub mod error;
pub mod glob_pattern;
pub mod order;
pub mod ordered_hash_set;
pub mod progress;

pub use command_table::CompileCommandsTable;
pub use command_table_entry::CompileCommandsTableEntry;
pub use compilation_database::{CompilationDatabase, CompilationDatabaseEntry};
pub use context::Context;
pub use error::Error;
pub use glob_pattern::GlobPattern;
pub use ordered_hash_set::OrderedHashSet;
