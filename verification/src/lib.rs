//! A local file index: tracked folders, their files, and the rules by which
//! filesystem changes are applied to them.

pub mod assoc;
pub mod database;
pub mod event_queue;
pub mod file_watcher;
pub mod hashing;
pub mod paths;
pub mod rescan;
pub mod sync_engine;
