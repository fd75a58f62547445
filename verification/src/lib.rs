//! A declarative filesystem-state reconciliation library.
//!
//! A desired-state document (`Config`) declares directories, empty files,
//! symbolic links, copied paths and shell commands. The engine decides, for
//! each declared item, whether the current state already satisfies it, how a
//! conflict with an existing entry is resolved, and what a dry run reports,
//! over an explicit model of the filesystem.

pub mod config;
pub mod engine;
pub mod fs_model;
pub mod laws;
pub mod paths;
