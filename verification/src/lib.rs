//! A verified core for a shell environment-profile switcher.
//!
//! Profiles are named key=value files. The library parses those files,
//! merges the variables of the requested profiles with a deterministic
//! last-profile-wins precedence, diffs the result against the set of
//! variables that the previous activation exported, and renders the
//! outcome either as shell `export`/`unset` commands or as a flat
//! environment file. All file reading, console printing and
//! configuration storage stay with the caller: every function here is
//! a pure computation over the values it is handed.

pub mod config;
pub mod env_var;
pub mod init;
pub mod laws;
pub mod merge;
pub mod parse;
pub mod render;
pub mod text;
