//! Paired benchmarking of two Git revisions.

pub mod analysis;
pub mod arguments;
pub mod artifact;
pub mod command_line;
pub mod config;
pub mod document;
pub mod executable;
pub mod execution;
pub mod generator;
pub mod hooks;
pub mod lifecycle;
pub mod measurements;
pub mod metric;
pub mod platform;
pub mod posterior;
pub mod repetition;
pub mod report;
pub mod run;
pub mod scalar;
pub mod seed;
pub mod setting;
pub mod suite;
pub mod summary;
pub mod text;
pub mod windows;
pub mod worktree;
