//! reclaim: find and reclaim disk space from dev junk.
//!
//! [`targets`] knows what to look for, [`scanner`] decides what a walk finds and orders it,
//! [`cleaner`] reports on removing it, [`menu`] reads the start screen's answers, [`tui`] is
//! the interactive selection's state, [`cli`] decides what a run does, and [`format`] writes
//! sizes and durations.

pub mod cleaner;
pub mod cli;
pub mod format;
pub mod menu;
pub mod paths;
pub mod scanner;
pub mod targets;
pub mod text;
pub mod tui;
pub mod summary;
pub mod lines;
