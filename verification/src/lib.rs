//! Copy-on-write Git worktrees: the decisions behind creating and compacting them.
//!
//! Paths are byte strings with Unix path semantics, and what a process or the
//! file system reported comes in as plain values.

pub mod add;
pub mod attributes;
pub mod bytes;
pub mod cli;
pub mod clock;
pub mod clones;
pub mod compact;
pub mod contents;
pub mod create;
pub mod digest;
pub mod directory;
pub mod donors;
pub mod eligibility;
pub mod error;
pub mod fresh;
pub mod git;
pub mod hook;
pub mod order;
pub mod output;
pub mod ownership;
pub mod pathmap;
pub mod paths;
pub mod plan;
pub mod platform;
pub mod populate;
pub mod process;
pub mod receipt;
pub mod replace;
pub mod requests;
pub mod seeding;
pub mod text;
pub mod tuning;
pub mod visit;
pub mod worktree;
