//! Core logic of a fleet dashboard for local working copies: a line-level
//! unified-diff engine, a per-repository action decision engine, a
//! bounded-concurrency pull scheduler model, and a status aggregator.
//!
//! Everything here is pure decision and data logic, verified with Verus.
//! Subprocess execution, terminal handling and file I/O live outside the
//! library and hand plain values in and out.

pub mod strutil;
pub mod util;
pub mod common;
pub mod config;
pub mod diff;
pub mod find_ctrl;
pub mod git;
pub mod git_commit_ctrl;
pub mod git_history_ctrl;
pub mod git_stage_ctrl;
pub mod goto_ctrl;
pub mod grep_ctrl;
pub mod main_ctrl;
pub mod reg_list_ctrl;
pub mod registry;

use vstd::prelude::*;

verus! {

/// Upper bound kept for a single repository's pull log; older lines are
/// discarded first so a long-running pull cannot grow memory without bound.
pub const PULL_LOG_CAP: usize = 2000;

} // verus!
