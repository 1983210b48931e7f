//! A revision-guarded, asynchronously-computed line diff engine.
//!
//! The crate keeps a line-level comparison between two independently
//! editable text buffers up to date: every buffer mutation bumps a
//! revision counter, a change detector fires on a new
//! `(identity, revision)` pair, the scheduler captures snapshots of both
//! sides into a diff job, the worker computes a longest-common-subsequence
//! line diff, and the result gate publishes the result to both views only
//! if neither buffer's revision moved since dispatch.

pub mod diff;
pub mod engine;
pub mod laws;
pub mod lines;
