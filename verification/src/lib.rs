//! Verified listing of session rollout files.
//!
//! Work sessions are persisted as append-only JSON-lines files named
//! `rollout-<timestamp>-<id>.jsonl`, sharded into `year/month/day`
//! directories. This library proves the hard part of enumerating them:
//! decoding the filename grammar, ordering newest-first, resumable
//! pagination through opaque cursor tokens, a hard scan cap, and bounded
//! preview heads — all over a point-in-time snapshot of the directory tree
//! that the caller supplies. The caller does the actual filesystem reads and
//! hands in plain names and lines; `laws` states and proves the listing's
//! ordering and pagination guarantees.

pub mod timestamp;
pub mod ids;
pub mod filename;
pub mod cursor;
pub mod sort;
pub mod walk;
pub mod pager;
pub mod heads;
pub mod session;
pub mod runtime;
pub mod config_edit;
pub mod laws;

use vstd::prelude::*;

verus! {

/// Hard cap on the number of decoded rollout files inspected per listing
/// request, bounding worst-case work.
pub const MAX_SCAN_FILES: usize = 50000;

} // verus!
