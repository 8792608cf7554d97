//! Filesystem-backed persistence for pipeline run records.
//!
//! A *run* is one recorded execution of a block pipeline: the launch
//! configuration (`RunConfig`) plus the ordered trace of per-block,
//! per-input, per-branch execution results. This crate owns the durable
//! representation: the directory layout under `.runs`, the byte-exact
//! serialization of configs and traces, the write-once identity rules,
//! and the ordering of listings. All filesystem access is left to the
//! embedding program, which executes the storage plans and hands read
//! bytes back to the verified core.

use vstd::prelude::*;

pub mod bytes;
pub mod config;
pub mod dec;
pub mod listing;
pub mod run;
pub mod scan;
pub mod trace;

verus! {

/// The error kinds surfaced by the storage layer.
///
/// Byte-string payloads carry the identifier that the failing request
/// named, so callers can diagnose without inspecting internals.
#[derive(Debug, PartialEq, Eq)]
pub enum RunError {
    /// No run directory (or block subdirectory) exists for the identifier.
    NotFound(Vec<u8>),
    /// A `store` was attempted for a run identifier already on disk.
    AlreadyExists(Vec<u8>),
    /// The named run's bytes do not parse as the expected structure, or
    /// its data cannot take the stored form.
    MalformedData(Vec<u8>),
    /// An underlying filesystem operation failed for the named run for
    /// environmental reasons.
    IOFailure(Vec<u8>),
    /// The workspace root or its `.runs` directory is missing.
    WorkspaceUninitialized,
}

} // verus!
