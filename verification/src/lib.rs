//! A verified core for a simple snapshot-based version tracker.
//!
//! The library models the state-tracking subsystem: working-tree
//! fingerprinting, change classification, the commit/branch data model
//! with its registry invariants, and undo/rollback. Filesystem walking,
//! persistence and the external version-control backend live outside the
//! library and hand it plain values.

pub mod errors;
pub mod fingerprint;
pub mod laws;
pub mod repo;
pub mod scanner;
pub mod snapshot;
pub mod text;
pub mod tracker;
