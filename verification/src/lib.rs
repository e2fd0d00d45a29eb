//! Incremental index of bare git repositories.
//!
//! The crate models the state that a repository browser keeps in its
//! key-value store — repository metadata records, per-reference commit logs,
//! per-repository tag maps and head lists — and verifies the engines that
//! maintain it: repository discovery decisions, metadata synchronization,
//! the incremental commit indexer with convergence detection and
//! self-healing rebuild, tag set reconciliation, head replacement, and the
//! dangling-repository guard.
//!
//! Reading directories, git object stores and the physical key-value store
//! is the caller's concern: the caller hands the engines plain values (byte
//! paths, commit walks in oldest-first order, tag listings, open outcomes)
//! and persists the states they produce.

pub mod bytes;
pub mod commit;
pub mod discovery;
pub mod kvstore;
pub mod paths;
pub mod refs;
pub mod repo;
pub mod tags;
