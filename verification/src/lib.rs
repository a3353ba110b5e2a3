//! An embedded, single-process, log-structured key-value store.
//!
//! The store keeps an append-only command log split into generation-numbered
//! segments, an in-memory index mapping each live key to the byte range of its
//! latest `Set` record, and a compactor that rewrites live records into a
//! fresh segment once the count of dead (unreachable) bytes crosses a
//! threshold. Reading a directory and writing segment files back to disk is
//! left to an unverified shell; the store itself works on the segment bytes
//! and is verified: every mutation keeps the index, the byte ranges and the
//! replay of the log in exact agreement.
use vstd::prelude::*;

pub mod codec;
pub mod logio;
pub mod paths;
pub mod store;

verus! {

/// The error taxonomy the store signals; I/O failures belong to the
/// unverified shell that owns the files and are not represented here.
#[derive(Debug, PartialEq, Eq, Structural)]
pub enum KvsError {
    /// `del` was asked to remove a key that is not present.
    KeyNotFound,
    /// An indexed byte range did not decode to the `Set` record it must hold.
    UnexpectedCommandType,
    /// A segment holds bytes that are not a record, other than a cleanly
    /// truncated tail.
    CorruptRecord,
}

} // verus!
