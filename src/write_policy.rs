//! Write concurrency model of a cell.

use vstd::prelude::*;

verus! {

/// The assumption a cell makes about concurrent writes.
pub trait WritePolicy {
    /// Whether writes on the cell may be concurrent.
    spec fn concurrent_spec() -> bool;

    fn concurrent() -> (r: bool)
        ensures
            r == Self::concurrent_spec(),
    ;
}

/// Writes may be concurrent: loads are monotonic, and compare-exchange is available. The clone
/// handshake advertises a per-thread generation instead of the cell's address.
pub struct Concurrent;

/// Writes are serialized by the caller (a mutex, a single writer task); concurrent writes stay
/// safe but may let a later load observe an older value.
pub struct Serialized;

impl WritePolicy for Concurrent {
    open spec fn concurrent_spec() -> bool {
        true
    }

    fn concurrent() -> (r: bool) {
        true
    }
}

impl WritePolicy for Serialized {
    open spec fn concurrent_spec() -> bool {
        false
    }

    fn concurrent() -> (r: bool) {
        false
    }
}

} // verus!
