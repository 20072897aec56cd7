//! A read-optimized atomic reference-counted cell, modelled as a verified state machine.
//!
//! Shared memory (reference counts, cells, thread nodes with their borrow slots and clone slot)
//! lives in a [`Domain`]; a cell is an [`AtomicArc`] naming its word there. Every operation is
//! a step over that memory, atomic with respect to the others, and a load may be taken in two
//! steps ([`AtomicArc::begin_load`], [`AtomicArc::finish_load`]) between which writers run:
//! that is where a writer meets a reservation not yet confirmed or a clone handshake in
//! progress. Ghost bookkeeping records who owns each unit of each reference count, and the
//! invariant of the domain, kept by every step, is stated over it.

mod tag;
pub mod heap;
pub mod domain;
pub mod write_policy;
pub mod atomic;
pub mod cache;
pub mod accounting;

pub use atomic::{ArcPtrBorrow, AtomicArc, PendingLoad};
pub use cache::Cache;
pub use domain::{Domain, DomainList, DomainNode, Owner};
pub use heap::{Handle, Heap};
pub use write_policy::{Concurrent, Serialized, WritePolicy};
