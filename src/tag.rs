use vstd::prelude::*;

verus! {

/// Low bit of a clone slot: the reader advertised that it is loading (`PREPARE`).
pub const PREPARE_CLONE_FLAG: usize = 1;

/// Step of the per-thread generation counter, which keeps the `PREPARE` bit free.
pub const GENERATION_INCR: usize = 2;

/// Largest generation before the thread node has to be given back.
pub const MAX_GENERATION: usize = usize::MAX - 1;

} // verus!
