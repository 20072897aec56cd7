//! A cache of the value of a cell, which makes loads of an unchanged cell free.

use vstd::prelude::*;

use crate::atomic::{holds_opt, load_ready, opt_ptr, ArcPtrBorrow, AtomicArc};
use crate::domain::{Domain, Owner};
use crate::heap::{index_of, Handle};

verus! {

/// A cell together with a handle for the last value loaded from it. The cached handle keeps
/// that value alive until a newer one is loaded.
pub struct Cache {
    pub inner: AtomicArc,
    pub cached: Option<Handle>,
}

impl Cache {
    /// The cache is one of domain `d`, and `d` accounts for its handle.
    pub open spec fn held_in(&self, d: Domain) -> bool {
        &&& self.inner.in_domain(d)
        &&& holds_opt(d, self.cached)
    }

    /// Creates a cache over `inner`, loading and keeping the value it holds.
    pub fn new(d: &mut Domain, node: usize, inner: AtomicArc) -> (r: Cache)
        requires
            load_ready(inner, *old(d), node as int),
        ensures
            final(d).wf(),
            r.held_in(*final(d)),
            r.inner == inner,
            opt_ptr(r.cached) == inner.ptr(*old(d)),
            final(d).cells == old(d).cells,
            final(d).writes == old(d).writes,
    {
        let cached = inner.load_owned(d, node);
        Cache { inner, cached }
    }

    /// The cached cell.
    pub fn inner(&self) -> (r: &AtomicArc)
        ensures
            *r == self.inner,
    {
        &self.inner
    }

    /// Gives the cell back, dropping the cached handle.
    pub fn into_inner(self, d: &mut Domain) -> (r: AtomicArc)
        requires
            old(d).wf(),
            self.held_in(*old(d)),
        ensures
            final(d).wf(),
            r == self.inner,
            opt_ptr(self.cached) == 0 ==> *final(d) == *old(d),
            opt_ptr(self.cached) != 0 ==> {
                &&& final(d).cells == old(d).cells
                &&& final(d).heap.counts@ == old(d).heap.counts@.update(
                    index_of(opt_ptr(self.cached) as int),
                    (old(d).heap.count(opt_ptr(self.cached) as int) - 1) as u64,
                )
                &&& final(d).owners@ == old(d).owners@.update(
                    index_of(opt_ptr(self.cached) as int),
                    old(d).owners@[index_of(opt_ptr(self.cached) as int)].remove(Owner::Outside),
                )
            },
    {
        match self.cached {
            Some(h) => d.drop_handle(h),
            None => {},
        }
        self.inner
    }

    /// The handle for the value the cell holds, reloaded only when the cell moved on.
    pub fn load(&mut self, d: &mut Domain, node: usize) -> (r: &Option<Handle>)
        requires
            load_ready(old(self).inner, *old(d), node as int),
            old(self).held_in(*old(d)),
        ensures
            final(d).wf(),
            final(self).held_in(*final(d)),
            final(self).inner == old(self).inner,
            opt_ptr(final(self).cached) == old(self).inner.ptr(*old(d)),
            *r == final(self).cached,
            final(d).cells == old(d).cells,
            final(d).writes == old(d).writes,
            opt_ptr(old(self).cached) == old(self).inner.ptr(*old(d)) ==> *final(d) == *old(d)
                && final(self).cached == old(self).cached,
    {
        self.inner.load_cached(d, node, &mut self.cached);
        &self.cached
    }

    /// The cached handle when the cell still holds its value, or else a fresh load; the cache
    /// itself is left as it is.
    pub fn load_shared(&self, d: &mut Domain, node: usize) -> (r: Result<&Option<Handle>, ArcPtrBorrow>)
        requires
            load_ready(self.inner, *old(d), node as int),
        ensures
            r is Ok <==> self.inner.ptr(*old(d)) == opt_ptr(self.cached),
            match r {
                Ok(x) => *final(d) == *old(d) && *x == self.cached,
                Err(b) => self.inner.load_post(*old(d), node as int, *final(d), b),
            },
    {
        self.inner.load_if_outdated(d, node, &self.cached)
    }
}

} // verus!
