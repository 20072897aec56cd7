//! The reference-count collaborator: values with a count each, reached through raw addresses.

use vstd::prelude::*;

verus! {

/// Most values a heap can hold, so that every address fits a machine word.
pub const MAX_VALUES: usize = 0x3fff_fff0;

/// Raw address of the value at index `i`: a multiple of 4, never null.
pub open spec fn addr_of(i: int) -> int {
    4 * i + 4
}

/// Index of the value at raw address `a`.
pub open spec fn index_of(a: int) -> int {
    a / 4 - 1
}

/// An owned, counted reference to a value: it stands for one unit of the value's count.
pub struct Handle {
    pub addr: usize,
}

impl Handle {
    /// The raw address the handle refers to.
    pub open spec fn view(&self) -> usize {
        self.addr
    }

    /// Turns a handle into its raw address; its unit is now carried by whoever holds the address.
    pub fn into_ptr(h: Handle) -> (r: usize)
        ensures
            r == h@,
    {
        h.addr
    }

    /// Raw address of a handle, which keeps its unit.
    pub fn as_ptr(h: &Handle) -> (r: usize)
        ensures
            r == h@,
    {
        h.addr
    }

    /// Rebuilds a handle from a raw address, taking over one unit.
    pub fn from_ptr(a: usize) -> (h: Handle)
        ensures
            h@ == a,
    {
        Handle { addr: a }
    }
}

/// Values with their reference counts. A count of zero means the value was released.
pub struct Heap {
    pub values: Vec<u64>,
    pub counts: Vec<u64>,
}

impl Heap {
    pub open spec fn wf(&self) -> bool {
        &&& self.values.len() == self.counts.len()
        &&& self.counts.len() <= MAX_VALUES
    }

    /// `a` is the address of a value of this heap.
    pub open spec fn valid(&self, a: int) -> bool {
        &&& a >= 4
        &&& a % 4 == 0
        &&& index_of(a) < self.counts.len()
    }

    /// The reference count of the value at `a`.
    pub open spec fn count(&self, a: int) -> nat {
        self.counts@[index_of(a)] as nat
    }

    /// The value stored at `a`.
    pub open spec fn value(&self, a: int) -> u64 {
        self.values@[index_of(a)]
    }

    pub fn new() -> (r: Heap)
        ensures
            r.wf(),
            r.counts@.len() == 0,
    {
        Heap { values: Vec::new(), counts: Vec::new() }
    }

    /// Stores a new value with a count of one and returns the handle owning that unit.
    pub fn allocate(&mut self, v: u64) -> (h: Handle)
        requires
            old(self).wf(),
            old(self).counts.len() < MAX_VALUES,
        ensures
            final(self).wf(),
            h@ == addr_of(old(self).counts.len() as int),
            final(self).counts@ == old(self).counts@.push(1),
            final(self).values@ == old(self).values@.push(v),
    {
        let i = self.counts.len();
        self.values.push(v);
        self.counts.push(1);
        Handle { addr: 4 * i + 4 }
    }

    /// Adds one unit to the count of the value at `a`.
    pub fn incr_rc(&mut self, a: usize)
        requires
            old(self).wf(),
            old(self).valid(a as int),
            old(self).count(a as int) < u64::MAX,
        ensures
            final(self).wf(),
            final(self).values@ == old(self).values@,
            final(self).counts@ == old(self).counts@.update(
                index_of(a as int),
                (old(self).count(a as int) + 1) as u64,
            ),
    {
        let i = a / 4 - 1;
        let c = self.counts[i];
        self.counts.set(i, c + 1);
    }

    /// Takes one unit off the count of the value at `a`.
    pub fn decr_rc(&mut self, a: usize)
        requires
            old(self).wf(),
            old(self).valid(a as int),
            old(self).count(a as int) > 0,
        ensures
            final(self).wf(),
            final(self).values@ == old(self).values@,
            final(self).counts@ == old(self).counts@.update(
                index_of(a as int),
                (old(self).count(a as int) - 1) as u64,
            ),
    {
        let i = a / 4 - 1;
        let c = self.counts[i];
        self.counts.set(i, c - 1);
    }

    /// The reference count of the value at `a`.
    pub fn count_of(&self, a: usize) -> (r: u64)
        requires
            self.wf(),
            self.valid(a as int),
        ensures
            r == self.count(a as int),
    {
        self.counts[a / 4 - 1]
    }

    /// The value stored at `a`.
    pub fn value_of(&self, a: usize) -> (r: u64)
        requires
            self.wf(),
            self.valid(a as int),
        ensures
            r == self.value(a as int),
    {
        self.values[a / 4 - 1]
    }
}

} // verus!
