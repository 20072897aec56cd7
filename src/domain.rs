//! Thread nodes and the domain that holds them, with the shared reference counts.

use vstd::prelude::*;
use vstd::multiset::*;

use crate::heap::{addr_of, index_of, Handle, Heap, MAX_VALUES};

verus! {

/// Most thread nodes a domain links.
pub const MAX_NODES: usize = 0x1_0000;

/// Most borrow slots a thread node holds.
pub const MAX_SLOTS: usize = 0x1_0000;

/// Counts stay below this bound, so that one operation's increments cannot overflow them.
pub const ROOM: u64 = 0x4000_0000_0000_0000;

/// One thread's record: its borrow slots, its clone slot and its bookkeeping.
pub struct DomainNode {
    /// Owned by some thread.
    pub in_use: bool,
    /// Each word is `FREE` (zero) or `RESERVED(addr)`.
    pub borrow_slots: Vec<usize>,
    /// `IDLE` (zero), `PREPARE(k)`, or an address deposited by a writer.
    pub clone_slot: usize,
    /// The cell the thread is cloning from (concurrent-writer policy).
    pub atomic_arc_slot: usize,
    /// Generation of the next `PREPARE` advertisement (concurrent-writer policy).
    pub clone_generation: usize,
    /// Round-robin cursor into the borrow slots.
    pub next_borrow_slot_idx: usize,
}

impl DomainNode {
    pub open spec fn wf(&self, slot_count: nat) -> bool {
        &&& self.borrow_slots@.len() == slot_count
        &&& slot_count == 0 || self.next_borrow_slot_idx < slot_count
        &&& self.clone_generation % 2 == 0
    }

    /// No borrow slot is reserved and the clone slot is idle.
    pub open spec fn quiescent(&self) -> bool {
        &&& self.clone_slot == 0
        &&& forall|s: int| 0 <= s < self.borrow_slots@.len() ==> self.borrow_slots@[s] == 0
    }

    /// A freshly allocated node, all words zero but its usage flag.
    pub fn allocate(slot_count: usize, in_use: bool) -> (r: DomainNode)
        ensures
            r.wf(slot_count as nat),
            r.quiescent(),
            r.in_use == in_use,
            r.atomic_arc_slot == 0,
            r.clone_generation == 0,
            r.next_borrow_slot_idx == 0,
    {
        let mut borrow_slots: Vec<usize> = Vec::new();
        let mut i: usize = 0;
        while i < slot_count
            invariant
                i <= slot_count,
                borrow_slots@.len() == i,
                forall|s: int| 0 <= s < i ==> borrow_slots@[s] == 0,
            decreases slot_count - i,
        {
            borrow_slots.push(0);
            i = i + 1;
        }
        DomainNode {
            in_use,
            borrow_slots,
            clone_slot: 0,
            atomic_arc_slot: 0,
            clone_generation: 0,
            next_borrow_slot_idx: 0,
        }
    }
}

/// The list of thread nodes. A node, once linked, stays; it is recycled by clearing `in_use`.
pub struct DomainList {
    pub nodes: Vec<DomainNode>,
    pub borrow_slot_count: usize,
}

/// `r` is where `acquire_node` lands: the first node not in use, or the end of the list.
pub open spec fn first_free(nodes: Seq<DomainNode>, r: int) -> bool {
    &&& 0 <= r <= nodes.len()
    &&& forall|j: int| 0 <= j < r ==> #[trigger] nodes[j].in_use
    &&& r < nodes.len() ==> !nodes[r].in_use
}

/// A clone-slot word that holds no unit: `IDLE`, or `PREPARE`.
pub open spec fn unit_free(w: usize) -> bool {
    w == 0 || w % 2 == 1
}

/// Two nodes agree on every word but their clone slots.
pub open spec fn same_but_clone(a: DomainNode, b: DomainNode) -> bool {
    &&& a.in_use == b.in_use
    &&& a.borrow_slots@ == b.borrow_slots@
    &&& a.atomic_arc_slot == b.atomic_arc_slot
    &&& a.clone_generation == b.clone_generation
    &&& a.next_borrow_slot_idx == b.next_borrow_slot_idx
}

/// Two nodes agree on every word but their borrow slots.
pub open spec fn same_but_slots(a: DomainNode, b: DomainNode) -> bool {
    &&& a.in_use == b.in_use
    &&& a.clone_slot == b.clone_slot
    &&& a.atomic_arc_slot == b.atomic_arc_slot
    &&& a.clone_generation == b.clone_generation
    &&& a.next_borrow_slot_idx == b.next_borrow_slot_idx
}

impl DomainList {
    pub open spec fn wf(&self) -> bool {
        &&& self.borrow_slot_count <= MAX_SLOTS
        &&& self.nodes@.len() <= MAX_NODES
        &&& forall|n: int|
            0 <= n < self.nodes@.len() ==> #[trigger] self.nodes@[n].wf(
                self.borrow_slot_count as nat,
            )
    }

    /// The word in borrow slot `s` of node `n`.
    pub open spec fn slot(&self, n: int, s: int) -> usize {
        self.nodes@[n].borrow_slots@[s]
    }

    pub open spec fn slot_in_range(&self, n: int, s: int) -> bool {
        0 <= n < self.nodes@.len() && 0 <= s < self.borrow_slot_count
    }

    pub fn new(borrow_slot_count: usize) -> (r: DomainList)
        requires
            borrow_slot_count <= MAX_SLOTS,
        ensures
            r.wf(),
            r.nodes@.len() == 0,
            r.borrow_slot_count == borrow_slot_count,
    {
        DomainList { nodes: Vec::new(), borrow_slot_count }
    }

    /// Index of the first node not in use, or the number of nodes when all are taken.
    pub fn find_free(&self) -> (r: usize)
        ensures
            first_free(self.nodes@, r as int),
    {
        let mut i: usize = 0;
        while i < self.nodes.len()
            invariant
                i <= self.nodes@.len(),
                forall|j: int| 0 <= j < i ==> #[trigger] self.nodes@[j].in_use,
            decreases self.nodes@.len() - i,
        {
            if !self.nodes[i].in_use {
                return i;
            }
            i = i + 1;
        }
        i
    }

    /// Takes the first node not in use; links a new one at the tail when every node is taken.
    pub fn acquire_node(&mut self) -> (r: usize)
        requires
            old(self).wf(),
            old(self).nodes@.len() < MAX_NODES,
        ensures
            final(self).wf(),
            first_free(old(self).nodes@, r as int),
            final(self).borrow_slot_count == old(self).borrow_slot_count,
            r < old(self).nodes@.len() ==> final(self).nodes@ == old(self).nodes@.update(
                r as int,
                DomainNode { in_use: true, ..old(self).nodes@[r as int] },
            ),
            r == old(self).nodes@.len() ==> {
                &&& final(self).nodes@.len() == r + 1
                &&& final(self).nodes@.take(r as int) == old(self).nodes@
                &&& final(self).nodes@[r as int].in_use
                &&& final(self).nodes@[r as int].quiescent()
                &&& final(self).nodes@[r as int].clone_generation == 0
                &&& final(self).nodes@[r as int].next_borrow_slot_idx == 0
                &&& final(self).nodes@[r as int].atomic_arc_slot == 0
            },
    {
        let r = self.find_free();
        if r < self.nodes.len() {
            let ghost before = self.nodes@;
            let mut node = self.nodes.remove(r);
            node.in_use = true;
            self.nodes.insert(r, node);
            assert(self.nodes@ =~= before.update(r as int, DomainNode { in_use: true, ..before[r as int] }));
            assert forall|n: int| 0 <= n < self.nodes@.len() implies #[trigger] self.nodes@[n].wf(
                self.borrow_slot_count as nat,
            ) by {
                assert(before[n].wf(self.borrow_slot_count as nat));
            }
        } else {
            let node = DomainNode::allocate(self.borrow_slot_count, true);
            self.nodes.push(node);
            assert(self.nodes@.take(r as int) =~= old(self).nodes@);
        }
        r
    }

    /// Stores `v` into borrow slot `s` of node `n`.
    pub(crate) fn set_slot(&mut self, n: usize, s: usize, v: usize)
        requires
            old(self).wf(),
            old(self).slot_in_range(n as int, s as int),
        ensures
            final(self).wf(),
            final(self).borrow_slot_count == old(self).borrow_slot_count,
            final(self).nodes@.len() == old(self).nodes@.len(),
            forall|m: int| 0 <= m < old(self).nodes@.len() && m != n ==> #[trigger] final(self).nodes@[m] == old(self).nodes@[m],
            same_but_slots(final(self).nodes@[n as int], old(self).nodes@[n as int]),
            final(self).nodes@[n as int].borrow_slots@ == old(self).nodes@[n as int].borrow_slots@.update(s as int, v),
    {
        let ghost before = self.nodes@;
        assert(before[n as int].wf(self.borrow_slot_count as nat));
        let mut node = self.nodes.remove(n);
        node.borrow_slots.set(s, v);
        self.nodes.insert(n, node);
        assert forall|m: int| 0 <= m < self.nodes@.len() implies #[trigger] self.nodes@[m].wf(
            self.borrow_slot_count as nat,
        ) by {
            assert(before[m].wf(self.borrow_slot_count as nat));
        }
    }

    /// Replaces the clone slot, generation and cursor words of node `n`.
    pub(crate) fn set_words(&mut self, n: usize, clone_slot: usize, atomic_arc_slot: usize, clone_generation: usize, next_borrow_slot_idx: usize)
        requires
            old(self).wf(),
            n < old(self).nodes@.len(),
            clone_generation % 2 == 0,
            old(self).borrow_slot_count == 0 || next_borrow_slot_idx < old(self).borrow_slot_count,
        ensures
            final(self).wf(),
            final(self).borrow_slot_count == old(self).borrow_slot_count,
            final(self).nodes@.len() == old(self).nodes@.len(),
            forall|m: int| 0 <= m < old(self).nodes@.len() && m != n ==> #[trigger] final(self).nodes@[m] == old(self).nodes@[m],
            final(self).nodes@[n as int].borrow_slots@ == old(self).nodes@[n as int].borrow_slots@,
            final(self).nodes@[n as int].in_use == old(self).nodes@[n as int].in_use,
            final(self).nodes@[n as int].clone_slot == clone_slot,
            final(self).nodes@[n as int].atomic_arc_slot == atomic_arc_slot,
            final(self).nodes@[n as int].clone_generation == clone_generation,
            final(self).nodes@[n as int].next_borrow_slot_idx == next_borrow_slot_idx,
    {
        let ghost before = self.nodes@;
        let mut node = self.nodes.remove(n);
        node.clone_slot = clone_slot;
        node.atomic_arc_slot = atomic_arc_slot;
        node.clone_generation = clone_generation;
        node.next_borrow_slot_idx = next_borrow_slot_idx;
        self.nodes.insert(n, node);
        assert forall|m: int| 0 <= m < self.nodes@.len() implies #[trigger] self.nodes@[m].wf(
            self.borrow_slot_count as nat,
        ) by {
            assert(before[m].wf(self.borrow_slot_count as nat));
        }
    }

    /// Gives node `n` back to the list for another thread to acquire.
    pub fn release_node(&mut self, n: usize)
        requires
            old(self).wf(),
            n < old(self).nodes@.len(),
        ensures
            final(self).wf(),
            final(self).borrow_slot_count == old(self).borrow_slot_count,
            final(self).nodes@ == old(self).nodes@.update(
                n as int,
                DomainNode { in_use: false, ..old(self).nodes@[n as int] },
            ),
    {
        let ghost before = self.nodes@;
        let mut node = self.nodes.remove(n);
        node.in_use = false;
        self.nodes.insert(n, node);
        assert(self.nodes@ =~= before.update(n as int, DomainNode { in_use: false, ..before[n as int] }));
        assert forall|m: int| 0 <= m < self.nodes@.len() implies #[trigger] self.nodes@[m].wf(
            self.borrow_slot_count as nat,
        ) by {
            assert(before[m].wf(self.borrow_slot_count as nat));
        }
    }
}


/// Most cells a domain hands out identifiers to.
pub const MAX_CELLS: usize = 0x3fff_fff0;

/// Who holds one unit of a value's count.
pub enum Owner {
    /// The cell with this identifier: its current address.
    Cell(usize),
    /// A handle, an unbound borrow, or a unit an operation holds in hand.
    Outside,
    /// Transferred by a writer into borrow slot `(node, slot)`, for the borrows bound there.
    Slot(usize, usize),
    /// Deposited by a writer into the clone slot of a node, for the load in progress there.
    Clone(usize),
}

/// The shared memory of the protocol: reference counts, thread nodes, and the bookkeeping of
/// who owns each unit of each count.
pub struct Domain {
    pub heap: Heap,
    pub list: DomainList,
    /// The word of each cell, by identifier: the raw address it holds, zero when null.
    pub cells: Vec<usize>,
    /// For each cell, how many values have been written into it, in order.
    pub writes: Ghost<Seq<nat>>,
    /// For each value, the owners of the units of its count.
    pub owners: Ghost<Seq<Multiset<Owner>>>,
    /// For each borrow slot, the addresses of the live borrows bound to it.
    pub claims: Ghost<Seq<Seq<Multiset<usize>>>>,
}

impl Domain {
    /// Number of units of the value at `a` held by `o`.
    pub open spec fn units(&self, a: int, o: Owner) -> nat {
        self.owners@[index_of(a)].count(o)
    }

    /// Number of live borrows bound to slot `(n, s)` for the address `a`.
    pub open spec fn claim(&self, n: int, s: int, a: int) -> nat {
        self.claims@[n][s].count(a as usize)
    }

    /// Some cell holds the value at `a`, and with it one unit.
    pub open spec fn in_some_cell(&self, a: int) -> bool {
        exists|c: usize| #[trigger] self.units(a, Owner::Cell(c)) > 0
    }

    pub open spec fn owner_in_range(&self, o: Owner) -> bool {
        match o {
            Owner::Cell(c) => c < self.cells@.len(),
            Owner::Outside => true,
            Owner::Slot(n, s) => self.list.slot_in_range(n as int, s as int),
            Owner::Clone(n) => n < self.list.nodes@.len(),
        }
    }

    /// The count of value `i` is the number of units its owners hold, and each cell holding the
    /// value holds exactly one of them.
    pub open spec fn count_balanced(&self, i: int) -> bool {
        &&& self.heap.counts@[i] == self.owners@[i].len()
        &&& forall|o: Owner| #[trigger] self.owners@[i].count(o) > 0 ==> self.owner_in_range(o)
        &&& forall|c: usize|
            c < self.cells@.len() ==> #[trigger] self.owners@[i].count(Owner::Cell(c)) == if self.cells@[c as int]
                == addr_of(i) {
                1nat
            } else {
                0nat
            }
    }

    /// The clone slot of node `n` holds a unit of value `i` exactly when a writer deposited the
    /// value there.
    pub open spec fn clone_balanced(&self, n: int, i: int) -> bool {
        self.owners@[i].count(Owner::Clone(n as usize)) == if self.list.nodes@[n].clone_slot
            == addr_of(i) {
            1nat
        } else {
            0nat
        }
    }

    /// The clone slot of node `n` is `IDLE`, advertises `PREPARE`, or holds the address of a
    /// value a writer deposited there. A reader confirms and clears its handshake in one step,
    /// so between steps no clone slot shows `CONFIRM`.
    pub open spec fn clone_valid(&self, n: int) -> bool {
        let w = self.list.nodes@[n].clone_slot;
        w == 0 || w % 2 == 1 || self.heap.valid(w as int)
    }

    /// The units transferred into slot `(n, s)` for value `i`, plus the reservation the slot
    /// still shows, are exactly the borrows bound there for that value.
    pub open spec fn slot_balanced(&self, n: int, s: int, i: int) -> bool {
        self.owners@[i].count(Owner::Slot(n as usize, s as usize)) + (if self.list.slot(n, s)
            == addr_of(i) {
            1int
        } else {
            0int
        }) == self.claim(n, s, addr_of(i))
    }

    /// A reserved slot holds a value of the heap, and borrows are bound only to such values.
    pub open spec fn slot_valid(&self, n: int, s: int) -> bool {
        &&& self.list.slot(n, s) == 0 || self.heap.valid(self.list.slot(n, s) as int)
        &&& forall|a: usize| #[trigger] self.claims@[n][s].count(a) > 0 ==> self.heap.valid(a as int)
    }

    /// Every reserved slot other than `x` shows a value that some cell holds.
    pub open spec fn slot_protected(&self, n: int, s: int, x: usize) -> bool {
        let v = self.list.slot(n, s);
        v != 0 && v != x ==> self.in_some_cell(v as int)
    }

    /// The invariant of the domain, except that reservations of `x` may have lost their cell:
    /// the state of a writer that has replaced `x` and not yet scanned every node.
    pub open spec fn inv(&self, x: usize) -> bool {
        &&& self.heap.wf()
        &&& self.list.wf()
        &&& self.cells@.len() < MAX_CELLS
        &&& self.writes@.len() == self.cells@.len()
        &&& forall|c: int|
            0 <= c < self.cells@.len() ==> #[trigger] self.cells@[c] == 0 || self.heap.valid(
                self.cells@[c] as int,
            )
        &&& self.owners@.len() == self.heap.counts@.len()
        &&& self.claims@.len() == self.list.nodes@.len()
        &&& forall|n: int|
            0 <= n < self.list.nodes@.len() ==> (#[trigger] self.claims@[n]).len()
                == self.list.borrow_slot_count
        &&& forall|i: int| 0 <= i < self.heap.counts@.len() ==> #[trigger] self.count_balanced(i)
        &&& forall|n: int| 0 <= n < self.list.nodes@.len() ==> #[trigger] self.clone_valid(n)
        &&& forall|n: int, i: int|
            0 <= n < self.list.nodes@.len() && 0 <= i < self.heap.counts@.len()
                ==> #[trigger] self.clone_balanced(n, i)
        &&& forall|n: int, s: int|
            self.list.slot_in_range(n, s) ==> #[trigger] self.slot_valid(n, s)
        &&& forall|n: int, s: int|
            self.list.slot_in_range(n, s) ==> #[trigger] self.slot_protected(n, s, x)
        &&& forall|n: int, s: int, i: int|
            self.list.slot_in_range(n, s) && 0 <= i < self.heap.counts@.len()
                ==> #[trigger] self.slot_balanced(n, s, i)
    }

    /// The invariant of the domain between operations.
    pub open spec fn wf(&self) -> bool {
        self.inv(0)
    }

    /// No count is near overflow.
    pub open spec fn room(&self) -> bool {
        forall|i: int| 0 <= i < self.heap.counts@.len() ==> #[trigger] self.heap.counts@[i] < ROOM
    }

    /// A handle, or an unbound borrow, for the value at `a` may be held outside the domain.
    pub open spec fn holds(&self, a: int) -> bool {
        &&& self.heap.valid(a)
        &&& self.units(a, Owner::Outside) > 0
    }

    /// Creates an empty domain whose thread nodes have `borrow_slot_count` borrow slots.
    pub fn new(borrow_slot_count: usize) -> (r: Domain)
        requires
            borrow_slot_count <= MAX_SLOTS,
        ensures
            r.wf(),
            r.room(),
            r.heap.counts@.len() == 0,
            r.list.nodes@.len() == 0,
            r.list.borrow_slot_count == borrow_slot_count,
            r.cells@.len() == 0,
    {
        Domain {
            heap: Heap::new(),
            list: DomainList::new(borrow_slot_count),
            cells: Vec::new(),
            writes: Ghost(Seq::empty()),
            owners: Ghost(Seq::empty()),
            claims: Ghost(Seq::empty()),
        }
    }
}


impl Domain {
    /// Publishes address `p` into the free borrow slot `(n, s)` for a borrow bound there.
    pub(crate) fn reserve_slot(&mut self, n: usize, s: usize, p: usize, Ghost(x): Ghost<usize>)
        requires
            old(self).inv(x),
            old(self).list.slot_in_range(n as int, s as int),
            old(self).list.slot(n as int, s as int) == 0,
            old(self).heap.valid(p as int),
            old(self).in_some_cell(p as int),
        ensures
            final(self).inv(x),
            final(self).heap == old(self).heap,
            final(self).owners == old(self).owners,
            final(self).cells == old(self).cells,
            final(self).writes == old(self).writes,
            final(self).list.borrow_slot_count == old(self).list.borrow_slot_count,
            final(self).list.nodes@.len() == old(self).list.nodes@.len(),
            forall|m: int| 0 <= m < old(self).list.nodes@.len() && m != n ==> #[trigger] final(self).list.nodes@[m] == old(self).list.nodes@[m],
            same_but_slots(final(self).list.nodes@[n as int], old(self).list.nodes@[n as int]),
            final(self).list.nodes@[n as int].borrow_slots@ == old(self).list.nodes@[n as int].borrow_slots@.update(s as int, p),
            final(self).claims@ == old(self).claims@.update(
                n as int,
                old(self).claims@[n as int].update(s as int, old(self).claims@[n as int][s as int].insert(p)),
            ),
    {
        broadcast use group_multiset_axioms, group_multiset_properties;
        assert(self.list.nodes@[n as int].wf(self.list.borrow_slot_count as nat));
        self.list.set_slot(n, s, p);
        let ghost cl = self.claims@;
        self.claims = Ghost(cl.update(n as int, cl[n as int].update(s as int, cl[n as int][s as int].insert(p))));
        let ghost o = *old(self);
        assert forall|m: int| 0 <= m < self.list.nodes@.len() implies (#[trigger] self.claims@[m]).len() == self.list.borrow_slot_count by {
            assert(o.claims@[m].len() == o.list.borrow_slot_count);
        }
        assert forall|m: int, t: int| #![trigger self.slot_valid(m, t)] #![trigger self.slot_protected(m, t, x)]
            self.list.slot_in_range(m, t) implies self.slot_valid(m, t) && self.slot_protected(m, t, x) by {
            assert(o.slot_valid(m, t));
            assert(o.slot_protected(m, t, x));
            let v = self.list.slot(m, t);
            if v != 0 && v != x && o.in_some_cell(v as int) {
                let c = choose|c: usize| #[trigger] o.units(v as int, Owner::Cell(c)) > 0;
                assert(self.units(v as int, Owner::Cell(c)) > 0);
            }
            if m != n as int {
                assert(self.list.nodes@[m] == o.list.nodes@[m]);
            }
            if m == n as int && t == s as int {
                assert(self.list.slot(m, t) == p);
                assert forall|a: usize| #[trigger] self.claims@[m][t].count(a) > 0 implies self.heap.valid(a as int) by {
                    if a != p {
                        assert(o.claims@[m][t].count(a) > 0);
                    }
                }
            } else {
                assert(self.list.slot(m, t) == o.list.slot(m, t));
                assert(self.claims@[m][t] == o.claims@[m][t]);
            }
        }
        assert forall|m: int, t: int, i: int|
            self.list.slot_in_range(m, t) && 0 <= i < self.heap.counts@.len()
                implies #[trigger] self.slot_balanced(m, t, i) by {
            assert(o.slot_balanced(m, t, i));
            if m != n as int {
                assert(self.list.nodes@[m] == o.list.nodes@[m]);
            }
            if m == n as int && t == s as int {
                assert(self.list.slot(m, t) == p);
                assert(o.list.slot(m, t) == 0);
            } else {
                assert(self.list.slot(m, t) == o.list.slot(m, t));
                assert(self.claims@[m][t] == o.claims@[m][t]);
            }
        }
        assert forall|i: int| 0 <= i < self.heap.counts@.len() implies #[trigger] self.count_balanced(i) by {
            assert(o.count_balanced(i));
        }
        proof {
            assert forall|m: int| 0 <= m < o.list.nodes@.len() implies #[trigger] self.list.nodes@[m].clone_slot == o.list.nodes@[m].clone_slot by {
                if m != n as int {
                    assert(self.list.nodes@[m] == o.list.nodes@[m]);
                }
            }
            lemma_clone_frame(o, *self);
        }
    }
}


/// Removing one of the `x` a multiset holds.
pub(crate) proof fn lemma_remove<V>(m: Multiset<V>, x: V)
    requires
        m.count(x) > 0,
    ensures
        m.remove(x).len() == m.len() - 1,
        m.remove(x).count(x) == m.count(x) - 1,
        forall|y: V| y != x ==> #[trigger] m.remove(x).count(y) == m.count(y),
{
    broadcast use group_multiset_axioms;

    assert(Multiset::singleton(x).subset_of(m));
}

/// Whether some cell holds a value depends on the owners alone.
proof fn lemma_in_some_cell_same(a: Domain, b: Domain, v: int)
    requires
        a.owners == b.owners,
        a.in_some_cell(v),
    ensures
        b.in_some_cell(v),
{
    let c = choose|c: usize| #[trigger] a.units(v, Owner::Cell(c)) > 0;
    assert(b.units(v, Owner::Cell(c)) > 0);
}

/// The invariant reads only the counts, the owners, the claims, the cells, the shape of the list,
/// its borrow slots and the units its clone slots hold.
proof fn lemma_inv_frame(a: Domain, b: Domain, x: usize)
    requires
        a.inv(x),
        b.list.wf(),
        a.heap == b.heap,
        a.owners == b.owners,
        a.claims == b.claims,
        a.cells == b.cells,
        a.writes == b.writes,
        a.list.borrow_slot_count == b.list.borrow_slot_count,
        a.list.nodes@.len() == b.list.nodes@.len(),
        forall|n: int, s: int| a.list.slot_in_range(n, s) ==> #[trigger] b.list.slot(n, s) == a.list.slot(n, s),
        forall|n: int|
            0 <= n < a.list.nodes@.len() ==> #[trigger] b.list.nodes@[n].clone_slot == a.list.nodes@[n].clone_slot
                || (unit_free(a.list.nodes@[n].clone_slot) && unit_free(b.list.nodes@[n].clone_slot)),
    ensures
        b.inv(x),
{
    assert forall|n: int| 0 <= n < b.list.nodes@.len() implies (#[trigger] b.claims@[n]).len() == b.list.borrow_slot_count by {
        assert(a.claims@[n].len() == a.list.borrow_slot_count);
    }
    assert forall|i: int| 0 <= i < b.heap.counts@.len() implies #[trigger] b.count_balanced(i) by {
        assert(a.count_balanced(i));
        assert forall|o: Owner| #[trigger] b.owners@[i].count(o) > 0 implies b.owner_in_range(o) by {
            assert(a.owners@[i].count(o) > 0);
        }
    }
    assert forall|n: int, s: int| #![trigger b.slot_valid(n, s)] #![trigger b.slot_protected(n, s, x)]
        b.list.slot_in_range(n, s) implies b.slot_valid(n, s) && b.slot_protected(n, s, x) by {
        assert(a.slot_valid(n, s));
        assert(a.slot_protected(n, s, x));
        assert(b.list.slot(n, s) == a.list.slot(n, s));
        let v = a.list.slot(n, s);
        if v != 0 && v != x {
            lemma_in_some_cell_same(a, b, v as int);
        }
    }
    assert forall|n: int, s: int, i: int|
        b.list.slot_in_range(n, s) && 0 <= i < b.heap.counts@.len() implies #[trigger] b.slot_balanced(n, s, i) by {
        assert(a.slot_balanced(n, s, i));
        assert(b.list.slot(n, s) == a.list.slot(n, s));
    }
    assert forall|n: int| 0 <= n < b.list.nodes@.len() implies #[trigger] b.clone_valid(n) by {
        assert(a.clone_valid(n));
        assert(b.list.nodes@[n].clone_slot == a.list.nodes@[n].clone_slot
            || (unit_free(a.list.nodes@[n].clone_slot) && unit_free(b.list.nodes@[n].clone_slot)));
    }
    assert forall|n: int, i: int|
        0 <= n < b.list.nodes@.len() && 0 <= i < b.heap.counts@.len() implies #[trigger] b.clone_balanced(n, i) by {
        assert(a.clone_balanced(n, i));
        assert(b.list.nodes@[n].clone_slot == a.list.nodes@[n].clone_slot
            || (unit_free(a.list.nodes@[n].clone_slot) && unit_free(b.list.nodes@[n].clone_slot)));
    }
}


impl Domain {
    /// Releases a borrow bound to slot `(n, s)` for address `p`. When the slot still shows
    /// `p` it is cleared and nothing else changes (`true`); otherwise a writer transferred a
    /// unit into the slot for this borrow, and that unit is given back (`false`).
    pub(crate) fn release_slot(&mut self, n: usize, s: usize, p: usize, Ghost(x): Ghost<usize>) -> (cleared: bool)
        requires
            old(self).inv(x),
            old(self).list.slot_in_range(n as int, s as int),
            old(self).claim(n as int, s as int, p as int) > 0,
        ensures
            final(self).inv(x),
            cleared == (old(self).list.slot(n as int, s as int) == p),
            final(self).cells == old(self).cells,
            final(self).writes == old(self).writes,
            final(self).list.borrow_slot_count == old(self).list.borrow_slot_count,
            final(self).list.nodes@.len() == old(self).list.nodes@.len(),
            forall|m: int| 0 <= m < old(self).list.nodes@.len() && m != n ==> #[trigger] final(self).list.nodes@[m] == old(self).list.nodes@[m],
            same_but_slots(final(self).list.nodes@[n as int], old(self).list.nodes@[n as int]),
            final(self).claims@ == old(self).claims@.update(
                n as int,
                old(self).claims@[n as int].update(s as int, old(self).claims@[n as int][s as int].remove(p)),
            ),
            final(self).heap.values@ == old(self).heap.values@,
            cleared ==> {
                &&& final(self).list.nodes@[n as int].borrow_slots@ == old(self).list.nodes@[n as int].borrow_slots@.update(s as int, 0)
                &&& final(self).heap == old(self).heap
                &&& final(self).owners == old(self).owners
            },
            !cleared ==> {
                &&& final(self).list.nodes@[n as int] == old(self).list.nodes@[n as int]
                &&& final(self).heap.counts@ == old(self).heap.counts@.update(index_of(p as int), (old(self).heap.count(p as int) - 1) as u64)
                &&& final(self).owners@ == old(self).owners@.update(index_of(p as int), old(self).owners@[index_of(p as int)].remove(Owner::Slot(n, s)))
            },
    {
        broadcast use group_multiset_axioms, group_multiset_properties;
        let ghost o = *old(self);
        assert(o.slot_valid(n as int, s as int));
        assert(self.list.nodes@[n as int].wf(self.list.borrow_slot_count as nat));
        let cleared = self.list.nodes[n].borrow_slots[s] == p;
        let ghost cl = self.claims@;
        proof { lemma_remove(cl[n as int][s as int], p); }
        if cleared {
            self.list.set_slot(n, s, 0);
        } else {
            let ghost i = index_of(p as int);
            assert(o.slot_balanced(n as int, s as int, i));
            assert(addr_of(i) == p);
            assert(o.count_balanced(i));
            proof { lemma_remove(o.owners@[i], Owner::Slot(n, s)); }
            self.heap.decr_rc(p);
            self.owners = Ghost(o.owners@.update(i, o.owners@[i].remove(Owner::Slot(n, s))));
        }
        self.claims = Ghost(cl.update(n as int, cl[n as int].update(s as int, cl[n as int][s as int].remove(p))));
        assert forall|m: int| 0 <= m < self.list.nodes@.len() implies (#[trigger] self.claims@[m]).len() == self.list.borrow_slot_count by {
            assert(o.claims@[m].len() == o.list.borrow_slot_count);
        }
        assert forall|i: int| 0 <= i < self.heap.counts@.len() implies #[trigger] self.count_balanced(i) by {
            assert(o.count_balanced(i));
            assert forall|w: Owner| #[trigger] self.owners@[i].count(w) > 0 implies self.owner_in_range(w) by {
                assert(o.owners@[i].count(w) > 0);
            }
        }
        assert forall|m: int, t: int| #![trigger self.slot_valid(m, t)] #![trigger self.slot_protected(m, t, x)]
            self.list.slot_in_range(m, t) implies self.slot_valid(m, t) && self.slot_protected(m, t, x) by {
            assert(o.slot_valid(m, t));
            assert(o.slot_protected(m, t, x));
            if m != n as int {
                assert(self.list.nodes@[m] == o.list.nodes@[m]);
            }
            if !(m == n as int && t == s as int) {
                assert(self.list.slot(m, t) == o.list.slot(m, t));
                assert(self.claims@[m][t] == o.claims@[m][t]);
                let v = o.list.slot(m, t);
                if v != 0 && v != x {
                    assert(o.in_some_cell(v as int));
                    let c = choose|c: usize| #[trigger] o.units(v as int, Owner::Cell(c)) > 0;
                    assert(self.units(v as int, Owner::Cell(c)) > 0);
                }
            } else {
                assert forall|a: usize| #[trigger] self.claims@[m][t].count(a) > 0 implies self.heap.valid(a as int) by {
                    assert(o.claims@[m][t].count(a) > 0);
                }
                let v = o.list.slot(m, t);
                if !cleared && v != 0 && v != x {
                    assert(o.in_some_cell(v as int));
                    let c = choose|c: usize| #[trigger] o.units(v as int, Owner::Cell(c)) > 0;
                    assert(self.units(v as int, Owner::Cell(c)) > 0);
                }
            }
        }
        assert forall|m: int, t: int, i: int|
            self.list.slot_in_range(m, t) && 0 <= i < self.heap.counts@.len()
                implies #[trigger] self.slot_balanced(m, t, i) by {
            assert(o.slot_balanced(m, t, i));
            if m != n as int {
                assert(self.list.nodes@[m] == o.list.nodes@[m]);
            }
            if !(m == n as int && t == s as int) {
                assert(self.list.slot(m, t) == o.list.slot(m, t));
                assert(self.claims@[m][t] == o.claims@[m][t]);
            }
        }
        proof {
            assert forall|m: int| 0 <= m < o.list.nodes@.len() implies #[trigger] self.list.nodes@[m].clone_slot == o.list.nodes@[m].clone_slot by {
                if m != n as int {
                    assert(self.list.nodes@[m] == o.list.nodes@[m]);
                }
            }
            lemma_clone_frame(o, *self);
        }
        cleared
    }
}


/// The invariant survives a change of the count and the owners of the one value `i`, when the
/// count still matches the owners, the transferred units are unchanged, and every reservation
/// of the value other than `x_new` keeps a cell.
proof fn lemma_one_value_changed(o: Domain, d: Domain, i: int, x_old: usize, x_new: usize)
    requires
        o.inv(x_old),
        x_old == 0 || x_old == x_new,
        0 <= i < o.heap.counts@.len(),
        d.list == o.list,
        d.claims == o.claims,
        d.cells == o.cells,
        d.writes == o.writes,
        d.heap.wf(),
        d.heap.counts@.len() == o.heap.counts@.len(),
        d.owners@.len() == o.owners@.len(),
        forall|j: int| 0 <= j < o.heap.counts@.len() && j != i ==> #[trigger] d.heap.counts@[j] == o.heap.counts@[j],
        forall|j: int| 0 <= j < o.heap.counts@.len() && j != i ==> #[trigger] d.owners@[j] == o.owners@[j],
        d.heap.counts@[i] == d.owners@[i].len(),
        forall|w: Owner| #[trigger] d.owners@[i].count(w) > 0 ==> d.owner_in_range(w),
        forall|n: usize, s: usize| #[trigger] d.owners@[i].count(Owner::Slot(n, s)) == o.owners@[i].count(Owner::Slot(n, s)),
        forall|c: usize| #[trigger] d.owners@[i].count(Owner::Cell(c)) == o.owners@[i].count(Owner::Cell(c)),
        forall|n: usize| #[trigger] d.owners@[i].count(Owner::Clone(n)) == o.owners@[i].count(Owner::Clone(n)),
        o.in_some_cell(addr_of(i)) && addr_of(i) != x_new ==> d.in_some_cell(addr_of(i)),
    ensures
        d.inv(x_new),
{
    assert forall|j: int| 0 <= j < d.heap.counts@.len() implies #[trigger] d.count_balanced(j) by {
        assert(o.count_balanced(j));
        if j != i {
            assert(o.count_balanced(j));
            assert forall|w: Owner| #[trigger] d.owners@[j].count(w) > 0 implies d.owner_in_range(w) by {
                assert(o.owners@[j].count(w) > 0);
            }
        }
    }
    assert forall|n: int, s: int| #![trigger d.slot_valid(n, s)] #![trigger d.slot_protected(n, s, x_new)]
        d.list.slot_in_range(n, s) implies d.slot_valid(n, s) && d.slot_protected(n, s, x_new) by {
        assert(o.slot_valid(n, s));
        assert(o.slot_protected(n, s, x_old));
        let v = o.list.slot(n, s);
        if v != 0 && v != x_new {
            assert(o.in_some_cell(v as int));
            if index_of(v as int) != i {
                let c = choose|c: usize| #[trigger] o.units(v as int, Owner::Cell(c)) > 0;
                assert(d.units(v as int, Owner::Cell(c)) > 0);
            } else {
                assert(addr_of(i) == v);
            }
        }
    }
    assert forall|n: int, s: int, j: int|
        d.list.slot_in_range(n, s) && 0 <= j < d.heap.counts@.len() implies #[trigger] d.slot_balanced(n, s, j) by {
        assert(o.slot_balanced(n, s, j));
        if j == i {
            assert(d.owners@[i].count(Owner::Slot(n as usize, s as usize)) == o.owners@[i].count(Owner::Slot(n as usize, s as usize)));
        }
    }
    lemma_clone_frame(o, d);
}

impl Domain {
    /// Takes one more unit of the live value at `p`, to be held outside the domain.
    pub(crate) fn acquire_unit(&mut self, p: usize, Ghost(x): Ghost<usize>)
        requires
            old(self).inv(x),
            old(self).heap.valid(p as int),
            old(self).heap.count(p as int) > 0,
            old(self).heap.count(p as int) < u64::MAX,
        ensures
            final(self).inv(x),
            final(self).list == old(self).list,
            final(self).claims == old(self).claims,
            final(self).cells == old(self).cells,
            final(self).writes == old(self).writes,
            final(self).heap.values@ == old(self).heap.values@,
            final(self).heap.counts@ == old(self).heap.counts@.update(index_of(p as int), (old(self).heap.count(p as int) + 1) as u64),
            final(self).owners@ == old(self).owners@.update(index_of(p as int), old(self).owners@[index_of(p as int)].insert(Owner::Outside)),
    {
        broadcast use group_multiset_axioms, group_multiset_properties;
        let ghost o = *old(self);
        let ghost i = index_of(p as int);
        assert(o.count_balanced(i));
        self.heap.incr_rc(p);
        self.owners = Ghost(o.owners@.update(i, o.owners@[i].insert(Owner::Outside)));
        proof {
            if o.in_some_cell(addr_of(i)) {
                let c = choose|c: usize| #[trigger] o.units(addr_of(i), Owner::Cell(c)) > 0;
                assert(self.units(addr_of(i), Owner::Cell(c)) > 0);
            }
            lemma_one_value_changed(o, *self, i, x, x);
        }
    }

    /// Gives back one unit of the value at `p` that was held outside the domain.
    pub(crate) fn release_unit(&mut self, p: usize, Ghost(x): Ghost<usize>)
        requires
            old(self).inv(x),
            old(self).holds(p as int),
        ensures
            final(self).inv(x),
            final(self).list == old(self).list,
            final(self).claims == old(self).claims,
            final(self).cells == old(self).cells,
            final(self).writes == old(self).writes,
            final(self).heap.values@ == old(self).heap.values@,
            final(self).heap.counts@ == old(self).heap.counts@.update(index_of(p as int), (old(self).heap.count(p as int) - 1) as u64),
            final(self).owners@ == old(self).owners@.update(index_of(p as int), old(self).owners@[index_of(p as int)].remove(Owner::Outside)),
    {
        broadcast use group_multiset_axioms, group_multiset_properties;
        let ghost o = *old(self);
        let ghost i = index_of(p as int);
        assert(o.count_balanced(i));
        proof { lemma_remove(o.owners@[i], Owner::Outside); }
        self.heap.decr_rc(p);
        self.owners = Ghost(o.owners@.update(i, o.owners@[i].remove(Owner::Outside)));
        proof {
            if o.in_some_cell(addr_of(i)) {
                let c = choose|c: usize| #[trigger] o.units(addr_of(i), Owner::Cell(c)) > 0;
                assert(self.units(addr_of(i), Owner::Cell(c)) > 0);
            }
            lemma_one_value_changed(o, *self, i, x, x);
        }
    }
}


impl Domain {
    /// A writer takes over the reservation in slot `(n, s)`: one more unit of the reserved value
    /// now belongs to the borrows bound there, and the slot is cleared.
    pub(crate) fn transfer_slot(&mut self, n: usize, s: usize, Ghost(x): Ghost<usize>) -> (a: usize)
        requires
            old(self).inv(x),
            old(self).list.slot_in_range(n as int, s as int),
            old(self).list.slot(n as int, s as int) != 0,
            old(self).heap.count(old(self).list.slot(n as int, s as int) as int) < u64::MAX,
        ensures
            final(self).inv(x),
            a == old(self).list.slot(n as int, s as int),
            final(self).claims == old(self).claims,
            final(self).cells == old(self).cells,
            final(self).writes == old(self).writes,
            final(self).list.borrow_slot_count == old(self).list.borrow_slot_count,
            final(self).list.nodes@.len() == old(self).list.nodes@.len(),
            forall|m: int| 0 <= m < old(self).list.nodes@.len() && m != n ==> #[trigger] final(self).list.nodes@[m] == old(self).list.nodes@[m],
            same_but_slots(final(self).list.nodes@[n as int], old(self).list.nodes@[n as int]),
            final(self).list.nodes@[n as int].borrow_slots@ == old(self).list.nodes@[n as int].borrow_slots@.update(s as int, 0),
            final(self).heap.values@ == old(self).heap.values@,
            final(self).heap.counts@ == old(self).heap.counts@.update(index_of(a as int), (old(self).heap.count(a as int) + 1) as u64),
            final(self).owners@ == old(self).owners@.update(index_of(a as int), old(self).owners@[index_of(a as int)].insert(Owner::Slot(n, s))),
    {
        broadcast use group_multiset_axioms, group_multiset_properties;
        let ghost o = *old(self);
        assert(self.list.nodes@[n as int].wf(self.list.borrow_slot_count as nat));
        assert(o.slot_valid(n as int, s as int));
        let a = self.list.nodes[n].borrow_slots[s];
        let ghost i = index_of(a as int);
        assert(addr_of(i) == a);
        assert(o.count_balanced(i));
        assert(o.slot_balanced(n as int, s as int, i));
        self.heap.incr_rc(a);
        self.owners = Ghost(o.owners@.update(i, o.owners@[i].insert(Owner::Slot(n, s))));
        self.list.set_slot(n, s, 0);
        assert forall|m: int| 0 <= m < self.list.nodes@.len() implies (#[trigger] self.claims@[m]).len() == self.list.borrow_slot_count by {
            assert(o.claims@[m].len() == o.list.borrow_slot_count);
        }
        assert forall|j: int| 0 <= j < self.heap.counts@.len() implies #[trigger] self.count_balanced(j) by {
            assert(o.count_balanced(j));
            assert forall|w: Owner| #[trigger] self.owners@[j].count(w) > 0 implies self.owner_in_range(w) by {
                if !(j == i && w == Owner::Slot(n, s)) {
                    assert(o.owners@[j].count(w) > 0);
                }
            }
        }
        assert forall|m: int, t: int| #![trigger self.slot_valid(m, t)] #![trigger self.slot_protected(m, t, x)]
            self.list.slot_in_range(m, t) implies self.slot_valid(m, t) && self.slot_protected(m, t, x) by {
            assert(o.slot_valid(m, t));
            assert(o.slot_protected(m, t, x));
            if m != n as int {
                assert(self.list.nodes@[m] == o.list.nodes@[m]);
            }
            if !(m == n as int && t == s as int) {
                assert(self.list.slot(m, t) == o.list.slot(m, t));
                let v = o.list.slot(m, t);
                if v != 0 && v != x {
                    assert(o.in_some_cell(v as int));
                    let c = choose|c: usize| #[trigger] o.units(v as int, Owner::Cell(c)) > 0;
                    assert(self.units(v as int, Owner::Cell(c)) > 0);
                }
            }
        }
        assert forall|m: int, t: int, j: int|
            self.list.slot_in_range(m, t) && 0 <= j < self.heap.counts@.len()
                implies #[trigger] self.slot_balanced(m, t, j) by {
            assert(o.slot_balanced(m, t, j));
            if m != n as int {
                assert(self.list.nodes@[m] == o.list.nodes@[m]);
            }
            if !(m == n as int && t == s as int) {
                assert(self.list.slot(m, t) == o.list.slot(m, t));
            }
        }
        proof {
            assert forall|m: int| 0 <= m < o.list.nodes@.len() implies #[trigger] self.list.nodes@[m].clone_slot == o.list.nodes@[m].clone_slot by {
                if m != n as int {
                    assert(self.list.nodes@[m] == o.list.nodes@[m]);
                }
            }
            lemma_clone_frame(o, *self);
        }
        a
    }

    /// Stores a new value, whose one unit is held by the returned handle.
    pub fn allocate(&mut self, v: u64) -> (h: Handle)
        requires
            old(self).wf(),
            old(self).heap.counts@.len() < MAX_VALUES,
        ensures
            final(self).wf(),
            final(self).holds(h@ as int),
            h@ == addr_of(old(self).heap.counts@.len() as int),
            final(self).heap.value(h@ as int) == v,
            final(self).heap.count(h@ as int) == 1,
            final(self).heap.counts@ == old(self).heap.counts@.push(1),
            final(self).heap.values@ == old(self).heap.values@.push(v),
            final(self).owners@ == old(self).owners@.push(Multiset::singleton(Owner::Outside)),
            final(self).list == old(self).list,
            final(self).claims == old(self).claims,
            final(self).cells == old(self).cells,
            final(self).writes == old(self).writes,
    {
        broadcast use group_multiset_axioms, group_multiset_properties;
        let ghost o = *old(self);
        let h = self.heap.allocate(v);
        self.owners = Ghost(o.owners@.push(Multiset::singleton(Owner::Outside)));
        let ghost k = o.heap.counts@.len() as int;
        assert forall|j: int| 0 <= j < self.heap.counts@.len() implies #[trigger] self.count_balanced(j) by {
            if j < k {
                assert(o.count_balanced(j));
                assert forall|w: Owner| #[trigger] self.owners@[j].count(w) > 0 implies self.owner_in_range(w) by {
                    assert(o.owners@[j].count(w) > 0);
                }
            } else {
                assert forall|w: Owner| #[trigger] self.owners@[j].count(w) > 0 implies self.owner_in_range(w) by {
                    assert(w == Owner::Outside);
                }
            }
        }
        assert forall|m: int, t: int| #![trigger self.slot_valid(m, t)] #![trigger self.slot_protected(m, t, 0)]
            self.list.slot_in_range(m, t) implies self.slot_valid(m, t) && self.slot_protected(m, t, 0) by {
            assert(o.slot_valid(m, t));
            assert(o.slot_protected(m, t, 0));
            let v = o.list.slot(m, t);
            if v != 0 {
                assert(o.in_some_cell(v as int));
                let c = choose|c: usize| #[trigger] o.units(v as int, Owner::Cell(c)) > 0;
                assert(self.units(v as int, Owner::Cell(c)) > 0);
            }
            assert forall|a: usize| #[trigger] self.claims@[m][t].count(a) > 0 implies self.heap.valid(a as int) by {
                assert(o.claims@[m][t].count(a) > 0);
            }
        }
        assert forall|m: int, t: int, j: int|
            self.list.slot_in_range(m, t) && 0 <= j < self.heap.counts@.len()
                implies #[trigger] self.slot_balanced(m, t, j) by {
            if j < k {
                assert(o.slot_balanced(m, t, j));
            } else {
                assert(o.slot_valid(m, t));
                assert(self.claims@[m][t].count(addr_of(j) as usize) == 0) by {
                    if o.claims@[m][t].count(addr_of(j) as usize) > 0 {
                        assert(o.heap.valid(addr_of(j)));
                    }
                }
            }
        }
        proof {
            lemma_clone_frame(o, *self);
        }
        h
    }
}


impl Domain {
    /// Replaces the clone slot (with a word that holds no unit), scratch, generation and cursor
    /// words of node `n`.
    pub(crate) fn set_node_words(
        &mut self,
        n: usize,
        clone_slot: usize,
        atomic_arc_slot: usize,
        clone_generation: usize,
        next_borrow_slot_idx: usize,
        Ghost(x): Ghost<usize>,
    )
        requires
            old(self).inv(x),
            n < old(self).list.nodes@.len(),
            unit_free(old(self).list.nodes@[n as int].clone_slot),
            unit_free(clone_slot),
            clone_generation % 2 == 0,
            old(self).list.borrow_slot_count == 0 || next_borrow_slot_idx < old(self).list.borrow_slot_count,
        ensures
            final(self).inv(x),
            final(self).heap == old(self).heap,
            final(self).owners == old(self).owners,
            final(self).claims == old(self).claims,
            final(self).cells == old(self).cells,
            final(self).writes == old(self).writes,
            final(self).list.borrow_slot_count == old(self).list.borrow_slot_count,
            final(self).list.nodes@.len() == old(self).list.nodes@.len(),
            forall|m: int| 0 <= m < old(self).list.nodes@.len() && m != n ==> #[trigger] final(self).list.nodes@[m] == old(self).list.nodes@[m],
            final(self).list.nodes@[n as int].borrow_slots@ == old(self).list.nodes@[n as int].borrow_slots@,
            final(self).list.nodes@[n as int].in_use == old(self).list.nodes@[n as int].in_use,
            final(self).list.nodes@[n as int].clone_slot == clone_slot,
            final(self).list.nodes@[n as int].atomic_arc_slot == atomic_arc_slot,
            final(self).list.nodes@[n as int].clone_generation == clone_generation,
            final(self).list.nodes@[n as int].next_borrow_slot_idx == next_borrow_slot_idx,
    {
        let ghost o = *old(self);
        self.list.set_words(n, clone_slot, atomic_arc_slot, clone_generation, next_borrow_slot_idx);
        proof {
            assert forall|m: int, t: int| o.list.slot_in_range(m, t) implies #[trigger] self.list.slot(m, t) == o.list.slot(m, t) by {
                if m != n as int {
                    assert(self.list.nodes@[m] == o.list.nodes@[m]);
                }
            }
            lemma_inv_frame(o, *self, x);
        }
    }

    /// Links a new node at the tail of the list, with empty claims.
    fn push_node(&mut self, in_use: bool)
        requires
            old(self).wf(),
            old(self).list.nodes@.len() < MAX_NODES,
        ensures
            final(self).wf(),
            final(self).heap == old(self).heap,
            final(self).owners == old(self).owners,
            final(self).cells == old(self).cells,
            final(self).writes == old(self).writes,
            final(self).list.borrow_slot_count == old(self).list.borrow_slot_count,
            final(self).list.nodes@.len() == old(self).list.nodes@.len() + 1,
            final(self).list.nodes@.take(old(self).list.nodes@.len() as int) == old(self).list.nodes@,
            final(self).list.nodes@.last().in_use == in_use,
            final(self).list.nodes@.last().quiescent(),
            final(self).list.nodes@.last().clone_generation == 0,
            final(self).list.nodes@.last().next_borrow_slot_idx == 0,
            final(self).list.nodes@.last().atomic_arc_slot == 0,
    {
        broadcast use group_multiset_axioms;
        let ghost o = *old(self);
        let ghost k = o.list.nodes@.len() as int;
        let node = DomainNode::allocate(self.list.borrow_slot_count, in_use);
        self.list.nodes.push(node);
        let ghost sc = self.list.borrow_slot_count as nat;
        self.claims = Ghost(o.claims@.push(Seq::new(sc, |t: int| Multiset::<usize>::empty())));
        assert(self.list.nodes@.take(k) =~= o.list.nodes@);
        assert forall|m: int| 0 <= m < self.list.nodes@.len() implies #[trigger] self.list.nodes@[m].wf(sc) by {
            if m < k {
                assert(o.list.nodes@[m].wf(sc));
            }
        }
        assert forall|m: int| 0 <= m < self.list.nodes@.len() implies (#[trigger] self.claims@[m]).len() == self.list.borrow_slot_count by {
            if m < k {
                assert(o.claims@[m].len() == o.list.borrow_slot_count);
            }
        }
        assert forall|m: int| 0 <= m < self.list.nodes@.len() implies #[trigger] self.clone_valid(m) by {
            if m < k {
                assert(o.clone_valid(m));
                assert(self.list.nodes@[m] == o.list.nodes@[m]);
            }
        }
        assert forall|m: int, j: int|
            0 <= m < self.list.nodes@.len() && 0 <= j < self.heap.counts@.len() implies #[trigger] self.clone_balanced(m, j) by {
            if m < k {
                assert(o.clone_balanced(m, j));
                assert(self.list.nodes@[m] == o.list.nodes@[m]);
            } else {
                assert(o.count_balanced(j));
                if o.owners@[j].count(Owner::Clone(m as usize)) > 0 {
                    assert(o.owner_in_range(Owner::Clone(m as usize)));
                }
            }
        }
        assert forall|j: int| 0 <= j < self.heap.counts@.len() implies #[trigger] self.count_balanced(j) by {
            assert(o.count_balanced(j));
            assert forall|w: Owner| #[trigger] self.owners@[j].count(w) > 0 implies self.owner_in_range(w) by {
                assert(o.owners@[j].count(w) > 0);
            }
        }
        assert forall|m: int, t: int| #![trigger self.slot_valid(m, t)] #![trigger self.slot_protected(m, t, 0)]
            self.list.slot_in_range(m, t) implies self.slot_valid(m, t) && self.slot_protected(m, t, 0) by {
            if m < k {
                assert(o.slot_valid(m, t));
                assert(o.slot_protected(m, t, 0));
                assert(self.list.nodes@[m] == o.list.nodes@[m]);
                let v = o.list.slot(m, t);
                if v != 0 {
                    lemma_in_some_cell_same(o, *self, v as int);
                }
            } else {
                assert(self.list.slot(m, t) == 0);
            }
        }
        assert forall|m: int, t: int, j: int|
            self.list.slot_in_range(m, t) && 0 <= j < self.heap.counts@.len()
                implies #[trigger] self.slot_balanced(m, t, j) by {
            if m < k {
                assert(o.slot_balanced(m, t, j));
                assert(self.list.nodes@[m] == o.list.nodes@[m]);
            } else {
                assert(self.list.slot(m, t) == 0);
                assert(o.count_balanced(j));
                if o.owners@[j].count(Owner::Slot(m as usize, t as usize)) > 0 {
                    assert(o.owner_in_range(Owner::Slot(m as usize, t as usize)));
                }
            }
        }
    }

    /// Takes the first node not in use for the calling thread; links a new one when every node
    /// is taken.
    pub fn acquire_node(&mut self) -> (r: usize)
        requires
            old(self).wf(),
            old(self).list.nodes@.len() < MAX_NODES,
        ensures
            final(self).wf(),
            first_free(old(self).list.nodes@, r as int),
            r < final(self).list.nodes@.len(),
            final(self).list.nodes@[r as int].in_use,
            final(self).heap == old(self).heap,
            final(self).owners == old(self).owners,
            final(self).cells == old(self).cells,
            final(self).writes == old(self).writes,
            final(self).list.borrow_slot_count == old(self).list.borrow_slot_count,
            r < old(self).list.nodes@.len() ==> final(self).list.nodes@ == old(self).list.nodes@.update(
                r as int,
                DomainNode { in_use: true, ..old(self).list.nodes@[r as int] },
            ),
            r == old(self).list.nodes@.len() ==> {
                &&& final(self).list.nodes@.len() == r + 1
                &&& final(self).list.nodes@.take(r as int) == old(self).list.nodes@
                &&& final(self).list.nodes@[r as int].quiescent()
                &&& final(self).list.nodes@[r as int].clone_generation == 0
                &&& final(self).list.nodes@[r as int].next_borrow_slot_idx == 0
                &&& final(self).list.nodes@[r as int].atomic_arc_slot == 0
            },
    {
        let ghost o = *old(self);
        let r = self.list.find_free();
        if r < self.list.nodes.len() {
            self.list.acquire_node();
            proof {
                assert forall|m: int, t: int| o.list.slot_in_range(m, t) implies #[trigger] self.list.slot(m, t) == o.list.slot(m, t) by {
                    assert(self.list.nodes@[m].borrow_slots == o.list.nodes@[m].borrow_slots);
                }
                lemma_inv_frame(o, *self, 0);
            }
        } else {
            self.push_node(true);
        }
        r
    }

    /// Gives node `n` back, for another thread to acquire.
    pub fn release_node(&mut self, n: usize)
        requires
            old(self).wf(),
            n < old(self).list.nodes@.len(),
        ensures
            final(self).wf(),
            final(self).heap == old(self).heap,
            final(self).owners == old(self).owners,
            final(self).claims == old(self).claims,
            final(self).cells == old(self).cells,
            final(self).writes == old(self).writes,
            final(self).list.borrow_slot_count == old(self).list.borrow_slot_count,
            final(self).list.nodes@ == old(self).list.nodes@.update(
                n as int,
                DomainNode { in_use: false, ..old(self).list.nodes@[n as int] },
            ),
    {
        let ghost o = *old(self);
        self.list.release_node(n);
        proof {
            assert forall|m: int, t: int| o.list.slot_in_range(m, t) implies #[trigger] self.list.slot(m, t) == o.list.slot(m, t) by {
                assert(self.list.nodes@[m].borrow_slots == o.list.nodes@[m].borrow_slots);
            }
            lemma_inv_frame(o, *self, 0);
        }
    }

    /// Makes sure at least `node_count` nodes are linked, whether in use or not.
    pub fn reserve(&mut self, node_count: usize)
        requires
            old(self).wf(),
            node_count <= MAX_NODES,
        ensures
            final(self).wf(),
            final(self).heap == old(self).heap,
            final(self).owners == old(self).owners,
            final(self).cells == old(self).cells,
            final(self).writes == old(self).writes,
            final(self).list.borrow_slot_count == old(self).list.borrow_slot_count,
            final(self).list.nodes@.len() == if old(self).list.nodes@.len() < node_count {
                node_count as int
            } else {
                old(self).list.nodes@.len() as int
            },
            final(self).list.nodes@.take(old(self).list.nodes@.len() as int) == old(self).list.nodes@,
            forall|m: int| old(self).list.nodes@.len() <= m < final(self).list.nodes@.len() ==> !(#[trigger] final(self).list.nodes@[m]).in_use,
    {
        let ghost o = *old(self);
        while self.list.nodes.len() < node_count
            invariant
                self.wf(),
                node_count <= MAX_NODES,
                self.heap == o.heap,
                self.owners == o.owners,
                self.cells == o.cells,
                self.writes == o.writes,
                self.list.borrow_slot_count == o.list.borrow_slot_count,
                self.list.nodes@.len() >= o.list.nodes@.len(),
                self.list.nodes@.len() <= node_count || self.list.nodes@.len() == o.list.nodes@.len(),
                self.list.nodes@.take(o.list.nodes@.len() as int) == o.list.nodes@,
                forall|m: int| o.list.nodes@.len() <= m < self.list.nodes@.len() ==> !(#[trigger] self.list.nodes@[m]).in_use,
            decreases node_count - self.list.nodes@.len(),
        {
            let ghost before = self.list.nodes@;
            self.push_node(false);
            assert(self.list.nodes@.take(o.list.nodes@.len() as int) =~= before.take(o.list.nodes@.len() as int)) by {
                assert(self.list.nodes@.take(before.len() as int) == before);
            }
            assert forall|m: int| o.list.nodes@.len() <= m < self.list.nodes@.len() implies !(#[trigger] self.list.nodes@[m]).in_use by {
                if m < before.len() {
                    assert(self.list.nodes@.take(before.len() as int)[m] == before[m]);
                }
            }
        }
    }
}


/// The owners after cell `id` gives up its unit of `prev` and takes the unit of `new` held
/// outside; zero stands for null.
pub open spec fn exchange_owners(owners: Seq<Multiset<Owner>>, id: usize, prev: usize, new: usize) -> Seq<Multiset<Owner>> {
    let o1 = if prev != 0 {
        owners.update(index_of(prev as int), owners[index_of(prev as int)].remove(Owner::Cell(id)).insert(Owner::Outside))
    } else {
        owners
    };
    if new != 0 {
        o1.update(index_of(new as int), o1[index_of(new as int)].remove(Owner::Outside).insert(Owner::Cell(id)))
    } else {
        o1
    }
}

impl Domain {
    /// Adds a null cell and returns its identifier.
    pub(crate) fn new_cell(&mut self) -> (id: usize)
        requires
            old(self).wf(),
            old(self).cells@.len() + 1 < MAX_CELLS,
        ensures
            final(self).wf(),
            id == old(self).cells@.len(),
            final(self).cells@ == old(self).cells@.push(0),
            final(self).writes@ == old(self).writes@.push(0),
            final(self).heap == old(self).heap,
            final(self).list == old(self).list,
            final(self).owners == old(self).owners,
            final(self).claims == old(self).claims,
    {
        let ghost o = *old(self);
        let id = self.cells.len();
        self.cells.push(0);
        self.writes = Ghost(self.writes@.push(0));
        assert forall|c: int| 0 <= c < self.cells@.len() implies #[trigger] self.cells@[c] == 0 || self.heap.valid(self.cells@[c] as int) by {
            if c < id {
                assert(o.cells@[c] == 0 || o.heap.valid(o.cells@[c] as int));
            }
        }
        assert forall|j: int| 0 <= j < self.heap.counts@.len() implies #[trigger] self.count_balanced(j) by {
            assert(o.count_balanced(j));
            assert forall|w: Owner| #[trigger] self.owners@[j].count(w) > 0 implies self.owner_in_range(w) by {
                assert(o.owners@[j].count(w) > 0);
            }
            assert forall|c: usize| c < self.cells@.len() implies #[trigger] self.owners@[j].count(Owner::Cell(c)) == if self.cells@[c as int] == addr_of(j) { 1nat } else { 0nat } by {
                if c == id {
                    if o.owners@[j].count(Owner::Cell(c)) > 0 {
                        assert(o.owner_in_range(Owner::Cell(c)));
                    }
                }
            }
        }
        assert forall|m: int, t: int| #![trigger self.slot_valid(m, t)] #![trigger self.slot_protected(m, t, 0)]
            self.list.slot_in_range(m, t) implies self.slot_valid(m, t) && self.slot_protected(m, t, 0) by {
            assert(o.slot_valid(m, t));
            assert(o.slot_protected(m, t, 0));
            let v = o.list.slot(m, t);
            if v != 0 {
                lemma_in_some_cell_same(o, *self, v as int);
            }
        }
        assert forall|m: int, t: int, j: int|
            self.list.slot_in_range(m, t) && 0 <= j < self.heap.counts@.len()
                implies #[trigger] self.slot_balanced(m, t, j) by {
            assert(o.slot_balanced(m, t, j));
        }
        proof {
            lemma_clone_frame(o, *self);
        }
        id
    }

    /// Atomically replaces the word of cell `id` with `new` and returns the word it held: the
    /// cell's unit of the old value goes out with it, and the unit of `new` held outside becomes
    /// the cell's. Reservations of the old value may then have lost their cell.
    pub(crate) fn exchange_cell(&mut self, id: usize, new: usize) -> (prev: usize)
        requires
            old(self).inv(0),
            id < old(self).cells@.len(),
            new == 0 || old(self).holds(new as int),
        ensures
            final(self).inv(prev),
            prev == old(self).cells@[id as int],
            final(self).cells@ == old(self).cells@.update(id as int, new),
            final(self).writes@ == old(self).writes@.update(id as int, old(self).writes@[id as int] + 1),
            final(self).heap == old(self).heap,
            final(self).list == old(self).list,
            final(self).claims == old(self).claims,
            final(self).owners@ == exchange_owners(old(self).owners@, id, prev, new),
    {
        broadcast use group_multiset_axioms, group_multiset_properties;

        let ghost o = *old(self);
        let prev = self.cells[id];
        self.cells.set(id, new);
        self.writes = Ghost(self.writes@.update(id as int, self.writes@[id as int] + 1));
        let ghost io = index_of(prev as int);
        let ghost inew = index_of(new as int);
        let ghost o1 = if prev != 0 {
            o.owners@.update(io, o.owners@[io].remove(Owner::Cell(id)).insert(Owner::Outside))
        } else {
            o.owners@
        };
        proof {
            if prev != 0 {
                assert(o.heap.valid(prev as int));
                assert(addr_of(io) == prev);
                assert(o.count_balanced(io));
                lemma_remove(o.owners@[io], Owner::Cell(id));
            }
            if new != 0 {
                assert(addr_of(inew) == new);
                assert(o1[inew].count(Owner::Outside) > 0);
                lemma_remove(o1[inew], Owner::Outside);
            }
        }
        self.owners = Ghost(exchange_owners(o.owners@, id, prev, new));
        assert forall|c: int| 0 <= c < self.cells@.len() implies #[trigger] self.cells@[c] == 0 || self.heap.valid(self.cells@[c] as int) by {
            assert(o.cells@[c] == 0 || o.heap.valid(o.cells@[c] as int));
        }
        assert forall|j: int| 0 <= j < self.heap.counts@.len() implies #[trigger] self.count_balanced(j) by {
            assert(o.count_balanced(j));
            assert forall|w: Owner| #[trigger] self.owners@[j].count(w) > 0 implies self.owner_in_range(w) by {
                if w != Owner::Outside && w != Owner::Cell(id) {
                    assert(o.owners@[j].count(w) > 0);
                }
            }
            assert forall|c: usize| c < self.cells@.len() implies #[trigger] self.owners@[j].count(Owner::Cell(c)) == if self.cells@[c as int] == addr_of(j) { 1nat } else { 0nat } by {
                assert(o.owners@[j].count(Owner::Cell(c)) == if o.cells@[c as int] == addr_of(j) { 1nat } else { 0nat });
                if c != id {
                    assert(self.owners@[j].count(Owner::Cell(c)) == o.owners@[j].count(Owner::Cell(c)));
                }
            }
        }
        assert forall|m: int, t: int| #![trigger self.slot_valid(m, t)] #![trigger self.slot_protected(m, t, prev)]
            self.list.slot_in_range(m, t) implies self.slot_valid(m, t) && self.slot_protected(m, t, prev) by {
            assert(o.slot_valid(m, t));
            assert(o.slot_protected(m, t, 0));
            let v = o.list.slot(m, t);
            if v != 0 && v != prev {
                let c = choose|c: usize| #[trigger] o.units(v as int, Owner::Cell(c)) > 0;
                let iv = index_of(v as int);
                assert(o.heap.valid(v as int));
                assert(addr_of(iv) == v);
                assert(o.count_balanced(iv));
                assert(o.owner_in_range(Owner::Cell(c)));
                if c == id {
                    assert(o.cells@[id as int] == v);
                } else {
                    assert(self.units(v as int, Owner::Cell(c)) == o.units(v as int, Owner::Cell(c)));
                }
            }
        }
        assert forall|m: int, t: int, j: int|
            self.list.slot_in_range(m, t) && 0 <= j < self.heap.counts@.len()
                implies #[trigger] self.slot_balanced(m, t, j) by {
            assert(o.slot_balanced(m, t, j));
            assert(self.owners@[j].count(Owner::Slot(m as usize, t as usize)) == o.owners@[j].count(Owner::Slot(m as usize, t as usize)));
        }
        proof {
            assert forall|i: int, m: usize| 0 <= i < o.heap.counts@.len() implies #[trigger] self.owners@[i].count(Owner::Clone(m)) == o.owners@[i].count(Owner::Clone(m)) by {
                if prev != 0 {
                    lemma_remove(o.owners@[io], Owner::Cell(id));
                }
                if new != 0 {
                    lemma_remove(o1[inew], Owner::Outside);
                }
            }
            lemma_clone_frame(o, *self);
        }
        prev
    }
}


impl Domain {
    /// Drops a handle, giving back its unit.
    pub fn drop_handle(&mut self, h: Handle)
        requires
            old(self).wf(),
            old(self).holds(h@ as int),
        ensures
            final(self).wf(),
            final(self).cells == old(self).cells,
            final(self).writes == old(self).writes,
            final(self).claims == old(self).claims,
            final(self).heap.values@ == old(self).heap.values@,
            final(self).heap.counts@ == old(self).heap.counts@.update(index_of(h@ as int), (old(self).heap.count(h@ as int) - 1) as u64),
            final(self).owners@ == old(self).owners@.update(index_of(h@ as int), old(self).owners@[index_of(h@ as int)].remove(Owner::Outside)),
            final(self).list.nodes@ == old(self).list.nodes@,
            final(self).list.borrow_slot_count == old(self).list.borrow_slot_count,
    {
        self.release_unit(Handle::into_ptr(h), Ghost(0));
    }

    /// Another handle for the value of `h`: one more unit of its count.
    pub fn clone_handle(&mut self, h: &Handle) -> (r: Handle)
        requires
            old(self).wf(),
            old(self).room(),
            old(self).holds(h@ as int),
        ensures
            final(self).wf(),
            r@ == h@,
            final(self).holds(r@ as int),
            final(self).cells == old(self).cells,
            final(self).writes == old(self).writes,
            final(self).claims == old(self).claims,
            final(self).heap.values@ == old(self).heap.values@,
            final(self).heap.counts@ == old(self).heap.counts@.update(index_of(h@ as int), (old(self).heap.count(h@ as int) + 1) as u64),
            final(self).owners@ == old(self).owners@.update(index_of(h@ as int), old(self).owners@[index_of(h@ as int)].insert(Owner::Outside)),
            final(self).list.nodes@ == old(self).list.nodes@,
            final(self).list.borrow_slot_count == old(self).list.borrow_slot_count,
    {
        broadcast use group_multiset_axioms, group_multiset_properties;

        let a = Handle::as_ptr(h);
        proof {
            let i = index_of(a as int);
            assert(self.count_balanced(i));
            assert(self.heap.counts@[i] < ROOM);
        }
        self.acquire_unit(a, Ghost(0));
        Handle::from_ptr(a)
    }

    /// The value at raw address `a`.
    pub fn value_at(&self, a: usize) -> (r: u64)
        requires
            self.wf(),
            self.heap.valid(a as int),
        ensures
            r == self.heap.value(a as int),
    {
        self.heap.value_of(a)
    }

    /// The reference count of the value at raw address `a`.
    pub fn count_at(&self, a: usize) -> (r: u64)
        requires
            self.wf(),
            self.heap.valid(a as int),
        ensures
            r == self.heap.count(a as int),
    {
        self.heap.count_of(a)
    }

    /// Whether every count of the heap is below the bound that operations need.
    pub fn has_room(&self) -> (r: bool)
        ensures
            r == self.room(),
    {
        let mut i: usize = 0;
        while i < self.heap.counts.len()
            invariant
                i <= self.heap.counts@.len(),
                forall|j: int| 0 <= j < i ==> #[trigger] self.heap.counts@[j] < ROOM,
            decreases self.heap.counts@.len() - i,
        {
            if self.heap.counts[i] >= ROOM {
                return false;
            }
            i = i + 1;
        }
        true
    }
}


impl Domain {
    /// Every node is released, no slot is reserved or transferred, and no clone is in progress.
    pub open spec fn nodes_quiescent(&self) -> bool {
        &&& forall|n: int| 0 <= n < self.list.nodes@.len() ==> !(#[trigger] self.list.nodes@[n]).in_use
        &&& forall|n: int| 0 <= n < self.list.nodes@.len() ==> (#[trigger] self.list.nodes@[n]).quiescent()
        &&& forall|n: int, s: int, a: usize| self.list.slot_in_range(n, s) ==> #[trigger] self.claims@[n][s].count(a) == 0
    }

    /// Frees every node of the list, which must all be released and quiescent.
    pub fn deallocate(&mut self)
        requires
            old(self).wf(),
            old(self).nodes_quiescent(),
        ensures
            final(self).wf(),
            final(self).list.nodes@.len() == 0,
            final(self).list.borrow_slot_count == old(self).list.borrow_slot_count,
            final(self).heap == old(self).heap,
            final(self).owners == old(self).owners,
            final(self).cells == old(self).cells,
            final(self).writes == old(self).writes,
    {
        broadcast use group_multiset_axioms;

        let ghost o = *old(self);
        self.list.nodes = Vec::new();
        self.claims = Ghost(Seq::empty());
        assert forall|j: int| 0 <= j < self.heap.counts@.len() implies #[trigger] self.count_balanced(j) by {
            assert(o.count_balanced(j));
            assert forall|w: Owner| #[trigger] self.owners@[j].count(w) > 0 implies self.owner_in_range(w) by {
                assert(o.owners@[j].count(w) > 0);
                assert(o.owner_in_range(w));
                match w {
                    Owner::Slot(n, s) => {
                        assert(o.slot_balanced(n as int, s as int, j));
                        assert(o.list.nodes@[n as int].quiescent());
                        assert(o.list.nodes@[n as int].wf(o.list.borrow_slot_count as nat));
                        assert(o.claims@[n as int][s as int].count(addr_of(j) as usize) == 0);
                    },
                    Owner::Clone(n) => {
                        assert(o.clone_balanced(n as int, j));
                        assert(o.list.nodes@[n as int].quiescent());
                    },
                    _ => {},
                }
            }
        }
    }
}


/// The clone-slot part of the invariant survives when the clone slots and the deposited units
/// are unchanged, and the values added since own no deposit.
proof fn lemma_clone_frame(o: Domain, d: Domain)
    requires
        forall|n: int| 0 <= n < o.list.nodes@.len() ==> #[trigger] o.clone_valid(n),
        forall|n: int, i: int|
            0 <= n < o.list.nodes@.len() && 0 <= i < o.heap.counts@.len() ==> #[trigger] o.clone_balanced(n, i),
        d.list.nodes@.len() == o.list.nodes@.len(),
        forall|n: int| 0 <= n < o.list.nodes@.len() ==> #[trigger] d.list.nodes@[n].clone_slot == o.list.nodes@[n].clone_slot,
        d.heap.counts@.len() >= o.heap.counts@.len(),
        forall|i: int, n: usize| 0 <= i < o.heap.counts@.len() ==> #[trigger] d.owners@[i].count(Owner::Clone(n)) == o.owners@[i].count(Owner::Clone(n)),
        forall|i: int, n: usize| o.heap.counts@.len() <= i < d.heap.counts@.len() ==> #[trigger] d.owners@[i].count(Owner::Clone(n)) == 0,
    ensures
        forall|n: int| 0 <= n < d.list.nodes@.len() ==> #[trigger] d.clone_valid(n),
        forall|n: int, i: int|
            0 <= n < d.list.nodes@.len() && 0 <= i < d.heap.counts@.len() ==> #[trigger] d.clone_balanced(n, i),
{
    assert forall|n: int| 0 <= n < d.list.nodes@.len() implies #[trigger] d.clone_valid(n) by {
        assert(o.clone_valid(n));
        assert(d.list.nodes@[n].clone_slot == o.list.nodes@[n].clone_slot);
    }
    assert forall|n: int, i: int|
        0 <= n < d.list.nodes@.len() && 0 <= i < d.heap.counts@.len() implies #[trigger] d.clone_balanced(n, i) by {
        assert(d.list.nodes@[n].clone_slot == o.list.nodes@[n].clone_slot);
        if i < o.heap.counts@.len() {
            assert(o.clone_balanced(n, i));
            assert(d.owners@[i].count(Owner::Clone(n as usize)) == o.owners@[i].count(Owner::Clone(n as usize)));
        } else {
            assert(d.owners@[i].count(Owner::Clone(n as usize)) == 0);
            assert(o.clone_valid(n));
            let w = o.list.nodes@[n].clone_slot;
            if w == addr_of(i) {
                assert(w % 4 == 0);
                assert(o.heap.valid(w as int));
            }
        }
    }
}


/// The invariant survives when only the clone slot of node `n` and the owners of value `i`
/// change, consistently with each other.
proof fn lemma_clone_word_changed(o: Domain, d: Domain, n: int, i: int, x: usize)
    requires
        o.inv(x),
        0 <= n < o.list.nodes@.len(),
        0 <= i < o.heap.counts@.len(),
        d.heap.wf(),
        d.list.wf(),
        d.cells == o.cells,
        d.writes == o.writes,
        d.claims == o.claims,
        d.list.borrow_slot_count == o.list.borrow_slot_count,
        d.list.nodes@.len() == o.list.nodes@.len(),
        forall|m: int| 0 <= m < o.list.nodes@.len() && m != n ==> #[trigger] d.list.nodes@[m] == o.list.nodes@[m],
        d.list.nodes@[n].borrow_slots@ == o.list.nodes@[n].borrow_slots@,
        d.heap.counts@.len() == o.heap.counts@.len(),
        d.heap.values@ == o.heap.values@,
        d.owners@.len() == o.owners@.len(),
        forall|j: int| 0 <= j < o.heap.counts@.len() && j != i ==> #[trigger] d.heap.counts@[j] == o.heap.counts@[j],
        forall|j: int| 0 <= j < o.heap.counts@.len() && j != i ==> #[trigger] d.owners@[j] == o.owners@[j],
        d.heap.counts@[i] == d.owners@[i].len(),
        forall|w: Owner| #[trigger] d.owners@[i].count(w) > 0 ==> d.owner_in_range(w),
        forall|c: usize| #[trigger] d.owners@[i].count(Owner::Cell(c)) == o.owners@[i].count(Owner::Cell(c)),
        forall|a: usize, b: usize| #[trigger] d.owners@[i].count(Owner::Slot(a, b)) == o.owners@[i].count(Owner::Slot(a, b)),
        forall|m: usize| m != n ==> #[trigger] d.owners@[i].count(Owner::Clone(m)) == o.owners@[i].count(Owner::Clone(m)),
        d.clone_valid(n),
        d.clone_balanced(n, i),
        forall|j: int| 0 <= j < o.heap.counts@.len() && j != i ==> o.list.nodes@[n].clone_slot != addr_of(j) && d.list.nodes@[n].clone_slot != addr_of(j),
        o.in_some_cell(addr_of(i)) ==> d.in_some_cell(addr_of(i)),
    ensures
        d.inv(x),
{
    assert forall|m: int| 0 <= m < d.list.nodes@.len() implies (#[trigger] d.claims@[m]).len() == d.list.borrow_slot_count by {
        assert(o.claims@[m].len() == o.list.borrow_slot_count);
    }
    assert forall|j: int| 0 <= j < d.heap.counts@.len() implies #[trigger] d.count_balanced(j) by {
        assert(o.count_balanced(j));
        if j != i {
            assert forall|w: Owner| #[trigger] d.owners@[j].count(w) > 0 implies d.owner_in_range(w) by {
                assert(o.owners@[j].count(w) > 0);
            }
        }
    }
    assert forall|m: int| 0 <= m < d.list.nodes@.len() implies #[trigger] d.clone_valid(m) by {
        assert(o.clone_valid(m));
    }
    assert forall|m: int, j: int|
        0 <= m < d.list.nodes@.len() && 0 <= j < d.heap.counts@.len() implies #[trigger] d.clone_balanced(m, j) by {
        assert(o.clone_balanced(m, j));
        if m != n && j == i {
            assert(d.owners@[i].count(Owner::Clone(m as usize)) == o.owners@[i].count(Owner::Clone(m as usize)));
        }
    }
    assert forall|m: int, t: int| #![trigger d.slot_valid(m, t)] #![trigger d.slot_protected(m, t, x)]
        d.list.slot_in_range(m, t) implies d.slot_valid(m, t) && d.slot_protected(m, t, x) by {
        assert(o.slot_valid(m, t));
        assert(o.slot_protected(m, t, x));
        assert(d.list.slot(m, t) == o.list.slot(m, t));
        let v = o.list.slot(m, t);
        if v != 0 && v != x {
            assert(o.in_some_cell(v as int));
            if index_of(v as int) != i {
                let c = choose|c: usize| #[trigger] o.units(v as int, Owner::Cell(c)) > 0;
                assert(d.units(v as int, Owner::Cell(c)) > 0);
            } else {
                assert(o.heap.valid(v as int));
                assert(addr_of(i) == v);
            }
        }
    }
    assert forall|m: int, t: int, j: int|
        d.list.slot_in_range(m, t) && 0 <= j < d.heap.counts@.len() implies #[trigger] d.slot_balanced(m, t, j) by {
        assert(o.slot_balanced(m, t, j));
        assert(d.list.slot(m, t) == o.list.slot(m, t));
        if j == i {
            assert(d.owners@[i].count(Owner::Slot(m as usize, t as usize)) == o.owners@[i].count(Owner::Slot(m as usize, t as usize)));
        }
    }
}

impl Domain {
    /// A writer answers the `PREPARE` advertised in the clone slot of node `n` by depositing a
    /// unit of the value at `a` there.
    pub(crate) fn deposit(&mut self, n: usize, a: usize, Ghost(x): Ghost<usize>)
        requires
            old(self).inv(x),
            n < old(self).list.nodes@.len(),
            old(self).list.nodes@[n as int].clone_slot % 2 == 1,
            old(self).heap.valid(a as int),
            old(self).heap.count(a as int) > 0,
            old(self).heap.count(a as int) < u64::MAX,
        ensures
            final(self).inv(x),
            final(self).cells == old(self).cells,
            final(self).writes == old(self).writes,
            final(self).claims == old(self).claims,
            final(self).heap.values@ == old(self).heap.values@,
            final(self).heap.counts@ == old(self).heap.counts@.update(index_of(a as int), (old(self).heap.count(a as int) + 1) as u64),
            final(self).owners@ == old(self).owners@.update(index_of(a as int), old(self).owners@[index_of(a as int)].insert(Owner::Clone(n))),
            final(self).list.borrow_slot_count == old(self).list.borrow_slot_count,
            final(self).list.nodes@.len() == old(self).list.nodes@.len(),
            forall|m: int| 0 <= m < old(self).list.nodes@.len() && m != n ==> #[trigger] final(self).list.nodes@[m] == old(self).list.nodes@[m],
            same_but_clone(final(self).list.nodes@[n as int], old(self).list.nodes@[n as int]),
            final(self).list.nodes@[n as int].clone_slot == a,
    {
        broadcast use group_multiset_axioms, group_multiset_properties;

        let ghost o = *old(self);
        let ghost i = index_of(a as int);
        assert(addr_of(i) == a);
        assert(o.count_balanced(i));
        assert(o.clone_balanced(n as int, i));
        assert(o.list.nodes@[n as int].wf(o.list.borrow_slot_count as nat));
        self.heap.incr_rc(a);
        self.owners = Ghost(o.owners@.update(i, o.owners@[i].insert(Owner::Clone(n))));
        let atomic_arc_slot = self.list.nodes[n].atomic_arc_slot;
        let clone_generation = self.list.nodes[n].clone_generation;
        let next_borrow_slot_idx = self.list.nodes[n].next_borrow_slot_idx;
        self.list.set_words(n, a, atomic_arc_slot, clone_generation, next_borrow_slot_idx);
        proof {
            if o.in_some_cell(addr_of(i)) {
                let c = choose|c: usize| #[trigger] o.units(addr_of(i), Owner::Cell(c)) > 0;
                assert(self.units(addr_of(i), Owner::Cell(c)) > 0);
            }
            lemma_clone_word_changed(o, *self, n as int, i, x);
        }
    }
}


impl Domain {
    /// The reader of node `n` takes the unit a writer deposited in its clone slot, which is left
    /// `IDLE`; the unit is now held outside.
    pub(crate) fn take_deposit(&mut self, n: usize, Ghost(x): Ghost<usize>) -> (a: usize)
        requires
            old(self).inv(x),
            n < old(self).list.nodes@.len(),
            old(self).list.nodes@[n as int].clone_slot != 0,
            old(self).list.nodes@[n as int].clone_slot % 4 == 0,
        ensures
            final(self).inv(x),
            a == old(self).list.nodes@[n as int].clone_slot,
            final(self).holds(a as int),
            final(self).cells == old(self).cells,
            final(self).writes == old(self).writes,
            final(self).claims == old(self).claims,
            final(self).heap == old(self).heap,
            final(self).owners@ == old(self).owners@.update(index_of(a as int), old(self).owners@[index_of(a as int)].remove(Owner::Clone(n)).insert(Owner::Outside)),
            final(self).list.borrow_slot_count == old(self).list.borrow_slot_count,
            final(self).list.nodes@.len() == old(self).list.nodes@.len(),
            forall|m: int| 0 <= m < old(self).list.nodes@.len() && m != n ==> #[trigger] final(self).list.nodes@[m] == old(self).list.nodes@[m],
            same_but_clone(final(self).list.nodes@[n as int], old(self).list.nodes@[n as int]),
            final(self).list.nodes@[n as int].clone_slot == 0,
    {
        broadcast use group_multiset_axioms, group_multiset_properties;

        let ghost o = *old(self);
        let a = self.list.nodes[n].clone_slot;
        assert(o.clone_valid(n as int));
        let ghost i = index_of(a as int);
        assert(addr_of(i) == a);
        assert(o.count_balanced(i));
        assert(o.clone_balanced(n as int, i));
        assert(o.list.nodes@[n as int].wf(o.list.borrow_slot_count as nat));
        proof { lemma_remove(o.owners@[i], Owner::Clone(n)); }
        self.owners = Ghost(o.owners@.update(i, o.owners@[i].remove(Owner::Clone(n)).insert(Owner::Outside)));
        let atomic_arc_slot = self.list.nodes[n].atomic_arc_slot;
        let clone_generation = self.list.nodes[n].clone_generation;
        let next_borrow_slot_idx = self.list.nodes[n].next_borrow_slot_idx;
        self.list.set_words(n, 0, atomic_arc_slot, clone_generation, next_borrow_slot_idx);
        proof {
            if o.in_some_cell(addr_of(i)) {
                let c = choose|c: usize| #[trigger] o.units(addr_of(i), Owner::Cell(c)) > 0;
                assert(self.units(addr_of(i), Owner::Cell(c)) > 0);
            }
            lemma_clone_word_changed(o, *self, n as int, i, x);
        }
        a
    }
}


impl Domain {
    /// Unbinds a borrow from slot `(n, s)`, which no longer shows its address `p` because a
    /// writer transferred a unit of `p` into the slot: the borrow now owns that unit outside.
    pub(crate) fn unbind_slot(&mut self, n: usize, s: usize, p: usize, Ghost(x): Ghost<usize>)
        requires
            old(self).inv(x),
            old(self).list.slot_in_range(n as int, s as int),
            old(self).claim(n as int, s as int, p as int) > 0,
            old(self).list.slot(n as int, s as int) != p,
        ensures
            final(self).inv(x),
            final(self).holds(p as int),
            final(self).cells == old(self).cells,
            final(self).writes == old(self).writes,
            final(self).heap == old(self).heap,
            final(self).list.borrow_slot_count == old(self).list.borrow_slot_count,
            final(self).list.nodes@ == old(self).list.nodes@,
            final(self).claims@ == old(self).claims@.update(
                n as int,
                old(self).claims@[n as int].update(s as int, old(self).claims@[n as int][s as int].remove(p)),
            ),
            final(self).owners@ == old(self).owners@.update(index_of(p as int), old(self).owners@[index_of(p as int)].remove(Owner::Slot(n, s)).insert(Owner::Outside)),
    {
        broadcast use group_multiset_axioms, group_multiset_properties;

        let ghost o = *old(self);
        assert(o.slot_valid(n as int, s as int));
        let ghost cl = o.claims@;
        let ghost i = index_of(p as int);
        proof {
            lemma_remove(cl[n as int][s as int], p);
            assert(o.slot_balanced(n as int, s as int, i));
            assert(addr_of(i) == p);
            assert(o.count_balanced(i));
            lemma_remove(o.owners@[i], Owner::Slot(n, s));
        }
        self.owners = Ghost(o.owners@.update(i, o.owners@[i].remove(Owner::Slot(n, s)).insert(Owner::Outside)));
        self.claims = Ghost(cl.update(n as int, cl[n as int].update(s as int, cl[n as int][s as int].remove(p))));
        assert forall|m: int| 0 <= m < self.list.nodes@.len() implies (#[trigger] self.claims@[m]).len() == self.list.borrow_slot_count by {
            assert(o.claims@[m].len() == o.list.borrow_slot_count);
        }
        assert forall|j: int| 0 <= j < self.heap.counts@.len() implies #[trigger] self.count_balanced(j) by {
            assert(o.count_balanced(j));
            assert forall|w: Owner| #[trigger] self.owners@[j].count(w) > 0 implies self.owner_in_range(w) by {
                if !(j == i && w == Owner::Outside) {
                    assert(o.owners@[j].count(w) > 0);
                }
            }
        }
        assert forall|m: int, t: int| #![trigger self.slot_valid(m, t)] #![trigger self.slot_protected(m, t, x)]
            self.list.slot_in_range(m, t) implies self.slot_valid(m, t) && self.slot_protected(m, t, x) by {
            assert(o.slot_valid(m, t));
            assert(o.slot_protected(m, t, x));
            if m == n as int && t == s as int {
                assert forall|a: usize| #[trigger] self.claims@[m][t].count(a) > 0 implies self.heap.valid(a as int) by {
                    assert(o.claims@[m][t].count(a) > 0);
                }
            } else {
                assert(self.claims@[m][t] == o.claims@[m][t]);
            }
            let v = o.list.slot(m, t);
            if v != 0 && v != x {
                assert(o.in_some_cell(v as int));
                let c = choose|c: usize| #[trigger] o.units(v as int, Owner::Cell(c)) > 0;
                assert(self.units(v as int, Owner::Cell(c)) > 0);
            }
        }
        assert forall|m: int, t: int, j: int|
            self.list.slot_in_range(m, t) && 0 <= j < self.heap.counts@.len()
                implies #[trigger] self.slot_balanced(m, t, j) by {
            assert(o.slot_balanced(m, t, j));
            if !(m == n as int && t == s as int) {
                assert(self.claims@[m][t] == o.claims@[m][t]);
            }
        }
        proof {
            lemma_clone_frame(o, *self);
        }
    }
}

} // verus!
