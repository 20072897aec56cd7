//! The atomic cell and its borrows: the load, swap and compare-exchange protocols.

use vstd::prelude::*;
use vstd::multiset::*;

use crate::domain::{exchange_owners, lemma_remove, same_but_clone, same_but_slots, Domain, Owner, MAX_CELLS, MAX_NODES, MAX_SLOTS};
use crate::heap::{addr_of, index_of, Handle};
use crate::tag::{GENERATION_INCR, MAX_GENERATION, PREPARE_CLONE_FLAG};
use crate::write_policy::WritePolicy;

verus! {

/// A cell holding a counted reference to a value, or null. Its word lives in the domain's shared
/// memory and owns one unit of the value's count; readers borrow the value through their thread
/// node's slots.
pub struct AtomicArc {
    /// Identifier of the cell in its domain, whose word it names; its address is `4 * id + 4`.
    pub id: usize,
    /// Whether the cell follows the concurrent-writer policy.
    pub concurrent: bool,
}

/// A borrow of the value a cell held at a load. While it is held the value is not freed.
///
/// Bound to a borrow slot `(node, slot)` it owns no unit while the slot still shows its address;
/// unbound it owns one unit. A null borrow owns nothing.
pub struct ArcPtrBorrow {
    pub ptr: usize,
    pub slot: Option<(usize, usize)>,
}

/// Counts, claims and cells only ever gain from `d0` to `d1`: whatever was held stays held.
pub open spec fn grows(d0: Domain, d1: Domain) -> bool {
    &&& d1.heap.values@ == d0.heap.values@
    &&& d1.heap.counts@.len() == d0.heap.counts@.len()
    &&& d1.cells@.len() == d0.cells@.len()
    &&& d1.list.borrow_slot_count == d0.list.borrow_slot_count
    &&& d1.list.nodes@.len() == d0.list.nodes@.len()
    &&& forall|i: int, o: Owner|
        0 <= i < d0.owners@.len() ==> #[trigger] d1.owners@[i].count(o) >= d0.owners@[i].count(o)
    &&& forall|i: int, c: usize|
        0 <= i < d0.owners@.len() ==> #[trigger] d1.owners@[i].count(Owner::Cell(c))
            == d0.owners@[i].count(Owner::Cell(c))
    &&& forall|n: int, s: int, a: usize|
        d0.list.slot_in_range(n, s) ==> #[trigger] d1.claims@[n][s].count(a)
            >= d0.claims@[n][s].count(a)
}

/// Address of the cell with identifier `id`, which the serialized clone handshake advertises.
pub open spec fn cell_addr(id: int) -> int {
    4 * id + 4
}

impl ArcPtrBorrow {
    /// The borrow is one that domain `d` accounts for.
    pub open spec fn held_in(&self, d: Domain) -> bool {
        match self.slot {
            None => self.ptr == 0 || d.holds(self.ptr as int),
            Some((n, s)) => {
                &&& self.ptr != 0
                &&& d.list.slot_in_range(n as int, s as int)
                &&& d.heap.valid(self.ptr as int)
                &&& d.claim(n as int, s as int, self.ptr as int) > 0
            },
        }
    }

    /// Whether the borrow is null.
    pub fn is_null(&self) -> (r: bool)
        ensures
            r == (self.ptr == 0),
    {
        self.ptr == 0
    }

    /// The raw address the borrow refers to.
    pub fn as_ptr(&self) -> (r: usize)
        ensures
            r == self.ptr,
    {
        self.ptr
    }
}

impl AtomicArc {
    /// The cell is one of domain `d`.
    pub open spec fn in_domain(&self, d: Domain) -> bool {
        self.id < d.cells@.len()
    }

    /// The raw address the cell holds in `d`, zero when null.
    pub open spec fn ptr(&self, d: Domain) -> usize {
        d.cells@[self.id as int]
    }

    /// What a completed load leaves: `r` borrows the value the cell holds, bound to a free
    /// slot of `node`, or owning one more unit of the count.
    pub open spec fn load_post(&self, d0: Domain, node: int, d1: Domain, r: ArcPtrBorrow) -> bool {
        let p = self.ptr(d0);
        &&& d1.wf()
        &&& grows(d0, d1)
        &&& d1.cells == d0.cells
        &&& d1.writes == d0.writes
        &&& r.held_in(d1)
        &&& r.ptr == p
        &&& p == 0 ==> r.slot is None && d1.heap == d0.heap && d1.owners == d0.owners
            && d1.claims == d0.claims
        &&& d0.list.borrow_slot_count == 0 ==> r.slot is None
        &&& forall|m: int|
            0 <= m < d0.list.nodes@.len() ==> (#[trigger] d1.list.nodes@[m]).clone_slot
                == d0.list.nodes@[m].clone_slot
        &&& forall|m: int, t: int|
            d0.list.slot_in_range(m, t) ==> #[trigger] d1.list.slot(m, t) == if r.slot == Some(
                (m as usize, t as usize),
            ) {
                p
            } else {
                d0.list.slot(m, t)
            }
        &&& match r.slot {
            Some((n, s)) => {
                &&& n == node
                &&& d0.list.slot(n as int, s as int) == 0
                &&& d0.list.slot(node, cursor_slot(d0, node)) == 0 ==> s == cursor_slot(d0, node)
                &&& d0.list.slot(node, cursor_slot(d0, node)) != 0 ==> forall|t: int|
                    0 <= t < s ==> #[trigger] d0.list.slot(node, t) != 0
                &&& d1.list.nodes@[node].next_borrow_slot_idx == cursor_after(d0, node, s as int)
                &&& d1.list.slot(n as int, s as int) == p
                &&& d1.heap == d0.heap
                &&& d1.owners == d0.owners
                &&& d1.claims@ == d0.claims@.update(
                    n as int,
                    d0.claims@[n as int].update(s as int, d0.claims@[n as int][s as int].insert(p)),
                )
            },
            None => p != 0 ==> {
                &&& d1.heap.counts@ == d0.heap.counts@.update(
                    index_of(p as int),
                    (d0.heap.count(p as int) + 1) as u64,
                )
                &&& d1.owners@ == d0.owners@.update(
                    index_of(p as int),
                    d0.owners@[index_of(p as int)].insert(Owner::Outside),
                )
                &&& d1.claims == d0.claims
                &&& d1.list.nodes@[node].next_borrow_slot_idx == d0.list.nodes@[node].next_borrow_slot_idx
                &&& forall|s: int|
                    0 <= s < d0.list.borrow_slot_count ==> #[trigger] d0.list.slot(node, s) != 0
            },
        }
    }

    /// Creates a null cell in `d`.
    pub fn none<W: WritePolicy>(d: &mut Domain) -> (r: AtomicArc)
        requires
            old(d).wf(),
            old(d).cells@.len() + 1 < MAX_CELLS,
        ensures
            final(d).wf(),
            r.in_domain(*final(d)),
            r.ptr(*final(d)) == 0,
            r.id == old(d).cells@.len(),
            r.concurrent == W::concurrent_spec(),
            final(d).cells@ == old(d).cells@.push(0),
            final(d).writes@ == old(d).writes@.push(0),
            final(d).heap == old(d).heap,
            final(d).list == old(d).list,
            final(d).owners == old(d).owners,
            final(d).claims == old(d).claims,
    {
        let id = d.new_cell();
        AtomicArc { id, concurrent: W::concurrent() }
    }

    /// Whether the cell is null.
    pub fn is_none(&self, d: &Domain) -> (r: bool)
        requires
            self.in_domain(*d),
        ensures
            r == (self.ptr(*d) == 0),
    {
        d.cells[self.id] == 0
    }
}

/// A load that stays clear of count overflow.
pub open spec fn load_ready(cell: AtomicArc, d: Domain, node: int) -> bool {
    &&& d.wf()
    &&& d.room()
    &&& cell.in_domain(d)
    &&& 0 <= node < d.list.nodes@.len()
    &&& d.list.nodes@[node].clone_slot == 0
}

/// The value a cell holds is live: its unit is counted.
proof fn lemma_cell_value_live(cell: AtomicArc, d: Domain)
    requires
        d.inv(0),
        cell.in_domain(d),
        cell.ptr(d) != 0,
    ensures
        d.heap.valid(cell.ptr(d) as int),
        d.heap.count(cell.ptr(d) as int) > 0,
        d.in_some_cell(cell.ptr(d) as int),
        d.units(cell.ptr(d) as int, Owner::Cell(cell.id)) == 1,
{
    broadcast use group_multiset_axioms;

    let p = cell.ptr(d);
    assert(d.heap.valid(p as int));
    let i = index_of(p as int);
    assert(addr_of(i) == p);
    assert(d.count_balanced(i));
    assert(d.owners@[i].count(Owner::Cell(cell.id)) == 1);
    assert(d.units(p as int, Owner::Cell(cell.id)) > 0);
}

/// A load begun on a thread node and not finished yet: between its two steps, any other
/// operation may run.
#[derive(Clone, Copy)]
pub enum PendingLoad {
    /// The cell was null.
    Null,
    /// The cell's address `ptr` is published in borrow slot `slot` of `node`.
    Reserved { node: usize, slot: usize, ptr: usize },
    /// The clone slot of `node` advertises `PREPARE` with the word `prepare`.
    Advertised { node: usize, prepare: usize },
}

impl PendingLoad {
    /// The pending load is one of `cell` that `d` accounts for: its reservation is claimed, or
    /// its clone slot still advertises, or holds what a writer deposited there.
    pub open spec fn held_in(&self, cell: AtomicArc, d: Domain) -> bool {
        match *self {
            PendingLoad::Null => true,
            PendingLoad::Reserved { node, slot, ptr } => {
                &&& d.list.slot_in_range(node as int, slot as int)
                &&& ptr != 0
                &&& d.heap.valid(ptr as int)
                &&& d.claim(node as int, slot as int, ptr as int) > 0
                &&& d.list.nodes@[node as int].clone_slot == 0
            },
            PendingLoad::Advertised { node, prepare } => {
                let w = d.list.nodes@[node as int].clone_slot;
                &&& node < d.list.nodes@.len()
                &&& prepare % 2 == 1
                &&& d.list.nodes@[node as int].atomic_arc_slot == cell_addr(cell.id as int)
                &&& cell.concurrent || prepare == cell_addr(cell.id as int) + 1
                &&& w == prepare || (w != 0 && w % 4 == 0)
            },
        }
    }
}

/// The generation that follows `g`, wrapping after the last one.
pub open spec fn next_generation(g: usize) -> usize {
    if g < MAX_GENERATION {
        (g + 2) as usize
    } else {
        0
    }
}

/// The slot the round-robin cursor of `node` points at: slot 0 when there is only one.
pub open spec fn cursor_slot(d: Domain, node: int) -> int {
    if d.list.borrow_slot_count == 1 {
        0
    } else {
        d.list.nodes@[node].next_borrow_slot_idx as int
    }
}

/// The cursor of `node` after a load bound to slot `s`: one past it, modulo the slot count.
pub open spec fn cursor_after(d: Domain, node: int, s: int) -> usize {
    if d.list.borrow_slot_count > 1 {
        ((s + 1) % (d.list.borrow_slot_count as int)) as usize
    } else {
        d.list.nodes@[node].next_borrow_slot_idx
    }
}

/// The slot a load of `node` publishes in: the cursor's when it is free, else the first free
/// one; `None` when every slot is reserved.
fn select_slot(d: &Domain, node: usize) -> (r: Option<usize>)
    requires
        d.wf(),
        node < d.list.nodes@.len(),
        d.list.borrow_slot_count > 0,
    ensures
        match r {
            Some(i) => {
                &&& i < d.list.borrow_slot_count
                &&& d.list.slot(node as int, i as int) == 0
                &&& d.list.slot(node as int, cursor_slot(*d, node as int)) == 0 ==> i == cursor_slot(*d, node as int)
                &&& d.list.slot(node as int, cursor_slot(*d, node as int)) != 0 ==> forall|t: int|
                    0 <= t < i ==> #[trigger] d.list.slot(node as int, t) != 0
            },
            None => forall|t: int|
                0 <= t < d.list.borrow_slot_count ==> #[trigger] d.list.slot(node as int, t) != 0,
        },
{
    let sc = d.list.borrow_slot_count;
    assert(d.list.nodes@[node as int].wf(sc as nat));
    let idx = if sc == 1 { 0 } else { d.list.nodes[node].next_borrow_slot_idx };
    if d.list.nodes[node].borrow_slots[idx] == 0 {
        return Some(idx);
    }
    let mut s: usize = 0;
    while s < sc
        invariant
            d.wf(),
            node < d.list.nodes@.len(),
            sc == d.list.borrow_slot_count,
            d.list.nodes@[node as int].wf(sc as nat),
            s <= sc,
            idx as int == cursor_slot(*d, node as int),
            d.list.slot(node as int, idx as int) != 0,
            forall|t: int| 0 <= t < s ==> #[trigger] d.list.slot(node as int, t) != 0,
        decreases sc - s,
    {
        if d.list.nodes[node].borrow_slots[s] == 0 {
            return Some(s);
        }
        s = s + 1;
    }
    None
}

impl AtomicArc {
    /// First step of the clone handshake: stamp `node` with this cell and advertise `PREPARE(k)`
    /// in its clone slot. `k` is the cell's address, or under the concurrent-writer policy a
    /// fresh generation of the node; at the last generation the node is given back, and the
    /// thread takes a node again on its next operation.
    fn advertise(&self, d: &mut Domain, node: usize) -> (prepare: usize)
        requires
            load_ready(*self, *old(d), node as int),
        ensures
            final(d).wf(),
            final(d).room(),
            final(d).cells == old(d).cells,
            final(d).writes == old(d).writes,
            final(d).heap == old(d).heap,
            final(d).owners == old(d).owners,
            final(d).claims == old(d).claims,
            final(d).list.borrow_slot_count == old(d).list.borrow_slot_count,
            final(d).list.nodes@.len() == old(d).list.nodes@.len(),
            forall|m: int| 0 <= m < old(d).list.nodes@.len() && m != node ==> #[trigger] final(d).list.nodes@[m] == old(d).list.nodes@[m],
            final(d).list.nodes@[node as int].borrow_slots@ == old(d).list.nodes@[node as int].borrow_slots@,
            final(d).list.nodes@[node as int].next_borrow_slot_idx == old(d).list.nodes@[node as int].next_borrow_slot_idx,
            final(d).list.nodes@[node as int].clone_slot == prepare,
            (PendingLoad::Advertised { node, prepare }).held_in(*self, *final(d)),
            self.concurrent ==> {
                &&& prepare == old(d).list.nodes@[node as int].clone_generation + 1
                &&& final(d).list.nodes@[node as int].clone_generation == next_generation(old(d).list.nodes@[node as int].clone_generation)
                &&& final(d).list.nodes@[node as int].in_use == (old(d).list.nodes@[node as int].in_use
                    && old(d).list.nodes@[node as int].clone_generation != MAX_GENERATION)
            },
            !self.concurrent ==> {
                &&& prepare == cell_addr(self.id as int) + 1
                &&& final(d).list.nodes@[node as int].clone_generation == old(d).list.nodes@[node as int].clone_generation
                &&& final(d).list.nodes@[node as int].in_use == old(d).list.nodes@[node as int].in_use
            },
    {
        let ghost d0 = *d;
        assert(d0.list.nodes@[node as int].wf(d0.list.borrow_slot_count as nat));
        let self_addr = 4 * self.id + 4;
        let generation = d.list.nodes[node].clone_generation;
        let cursor = d.list.nodes[node].next_borrow_slot_idx;
        let prepare = if self.concurrent {
            let next = if generation < MAX_GENERATION { generation + GENERATION_INCR } else { 0 };
            d.set_node_words(node, 0, self_addr, next, cursor, Ghost(0));
            if generation == MAX_GENERATION {
                d.release_node(node);
            }
            generation + PREPARE_CLONE_FLAG
        } else {
            d.set_node_words(node, 0, self_addr, generation, cursor, Ghost(0));
            self_addr + PREPARE_CLONE_FLAG
        };
        let atomic_arc_slot = d.list.nodes[node].atomic_arc_slot;
        let generation = d.list.nodes[node].clone_generation;
        assert(d.list.nodes@[node as int].wf(d.list.borrow_slot_count as nat));
        d.set_node_words(node, prepare, atomic_arc_slot, generation, cursor, Ghost(0));
        prepare
    }

    /// What finishing a clone handshake of `node` advertising `prepare` leaves. If the clone slot
    /// still advertises, the reader re-reads the cell, confirms, takes a unit of the value itself
    /// and clears the slot, all in this one step, so that no writer ever meets the slot in
    /// `CONFIRM`; if a writer deposited a value there, the reader takes that value with its
    /// unit. Either way the borrow owns its unit, and a null cell gives a null borrow.
    pub open spec fn finish_clone_post(&self, d0: Domain, node: int, prepare: usize, d1: Domain, r: ArcPtrBorrow) -> bool {
        let p = self.ptr(d0);
        let w = d0.list.nodes@[node].clone_slot;
        &&& d1.wf()
        &&& r.held_in(d1)
        &&& r.slot is None
        &&& d1.cells == d0.cells
        &&& d1.writes == d0.writes
        &&& d1.claims == d0.claims
        &&& d1.heap.values@ == d0.heap.values@
        &&& d1.list.borrow_slot_count == d0.list.borrow_slot_count
        &&& d1.list.nodes@.len() == d0.list.nodes@.len()
        &&& forall|m: int| 0 <= m < d0.list.nodes@.len() && m != node ==> #[trigger] d1.list.nodes@[m] == d0.list.nodes@[m]
        &&& same_but_clone(d1.list.nodes@[node], d0.list.nodes@[node])
        &&& d1.list.nodes@[node].clone_slot == 0
        &&& w == prepare ==> {
            &&& r.ptr == p
            &&& p == 0 ==> d1.heap == d0.heap && d1.owners == d0.owners
            &&& p != 0 ==> {
                &&& d1.heap.counts@ == d0.heap.counts@.update(index_of(p as int), (d0.heap.count(p as int) + 1) as u64)
                &&& d1.owners@ == d0.owners@.update(index_of(p as int), d0.owners@[index_of(p as int)].insert(Owner::Outside))
            }
        }
        &&& w != prepare ==> {
            &&& p != 0 ==> {
                &&& r.ptr == w
                &&& d1.heap == d0.heap
                &&& d1.owners@ == d0.owners@.update(index_of(w as int), d0.owners@[index_of(w as int)].remove(Owner::Clone(node as usize)).insert(Owner::Outside))
            }
            &&& p == 0 ==> {
                &&& r.ptr == 0
                &&& d1.heap.counts@ == d0.heap.counts@.update(index_of(w as int), (d0.heap.count(w as int) - 1) as u64)
                &&& d1.owners@ == d0.owners@.update(index_of(w as int), d0.owners@[index_of(w as int)].remove(Owner::Clone(node as usize)).insert(Owner::Outside).remove(Owner::Outside))
            }
        }
    }

    /// Second step of the clone handshake.
    fn finish_clone(&self, d: &mut Domain, node: usize, prepare: usize) -> (r: ArcPtrBorrow)
        requires
            old(d).wf(),
            old(d).room(),
            self.in_domain(*old(d)),
            (PendingLoad::Advertised { node, prepare }).held_in(*self, *old(d)),
        ensures
            self.finish_clone_post(*old(d), node as int, prepare, *final(d), r),
    {
        broadcast use group_multiset_axioms, group_multiset_properties;

        let ghost d0 = *d;
        assert(d0.list.nodes@[node as int].wf(d0.list.borrow_slot_count as nat));
        let cur = d.cells[self.id];
        let w = d.list.nodes[node].clone_slot;
        let atomic_arc_slot = d.list.nodes[node].atomic_arc_slot;
        let generation = d.list.nodes[node].clone_generation;
        let cursor = d.list.nodes[node].next_borrow_slot_idx;
        if cur == 0 {
            if w == prepare {
                d.set_node_words(node, 0, atomic_arc_slot, generation, cursor, Ghost(0));
            } else {
                let a = d.take_deposit(node, Ghost(0));
                d.release_unit(a, Ghost(0));
                let ghost i = index_of(a as int);
                assert(d.owners@ =~= d0.owners@.update(i, d0.owners@[i].remove(Owner::Clone(node)).insert(Owner::Outside).remove(Owner::Outside)));
            }
            return ArcPtrBorrow { ptr: 0, slot: None };
        }
        proof { lemma_cell_value_live(*self, d0); }
        if w == prepare {
            // No writer answered: the exchange to `CONFIRM(cur)` succeeds and, within this step,
            // so does the clear back to `IDLE` after the reader took its unit.
            assert(d.heap.counts@[index_of(cur as int)] < crate::domain::ROOM);
            d.acquire_unit(cur, Ghost(0));
            d.set_node_words(node, 0, atomic_arc_slot, generation, cursor, Ghost(0));
            ArcPtrBorrow { ptr: cur, slot: None }
        } else {
            let a = d.take_deposit(node, Ghost(0));
            ArcPtrBorrow { ptr: a, slot: None }
        }
    }
}


impl AtomicArc {
    /// Creates a cell in `d` holding the value of `arc`, whose unit it takes over.
    pub fn new<W: WritePolicy>(d: &mut Domain, arc: Handle) -> (r: AtomicArc)
        requires
            old(d).wf(),
            old(d).holds(arc@ as int),
            old(d).cells@.len() + 1 < MAX_CELLS,
        ensures
            final(d).wf(),
            r.in_domain(*final(d)),
            r.ptr(*final(d)) == arc@,
            r.id == old(d).cells@.len(),
            r.concurrent == W::concurrent_spec(),
            final(d).cells@ == old(d).cells@.push(arc@),
            final(d).writes@ == old(d).writes@.push(1),
            final(d).heap == old(d).heap,
            final(d).list == old(d).list,
            final(d).claims == old(d).claims,
            final(d).owners@ == old(d).owners@.update(
                index_of(arc@ as int),
                old(d).owners@[index_of(arc@ as int)].remove(Owner::Outside).insert(Owner::Cell(r.id)),
            ),
    {
        let id = d.new_cell();
        let ptr = Handle::into_ptr(arc);
        let prev = d.exchange_cell(id, ptr);
        assert(d.cells@ =~= old(d).cells@.push(ptr));
        assert(d.writes@ =~= old(d).writes@.push(1));
        AtomicArc { id, concurrent: W::concurrent() }
    }

}

impl AtomicArc {
    /// What the first step of a load leaves: the cell's address published in a free borrow slot
    /// of `node`, or, when the node has none, a clone handshake advertised; nothing for a null
    /// cell.
    pub open spec fn begin_post(&self, d0: Domain, node: int, d1: Domain, r: PendingLoad) -> bool {
        let p = self.ptr(d0);
        &&& d1.wf()
        &&& d1.room()
        &&& r.held_in(*self, d1)
        &&& d1.cells == d0.cells
        &&& d1.writes == d0.writes
        &&& d1.heap == d0.heap
        &&& d1.owners == d0.owners
        &&& d1.list.borrow_slot_count == d0.list.borrow_slot_count
        &&& d1.list.nodes@.len() == d0.list.nodes@.len()
        &&& forall|m: int| 0 <= m < d0.list.nodes@.len() && m != node ==> #[trigger] d1.list.nodes@[m] == d0.list.nodes@[m]
        &&& (p == 0) == (r is Null)
        &&& match r {
            PendingLoad::Null => d1 == d0,
            PendingLoad::Reserved { node: n, slot, ptr } => {
                &&& n == node
                &&& ptr == p
                &&& d0.list.slot(node, slot as int) == 0
                &&& d0.list.slot(node, cursor_slot(d0, node)) == 0 ==> slot == cursor_slot(d0, node)
                &&& d0.list.slot(node, cursor_slot(d0, node)) != 0 ==> forall|t: int|
                    0 <= t < slot ==> #[trigger] d0.list.slot(node, t) != 0
                &&& d1.list.nodes@[node].borrow_slots@ == d0.list.nodes@[node].borrow_slots@.update(slot as int, p)
                &&& same_but_slots(d1.list.nodes@[node], d0.list.nodes@[node])
                &&& d1.claims@ == d0.claims@.update(node, d0.claims@[node].update(slot as int, d0.claims@[node][slot as int].insert(p)))
            },
            PendingLoad::Advertised { node: n, prepare } => {
                &&& n == node
                &&& forall|t: int| 0 <= t < d0.list.borrow_slot_count ==> #[trigger] d0.list.slot(node, t) != 0
                &&& d1.claims == d0.claims
                &&& d1.list.nodes@[node].borrow_slots@ == d0.list.nodes@[node].borrow_slots@
                &&& d1.list.nodes@[node].next_borrow_slot_idx == d0.list.nodes@[node].next_borrow_slot_idx
                &&& d1.list.nodes@[node].clone_slot == prepare
            },
        }
    }

    /// First step of a load from the thread node `node`: publish the cell's address in a free
    /// borrow slot (the cursor's, or the first free one), or, when the node has no free slot,
    /// advertise a clone handshake.
    pub fn begin_load(&self, d: &mut Domain, node: usize) -> (r: PendingLoad)
        requires
            load_ready(*self, *old(d), node as int),
        ensures
            self.begin_post(*old(d), node as int, *final(d), r),
    {
        broadcast use group_multiset_axioms, group_multiset_properties;

        let ghost d0 = *d;
        let ptr = d.cells[self.id];
        if ptr == 0 {
            return PendingLoad::Null;
        }
        if d.list.borrow_slot_count == 0 {
            let prepare = self.advertise(d, node);
            return PendingLoad::Advertised { node, prepare };
        }
        match select_slot(d, node) {
            Some(slot) => {
                proof { lemma_cell_value_live(*self, d0); }
                assert(d0.list.nodes@[node as int].wf(d0.list.borrow_slot_count as nat));
                d.reserve_slot(node, slot, ptr, Ghost(0));
                assert(d.claim(node as int, slot as int, ptr as int) > 0);
                PendingLoad::Reserved { node, slot, ptr }
            },
            None => {
                let prepare = self.advertise(d, node);
                PendingLoad::Advertised { node, prepare }
            },
        }
    }

    /// What the second step of a load leaves, from `pending`. A reservation still matching the
    /// cell becomes a borrow bound to its slot; one the cell has moved past is given up: if a
    /// writer already transferred a unit into the slot the borrow owns that unit, otherwise the
    /// slot is cleared and the load goes through the clone handshake.
    pub open spec fn finish_post(&self, d0: Domain, pending: PendingLoad, d1: Domain, r: ArcPtrBorrow) -> bool {
        let p = self.ptr(d0);
        &&& d1.wf()
        &&& r.held_in(d1)
        &&& d1.cells == d0.cells
        &&& d1.writes == d0.writes
        &&& d1.heap.values@ == d0.heap.values@
        &&& d1.list.borrow_slot_count == d0.list.borrow_slot_count
        &&& d1.list.nodes@.len() == d0.list.nodes@.len()
        &&& match pending {
            PendingLoad::Null => r.ptr == 0 && r.slot is None && d1 == d0,
            PendingLoad::Reserved { node, slot, ptr } => {
                &&& p == ptr ==> {
                    &&& r.ptr == ptr
                    &&& r.slot == Some((node, slot))
                    &&& d1.heap == d0.heap
                    &&& d1.owners == d0.owners
                    &&& d1.claims == d0.claims
                    &&& forall|m: int| 0 <= m < d0.list.nodes@.len() && m != node ==> #[trigger] d1.list.nodes@[m] == d0.list.nodes@[m]
                    &&& d1.list.nodes@[node as int].borrow_slots@ == d0.list.nodes@[node as int].borrow_slots@
                    &&& d1.list.nodes@[node as int].clone_slot == d0.list.nodes@[node as int].clone_slot
                    &&& d1.list.nodes@[node as int].in_use == d0.list.nodes@[node as int].in_use
                    &&& d1.list.nodes@[node as int].atomic_arc_slot == d0.list.nodes@[node as int].atomic_arc_slot
                    &&& d1.list.nodes@[node as int].clone_generation == d0.list.nodes@[node as int].clone_generation
                    &&& d1.list.nodes@[node as int].next_borrow_slot_idx == cursor_after(d0, node as int, slot as int)
                }
                &&& p != ptr ==> self.outdated_post(d0, node as int, slot as int, ptr, d1, r)
            },
            PendingLoad::Advertised { node, prepare } => self.finish_clone_post(d0, node as int, prepare, d1, r),
        }
    }

    /// What giving up a reservation of `ptr` in slot `(node, slot)` leaves, once the cell moved
    /// past it. Its claim is removed. With a null cell the borrow is null: a slot still showing
    /// `ptr` is cleared, otherwise the unit a writer transferred there is given back. Otherwise,
    /// if a writer cleared the slot, the borrow takes the unit it transferred there; if not, the
    /// slot is cleared and the clone handshake, which no writer answers within the step, gives a
    /// borrow of the cell's value owning a unit the reader took.
    pub open spec fn outdated_post(&self, d0: Domain, node: int, slot: int, ptr: usize, d1: Domain, r: ArcPtrBorrow) -> bool {
        let p = self.ptr(d0);
        let ip = index_of(ptr as int);
        let shown = d0.list.slot(node, slot) == ptr;
        &&& d1.wf()
        &&& r.held_in(d1)
        &&& r.slot is None
        &&& d1.cells == d0.cells
        &&& d1.writes == d0.writes
        &&& d1.heap.values@ == d0.heap.values@
        &&& d1.list.borrow_slot_count == d0.list.borrow_slot_count
        &&& d1.list.nodes@.len() == d0.list.nodes@.len()
        &&& forall|m: int| 0 <= m < d0.list.nodes@.len() && m != node ==> #[trigger] d1.list.nodes@[m] == d0.list.nodes@[m]
        &&& d1.claims@ == d0.claims@.update(node, d0.claims@[node].update(slot, d0.claims@[node][slot].remove(ptr)))
        &&& forall|t: int|
            0 <= t < d0.list.borrow_slot_count ==> #[trigger] d1.list.slot(node, t) == if t == slot && shown {
                0
            } else {
                d0.list.slot(node, t)
            }
        &&& d1.list.nodes@[node].next_borrow_slot_idx == d0.list.nodes@[node].next_borrow_slot_idx
        &&& d1.list.nodes@[node].clone_slot == 0
        &&& p == 0 ==> {
            &&& r.ptr == 0
            &&& shown ==> d1.heap == d0.heap && d1.owners == d0.owners
            &&& !shown ==> {
                &&& d1.heap.counts@ == d0.heap.counts@.update(ip, (d0.heap.count(ptr as int) - 1) as u64)
                &&& d1.owners@ == d0.owners@.update(ip, d0.owners@[ip].remove(Owner::Slot(node as usize, slot as usize)))
            }
        }
        &&& p != 0 && !shown ==> {
            &&& r.ptr == ptr
            &&& d1.heap == d0.heap
            &&& d1.owners@ == d0.owners@.update(ip, d0.owners@[ip].remove(Owner::Slot(node as usize, slot as usize)).insert(Owner::Outside))
        }
        &&& p != 0 && shown ==> {
            &&& r.ptr == p
            &&& d1.heap.counts@ == d0.heap.counts@.update(index_of(p as int), (d0.heap.count(p as int) + 1) as u64)
            &&& d1.owners@ == d0.owners@.update(index_of(p as int), d0.owners@[index_of(p as int)].insert(Owner::Outside))
        }
    }

    /// A reservation of `ptr` in slot `(node, slot)` that the cell moved past, now holding
    /// `cur`: give it up. If a writer cleared the slot, it transferred a unit of `ptr` there,
    /// which the borrow takes; otherwise the slot is cleared and the load falls back to the clone
    /// handshake. A null cell gives a null borrow, after giving back any transferred unit.
    fn load_outdated(&self, d: &mut Domain, node: usize, slot: usize, ptr: usize) -> (r: ArcPtrBorrow)
        requires
            old(d).wf(),
            old(d).room(),
            self.in_domain(*old(d)),
            self.ptr(*old(d)) != ptr,
            (PendingLoad::Reserved { node, slot, ptr }).held_in(*self, *old(d)),
        ensures
            self.outdated_post(*old(d), node as int, slot as int, ptr, *final(d), r),
    {
        broadcast use group_multiset_axioms, group_multiset_properties;

        let ghost d0 = *d;
        let cur = d.cells[self.id];
        assert(d.list.nodes@[node as int].wf(d.list.borrow_slot_count as nat));
        if cur == 0 {
            let b = ArcPtrBorrow { ptr, slot: Some((node, slot)) };
            b.release(d);
            proof {
                assert forall|t: int| 0 <= t < d0.list.borrow_slot_count implies #[trigger] d.list.slot(node as int, t) == if t == slot && d0.list.slot(node as int, slot as int) == ptr { 0 } else { d0.list.slot(node as int, t) } by {}
                if d0.list.slot(node as int, slot as int) != ptr {
                    assert(d.list.nodes@ =~= d0.list.nodes@);
                }
            }
            return ArcPtrBorrow { ptr: 0, slot: None };
        }
        if d.list.nodes[node].borrow_slots[slot] != ptr {
            d.unbind_slot(node, slot, ptr, Ghost(0));
            return ArcPtrBorrow { ptr, slot: None };
        }
        let cleared = d.release_slot(node, slot, ptr, Ghost(0));
        let ghost d1 = *d;
        assert(d.list.nodes@[node as int].clone_slot == 0);
        assert(d.room()) by {
            assert(d.heap == d0.heap);
        }
        let prepare = self.advertise(d, node);
        let ghost d2 = *d;
        let r = self.finish_clone(d, node, prepare);
        proof {
            assert(d1.list.nodes@[node as int].wf(d1.list.borrow_slot_count as nat));
            assert forall|t: int| 0 <= t < d0.list.borrow_slot_count implies #[trigger] d.list.slot(node as int, t) == if t == slot && d0.list.slot(node as int, slot as int) == ptr { 0 } else { d0.list.slot(node as int, t) } by {
                assert(d.list.slot(node as int, t) == d2.list.slot(node as int, t));
                assert(d2.list.slot(node as int, t) == d1.list.slot(node as int, t));
            }
            assert forall|m: int| 0 <= m < d0.list.nodes@.len() && m != node implies #[trigger] d.list.nodes@[m] == d0.list.nodes@[m] by {
                assert(d2.list.nodes@[m] == d1.list.nodes@[m]);
            }
        }
        r
    }

    /// Second step of a load begun with `begin_load`; any other operation may have run in
    /// between.
    pub fn finish_load(&self, d: &mut Domain, pending: PendingLoad) -> (r: ArcPtrBorrow)
        requires
            old(d).wf(),
            old(d).room(),
            self.in_domain(*old(d)),
            pending.held_in(*self, *old(d)),
        ensures
            self.finish_post(*old(d), pending, *final(d), r),
    {
        match pending {
            PendingLoad::Null => ArcPtrBorrow { ptr: 0, slot: None },
            PendingLoad::Reserved { node, slot, ptr } => {
                let ghost d0 = *d;
                let cur = d.cells[self.id];
                if cur != ptr {
                    return self.load_outdated(d, node, slot, ptr);
                }
                let sc = d.list.borrow_slot_count;
                if sc > 1 {
                    assert(d.list.nodes@[node as int].wf(sc as nat));
                    let clone_slot = d.list.nodes[node].clone_slot;
                    let atomic_arc_slot = d.list.nodes[node].atomic_arc_slot;
                    let clone_generation = d.list.nodes[node].clone_generation;
                    d.set_node_words(node, clone_slot, atomic_arc_slot, clone_generation, (slot + 1) % sc, Ghost(0));
                }
                ArcPtrBorrow { ptr, slot: Some((node, slot)) }
            },
            PendingLoad::Advertised { node, prepare } => self.finish_clone(d, node, prepare),
        }
    }

    /// Loads the value the cell holds, from the thread node `node`: both steps of a load, with
    /// nothing in between.
    ///
    /// The borrow is bound to a free borrow slot of the node (the cursor's, or the first free
    /// one), or, when the node has no free slot, owns a unit taken through the clone handshake.
    /// A null cell gives a null borrow that owns nothing.
    pub fn load(&self, d: &mut Domain, node: usize) -> (r: ArcPtrBorrow)
        requires
            load_ready(*self, *old(d), node as int),
        ensures
            self.load_post(*old(d), node as int, *final(d), r),
    {
        broadcast use group_multiset_axioms, group_multiset_properties;

        let ghost d0 = *d;
        let pending = self.begin_load(d, node);
        let ghost d1 = *d;
        let r = self.finish_load(d, pending);
        proof {
            assert(d0.list.nodes@[node as int].wf(d0.list.borrow_slot_count as nat));
            match pending {
                PendingLoad::Null => {},
                PendingLoad::Reserved { node: n, slot, ptr } => {
                    assert forall|m: int, t: int| d0.list.slot_in_range(m, t) implies #[trigger] d.list.slot(m, t) == if r.slot == Some((m as usize, t as usize)) { self.ptr(d0) } else { d0.list.slot(m, t) } by {
                        if m != node as int {
                            assert(d1.list.nodes@[m] == d0.list.nodes@[m]);
                        }
                    }
                    assert forall|m: int| 0 <= m < d0.list.nodes@.len() implies (#[trigger] d.list.nodes@[m]).clone_slot == d0.list.nodes@[m].clone_slot by {
                        if m != node as int {
                            assert(d1.list.nodes@[m] == d0.list.nodes@[m]);
                        }
                    }
                    assert forall|m: int, t: int, a: usize| d0.list.slot_in_range(m, t) implies #[trigger] d.claims@[m][t].count(a) >= d0.claims@[m][t].count(a) by {}
                },
                PendingLoad::Advertised { node: n, prepare } => {
                    assert(same_but_clone(d.list.nodes@[node as int], d1.list.nodes@[node as int]));
                    assert forall|m: int, t: int| d0.list.slot_in_range(m, t) implies #[trigger] d.list.slot(m, t) == d0.list.slot(m, t) by {
                        if m != node as int {
                            assert(d1.list.nodes@[m] == d0.list.nodes@[m]);
                        }
                    }
                    assert forall|m: int| 0 <= m < d0.list.nodes@.len() implies (#[trigger] d.list.nodes@[m]).clone_slot == d0.list.nodes@[m].clone_slot by {
                        if m != node as int {
                            assert(d1.list.nodes@[m] == d0.list.nodes@[m]);
                        }
                    }
                },
            }
        }
        r
    }
}

/// A borrow that `d` accounts for refers to a live value: its count is not zero.
pub(crate) proof fn lemma_borrow_live(b: ArcPtrBorrow, d: Domain)
    requires
        d.wf(),
        b.held_in(d),
        b.ptr != 0,
    ensures
        d.heap.count(b.ptr as int) > 0,
{
    broadcast use group_multiset_axioms;

    let i = index_of(b.ptr as int);
    assert(addr_of(i) == b.ptr);
    assert(d.count_balanced(i));
    match b.slot {
        None => {
            assert(d.owners@[i].count(Owner::Outside) > 0);
        },
        Some((n, s)) => {
            assert(d.slot_balanced(n as int, s as int, i));
            assert(d.slot_protected(n as int, s as int, 0));
            if d.list.slot(n as int, s as int) == b.ptr {
                let c = choose|c: usize| #[trigger] d.units(b.ptr as int, Owner::Cell(c)) > 0;
                assert(d.owners@[i].count(Owner::Cell(c)) > 0);
            } else {
                assert(d.owners@[i].count(Owner::Slot(n, s)) > 0);
            }
        },
    }
}

impl ArcPtrBorrow {
    /// Ends the borrow. Bound to a slot that still shows its address, it clears the slot;
    /// otherwise it gives back the unit it owns (its own, or the one a writer transferred into
    /// its slot). A null borrow changes nothing.
    pub fn release(self, d: &mut Domain)
        requires
            old(d).wf(),
            self.held_in(*old(d)),
        ensures
            final(d).wf(),
            final(d).cells == old(d).cells,
            final(d).writes == old(d).writes,
            final(d).heap.values@ == old(d).heap.values@,
            final(d).list.borrow_slot_count == old(d).list.borrow_slot_count,
            final(d).list.nodes@.len() == old(d).list.nodes@.len(),
            match self.slot {
                None => if self.ptr == 0 {
                    *final(d) == *old(d)
                } else {
                    &&& final(d).heap.counts@ == old(d).heap.counts@.update(index_of(self.ptr as int), (old(d).heap.count(self.ptr as int) - 1) as u64)
                    &&& final(d).owners@ == old(d).owners@.update(index_of(self.ptr as int), old(d).owners@[index_of(self.ptr as int)].remove(Owner::Outside))
                    &&& final(d).claims == old(d).claims
                    &&& final(d).list == old(d).list
                },
                Some((n, s)) => {
                    &&& final(d).claims@ == old(d).claims@.update(n as int, old(d).claims@[n as int].update(s as int, old(d).claims@[n as int][s as int].remove(self.ptr)))
                    &&& forall|m: int| 0 <= m < old(d).list.nodes@.len() && m != n ==> #[trigger] final(d).list.nodes@[m] == old(d).list.nodes@[m]
                    &&& same_but_slots(final(d).list.nodes@[n as int], old(d).list.nodes@[n as int])
                    &&& forall|m: int, t: int| old(d).list.slot_in_range(m, t) && !(m == n && t == s) ==> #[trigger] final(d).list.slot(m, t) == old(d).list.slot(m, t)
                    &&& old(d).list.slot(n as int, s as int) == self.ptr ==> {
                        &&& final(d).list.slot(n as int, s as int) == 0
                        &&& final(d).heap == old(d).heap
                        &&& final(d).owners == old(d).owners
                    }
                    &&& old(d).list.slot(n as int, s as int) != self.ptr ==> {
                        &&& final(d).list.nodes@ == old(d).list.nodes@
                        &&& final(d).heap.counts@ == old(d).heap.counts@.update(index_of(self.ptr as int), (old(d).heap.count(self.ptr as int) - 1) as u64)
                        &&& final(d).owners@ == old(d).owners@.update(index_of(self.ptr as int), old(d).owners@[index_of(self.ptr as int)].remove(Owner::Slot(n, s)))
                    }
                },
            },
    {
        let ghost d0 = *d;
        match self.slot {
            None => {
                if self.ptr != 0 {
                    d.release_unit(self.ptr, Ghost(0));
                }
            },
            Some((n, s)) => {
                assert(d.list.nodes@[n as int].wf(d.list.borrow_slot_count as nat));
                let cleared = d.release_slot(n, s, self.ptr, Ghost(0));
                if !cleared {
                    assert(d.list.nodes@ =~= d0.list.nodes@);
                }
                assert forall|m: int, t: int| d0.list.slot_in_range(m, t) && !(m == n && t == s) implies #[trigger] d.list.slot(m, t) == d0.list.slot(m, t) by {
                    if m != n as int {
                        assert(d.list.nodes@[m] == d0.list.nodes@[m]);
                    }
                }
            },
        }
    }
}


/// Slot `(a, b)` comes before position `(n, s)` of a scan that walks the nodes in list order.
pub open spec fn scanned_before(a: int, b: int, n: int, s: int) -> bool {
    a < n || (a == n && b < s)
}

/// `o` is a borrow slot that showed `p` in `d0` and that a scan up to `(n, s)` has passed.
pub open spec fn transfer_owner(d0: Domain, p: usize, o: Owner, n: int, s: int) -> bool {
    match o {
        Owner::Slot(a, b) => {
            &&& d0.list.slot_in_range(a as int, b as int)
            &&& scanned_before(a as int, b as int, n, s)
            &&& d0.list.slot(a as int, b as int) == p
        },
        _ => false,
    }
}

/// The state a writer's scan has reached at position `(n, s)`, from `d0`, for the replaced
/// value `p`: every reservation of `p` already passed was turned into a unit of its slot.
pub open spec fn scan_reached(d0: Domain, d: Domain, p: usize, n: int, s: int, k: int) -> bool {
    &&& d.inv(p)
    &&& d.cells == d0.cells
    &&& d.writes == d0.writes
    &&& d.claims == d0.claims
    &&& d.heap.values@ == d0.heap.values@
    &&& d.heap.counts@.len() == d0.heap.counts@.len()
    &&& d.list.borrow_slot_count == d0.list.borrow_slot_count
    &&& d.list.nodes@.len() == d0.list.nodes@.len()
    &&& forall|m: int|
        0 <= m < d0.list.nodes@.len() ==> same_but_slots(
            #[trigger] d.list.nodes@[m],
            d0.list.nodes@[m],
        )
    &&& forall|m: int, t: int|
        d0.list.slot_in_range(m, t) ==> #[trigger] d.list.slot(m, t) == if scanned_before(m, t, n, s)
            && d0.list.slot(m, t) == p {
            0
        } else {
            d0.list.slot(m, t)
        }
    &&& forall|i: int, o: Owner|
        0 <= i < d0.owners@.len() ==> #[trigger] d.owners@[i].count(o) == d0.owners@[i].count(o) + if i
            == index_of(p as int) && transfer_owner(d0, p, o, n, s) {
            1int
        } else {
            0int
        }
    &&& forall|i: int|
        0 <= i < d0.heap.counts@.len() && i != index_of(p as int) ==> #[trigger] d.heap.counts@[i]
            == d0.heap.counts@[i]
    &&& d.heap.counts@[index_of(p as int)] == d0.heap.counts@[index_of(p as int)] + k
    &&& 0 <= k <= n * d0.list.borrow_slot_count + s
}

/// The invariant with no reservation of `x` left is the invariant.
proof fn lemma_inv_cleared(d: Domain, x: usize)
    requires
        d.inv(x),
        forall|n: int, s: int| d.list.slot_in_range(n, s) ==> #[trigger] d.list.slot(n, s) != x,
    ensures
        d.inv(0),
{
    assert forall|n: int, s: int| d.list.slot_in_range(n, s) implies #[trigger] d.slot_protected(n, s, 0) by {
        assert(d.slot_protected(n, s, x));
    }
}

proof fn lemma_scan_bound(n: int, sc: int)
    requires
        0 <= n < MAX_NODES,
        0 <= sc <= MAX_SLOTS,
    ensures
        n * sc + sc == (n + 1) * sc,
        (n + 1) * sc <= MAX_NODES * MAX_SLOTS,
{
    assert(n * sc + sc == (n + 1) * sc) by (nonlinear_arith);
    assert((n + 1) * sc <= MAX_NODES * MAX_SLOTS) by (nonlinear_arith)
        requires
            0 <= n < MAX_NODES,
            0 <= sc <= MAX_SLOTS,
    ;
}

impl AtomicArc {
    /// The writer's scan of the borrow slots after the cell gave up `old_ptr`: in every node,
    /// in list order, each borrow slot still reserving `old_ptr` gets one more unit of it and is
    /// cleared, so that the borrow bound there owns that unit.
    fn scan_borrow_slots(d: &mut Domain, old_ptr: usize, Ghost(k0): Ghost<int>)
        requires
            old_ptr != 0,
            old(d).inv(old_ptr),
            old(d).holds(old_ptr as int),
            old(d).heap.count(old_ptr as int) + MAX_NODES * MAX_SLOTS < u64::MAX,
        ensures
            scan_reached(*old(d), *final(d), old_ptr, old(d).list.nodes@.len() as int, 0, final(d).heap.counts@[index_of(old_ptr as int)] - old(d).heap.counts@[index_of(old_ptr as int)]),
            final(d).wf(),
    {
        broadcast use group_multiset_axioms, group_multiset_properties;

        let ghost d0 = *d;
        let ghost io = index_of(old_ptr as int);
        let sc = d.list.borrow_slot_count;
        let nn = d.list.nodes.len();
        let ghost mut k: int = 0;
        let mut n: usize = 0;
        assert(scan_reached(d0, *d, old_ptr, 0, 0, 0)) by {
            assert forall|i: int, o: Owner| 0 <= i < d0.owners@.len() implies #[trigger] d.owners@[i].count(o) == d0.owners@[i].count(o) + if i == io && transfer_owner(d0, old_ptr, o, 0, 0) { 1int } else { 0int } by {
                if transfer_owner(d0, old_ptr, o, 0, 0) {
                    match o {
                        Owner::Slot(a, b) => {},
                        _ => {},
                    }
                }
            }
        }
        while n < nn
            invariant
                n <= nn,
                nn == d0.list.nodes@.len(),
                sc == d0.list.borrow_slot_count,
                old_ptr != 0,
                io == index_of(old_ptr as int),
                d0.inv(old_ptr),
                d0.heap.valid(old_ptr as int),
                d0.heap.count(old_ptr as int) + MAX_NODES * MAX_SLOTS < u64::MAX,
                scan_reached(d0, *d, old_ptr, n as int, 0, k),
            decreases nn - n,
        {
            proof { lemma_scan_bound(n as int, sc as int); }
            assert(d.list.nodes@[n as int].wf(sc as nat));
            let mut s: usize = 0;
            while s < sc
                invariant
                    n < nn,
                    s <= sc,
                    nn == d0.list.nodes@.len(),
                    sc == d0.list.borrow_slot_count,
                    old_ptr != 0,
                    io == index_of(old_ptr as int),
                    d0.inv(old_ptr),
                    d0.heap.valid(old_ptr as int),
                    d0.heap.count(old_ptr as int) + MAX_NODES * MAX_SLOTS < u64::MAX,
                    (n + 1) * sc <= MAX_NODES * MAX_SLOTS,
                    n * sc + sc == (n + 1) * sc,
                    d.list.nodes@[n as int].wf(sc as nat),
                    scan_reached(d0, *d, old_ptr, n as int, s as int, k),
                decreases sc - s,
            {
                let ghost before = *d;
                if d.list.nodes[n].borrow_slots[s] == old_ptr {
                    assert(d.heap.count(old_ptr as int) < u64::MAX);
                    let a = d.transfer_slot(n, s, Ghost(old_ptr));
                    proof { k = k + 1; }
                    assert forall|m: int, t: int| d0.list.slot_in_range(m, t) implies #[trigger] d.list.slot(m, t) == if scanned_before(m, t, n as int, s + 1) && d0.list.slot(m, t) == old_ptr { 0 } else { d0.list.slot(m, t) } by {
                        assert(before.list.slot(m, t) == if scanned_before(m, t, n as int, s as int) && d0.list.slot(m, t) == old_ptr { 0 } else { d0.list.slot(m, t) });
                        if m != n as int {
                            assert(d.list.nodes@[m] == before.list.nodes@[m]);
                        }
                    }
                    assert forall|i: int, o: Owner| 0 <= i < d0.owners@.len() implies #[trigger] d.owners@[i].count(o) == d0.owners@[i].count(o) + if i == io && transfer_owner(d0, old_ptr, o, n as int, s + 1) { 1int } else { 0int } by {
                        assert(before.owners@[i].count(o) == d0.owners@[i].count(o) + if i == io && transfer_owner(d0, old_ptr, o, n as int, s as int) { 1int } else { 0int });
                        assert(before.list.slot(n as int, s as int) == d0.list.slot(n as int, s as int));
                    }
                    assert forall|m: int| 0 <= m < d0.list.nodes@.len() implies same_but_slots(#[trigger] d.list.nodes@[m], d0.list.nodes@[m]) by {
                        assert(same_but_slots(before.list.nodes@[m], d0.list.nodes@[m]));
                        if m != n as int {
                            assert(d.list.nodes@[m] == before.list.nodes@[m]);
                        }
                    }
                } else {
                    assert forall|m: int, t: int| d0.list.slot_in_range(m, t) implies #[trigger] d.list.slot(m, t) == if scanned_before(m, t, n as int, s + 1) && d0.list.slot(m, t) == old_ptr { 0 } else { d0.list.slot(m, t) } by {
                        assert(before.list.slot(m, t) == if scanned_before(m, t, n as int, s as int) && d0.list.slot(m, t) == old_ptr { 0 } else { d0.list.slot(m, t) });
                    }
                    assert forall|i: int, o: Owner| 0 <= i < d0.owners@.len() implies #[trigger] d.owners@[i].count(o) == d0.owners@[i].count(o) + if i == io && transfer_owner(d0, old_ptr, o, n as int, s + 1) { 1int } else { 0int } by {
                        assert(before.owners@[i].count(o) == d0.owners@[i].count(o) + if i == io && transfer_owner(d0, old_ptr, o, n as int, s as int) { 1int } else { 0int });
                        assert(before.list.slot(n as int, s as int) == d0.list.slot(n as int, s as int));
                    }
                }
                s = s + 1;
            }
            assert forall|m: int, t: int| d0.list.slot_in_range(m, t) implies #[trigger] d.list.slot(m, t) == if scanned_before(m, t, n + 1, 0) && d0.list.slot(m, t) == old_ptr { 0 } else { d0.list.slot(m, t) } by {
                assert(d.list.slot(m, t) == if scanned_before(m, t, n as int, s as int) && d0.list.slot(m, t) == old_ptr { 0 } else { d0.list.slot(m, t) });
            }
            assert forall|i: int, o: Owner| 0 <= i < d0.owners@.len() implies #[trigger] d.owners@[i].count(o) == d0.owners@[i].count(o) + if i == io && transfer_owner(d0, old_ptr, o, n + 1, 0) { 1int } else { 0int } by {
                assert(d.owners@[i].count(o) == d0.owners@[i].count(o) + if i == io && transfer_owner(d0, old_ptr, o, n as int, s as int) { 1int } else { 0int });
            }
            n = n + 1;
        }
        proof {
            assert forall|m: int, t: int| d.list.slot_in_range(m, t) implies #[trigger] d.list.slot(m, t) != old_ptr by {
                assert(d.list.slot(m, t) == if scanned_before(m, t, n as int, 0) && d0.list.slot(m, t) == old_ptr { 0 } else { d0.list.slot(m, t) });
            }
            lemma_inv_cleared(*d, old_ptr);
        }
    }
}


/// The writer of cell `id` answers the handshake in progress on node `n`: the node is stamped
/// with the cell, and its clone slot shows `PREPARE`, which under the serialized-writer policy
/// is the cell's own address.
pub open spec fn answers(d: Domain, n: int, id: usize, concurrent: bool) -> bool {
    let w = d.list.nodes@[n].clone_slot;
    &&& w % 2 == 1
    &&& d.list.nodes@[n].atomic_arc_slot == cell_addr(id as int)
    &&& concurrent || w == cell_addr(id as int) + 1
}

/// `o` is the clone slot of a node before `n` whose handshake the writer of cell `id` answers.
pub open spec fn deposit_owner(d0: Domain, id: usize, concurrent: bool, o: Owner, n: int) -> bool {
    match o {
        Owner::Clone(m) => m < n && answers(d0, m as int, id, concurrent),
        _ => false,
    }
}

/// Two nodes agree on their ownership, scratch, generation and cursor words.
pub open spec fn same_words(a: crate::domain::DomainNode, b: crate::domain::DomainNode) -> bool {
    &&& a.in_use == b.in_use
    &&& a.atomic_arc_slot == b.atomic_arc_slot
    &&& a.clone_generation == b.clone_generation
    &&& a.next_borrow_slot_idx == b.next_borrow_slot_idx
}

/// The state the writer of cell `id` reached from `d0` after answering, with a unit of `q`, the
/// handshakes of the nodes before `n`.
pub open spec fn answered(d0: Domain, d: Domain, q: usize, id: usize, concurrent: bool, n: int) -> bool {
    &&& d.wf()
    &&& d.cells == d0.cells
    &&& d.writes == d0.writes
    &&& d.claims == d0.claims
    &&& d.heap.values@ == d0.heap.values@
    &&& d.heap.counts@.len() == d0.heap.counts@.len()
    &&& d.list.borrow_slot_count == d0.list.borrow_slot_count
    &&& d.list.nodes@.len() == d0.list.nodes@.len()
    &&& forall|m: int|
        0 <= m < d0.list.nodes@.len() ==> same_but_clone(#[trigger] d.list.nodes@[m], d0.list.nodes@[m])
    &&& forall|m: int|
        0 <= m < d0.list.nodes@.len() ==> (#[trigger] d.list.nodes@[m]).clone_slot == if m < n
            && answers(d0, m, id, concurrent) {
            q
        } else {
            d0.list.nodes@[m].clone_slot
        }
    &&& forall|i: int, o: Owner|
        0 <= i < d0.owners@.len() ==> #[trigger] d.owners@[i].count(o) == d0.owners@[i].count(o) + if i
            == index_of(q as int) && deposit_owner(d0, id, concurrent, o, n) {
            1int
        } else {
            0int
        }
    &&& forall|i: int|
        0 <= i < d0.heap.counts@.len() && i != index_of(q as int) ==> #[trigger] d.heap.counts@[i]
            == d0.heap.counts@[i]
    &&& d.heap.counts@[index_of(q as int)] <= d0.heap.counts@[index_of(q as int)] + n
}

impl AtomicArc {
    /// The writer's pass over the clone slots: every node stamped with this cell and showing
    /// `PREPARE` gets a unit of the new value `new_ptr` deposited in its clone slot, which the
    /// reader will take as its borrow.
    fn answer_handshakes(&self, d: &mut Domain, new_ptr: usize)
        requires
            old(d).wf(),
            self.in_domain(*old(d)),
            new_ptr != 0,
            old(d).holds(new_ptr as int),
            old(d).heap.count(new_ptr as int) + MAX_NODES < u64::MAX,
        ensures
            answered(*old(d), *final(d), new_ptr, self.id, self.concurrent, old(d).list.nodes@.len() as int),
    {
        broadcast use group_multiset_axioms, group_multiset_properties;

        let ghost d0 = *d;
        let ghost iq = index_of(new_ptr as int);
        let self_addr = 4 * self.id + 4;
        let nn = d.list.nodes.len();
        let mut n: usize = 0;
        proof {
            assert(d0.count_balanced(iq));
            assert(addr_of(iq) == new_ptr);
        }
        while n < nn
            invariant
                n <= nn,
                nn == d0.list.nodes@.len(),
                nn <= MAX_NODES,
                new_ptr != 0,
                iq == index_of(new_ptr as int),
                addr_of(iq) == new_ptr,
                self_addr == cell_addr(self.id as int),
                d0.wf(),
                d0.holds(new_ptr as int),
                d0.heap.count(new_ptr as int) + MAX_NODES < u64::MAX,
                answered(d0, *d, new_ptr, self.id, self.concurrent, n as int),
            decreases nn - n,
        {
            let ghost before = *d;
            let w = d.list.nodes[n].clone_slot;
            let stamped = d.list.nodes[n].atomic_arc_slot == self_addr;
            assert(before.list.nodes@[n as int].clone_slot == d0.list.nodes@[n as int].clone_slot);
            assert(same_but_clone(before.list.nodes@[n as int], d0.list.nodes@[n as int]));
            if w % 2 == 1 && stamped && (self.concurrent || w == self_addr + PREPARE_CLONE_FLAG) {
                assert(answers(d0, n as int, self.id, self.concurrent));
                proof {
                    assert(before.owners@[iq].count(Owner::Outside) == d0.owners@[iq].count(Owner::Outside));
                    assert(before.count_balanced(iq));
                    assert(before.owners@[iq].count(Owner::Outside) > 0);
                }
                d.deposit(n, new_ptr, Ghost(0));
                assert forall|i: int, o: Owner| 0 <= i < d0.owners@.len() implies #[trigger] d.owners@[i].count(o) == d0.owners@[i].count(o) + if i == iq && deposit_owner(d0, self.id, self.concurrent, o, n + 1) { 1int } else { 0int } by {
                    assert(before.owners@[i].count(o) == d0.owners@[i].count(o) + if i == iq && deposit_owner(d0, self.id, self.concurrent, o, n as int) { 1int } else { 0int });
                }
                assert forall|m: int| 0 <= m < d0.list.nodes@.len() implies same_but_clone(#[trigger] d.list.nodes@[m], d0.list.nodes@[m]) by {
                    assert(same_but_clone(before.list.nodes@[m], d0.list.nodes@[m]));
                }
                assert forall|m: int| 0 <= m < d0.list.nodes@.len() implies (#[trigger] d.list.nodes@[m]).clone_slot == if m < n + 1 && answers(d0, m, self.id, self.concurrent) { new_ptr } else { d0.list.nodes@[m].clone_slot } by {
                    assert(before.list.nodes@[m].clone_slot == if m < n && answers(d0, m, self.id, self.concurrent) { new_ptr } else { d0.list.nodes@[m].clone_slot });
                }
            } else {
                assert(!answers(d0, n as int, self.id, self.concurrent));
                assert forall|i: int, o: Owner| 0 <= i < d0.owners@.len() implies #[trigger] d.owners@[i].count(o) == d0.owners@[i].count(o) + if i == iq && deposit_owner(d0, self.id, self.concurrent, o, n + 1) { 1int } else { 0int } by {
                    assert(before.owners@[i].count(o) == d0.owners@[i].count(o) + if i == iq && deposit_owner(d0, self.id, self.concurrent, o, n as int) { 1int } else { 0int });
                }
                assert forall|m: int| 0 <= m < d0.list.nodes@.len() implies (#[trigger] d.list.nodes@[m]).clone_slot == if m < n + 1 && answers(d0, m, self.id, self.concurrent) { new_ptr } else { d0.list.nodes@[m].clone_slot } by {
                    assert(before.list.nodes@[m].clone_slot == if m < n && answers(d0, m, self.id, self.concurrent) { new_ptr } else { d0.list.nodes@[m].clone_slot });
                }
            }
            n = n + 1;
        }
    }
}

/// Raw address of an optional handle, zero for `None`.
pub open spec fn opt_ptr(h: Option<Handle>) -> usize {
    match h {
        Some(h) => h@,
        None => 0,
    }
}

/// An optional handle that `d` accounts for: `None`, or a handle whose unit is held outside.
pub open spec fn holds_opt(d: Domain, h: Option<Handle>) -> bool {
    match h {
        Some(h) => d.holds(h@ as int),
        None => true,
    }
}

/// How the owners of value `j` change when cell `id` exchanges `p` for `n`.
pub(crate) proof fn lemma_exchange_count(owners: Seq<Multiset<Owner>>, id: usize, p: usize, n: usize, j: int, o: Owner)
    requires
        0 <= j < owners.len(),
        p != 0 ==> 0 <= index_of(p as int) < owners.len() && owners[index_of(p as int)].count(Owner::Cell(id)) > 0,
        n != 0 ==> 0 <= index_of(n as int) < owners.len() && owners[index_of(n as int)].count(Owner::Outside) > 0,
    ensures
        exchange_owners(owners, id, p, n)[j].count(o) == owners[j].count(o)
            - (if p != 0 && j == index_of(p as int) && o == Owner::Cell(id) { 1int } else { 0int })
            + (if p != 0 && j == index_of(p as int) && o == Owner::Outside { 1int } else { 0int })
            - (if n != 0 && j == index_of(n as int) && o == Owner::Outside { 1int } else { 0int })
            + (if n != 0 && j == index_of(n as int) && o == Owner::Cell(id) { 1int } else { 0int }),
{
    broadcast use group_multiset_axioms, group_multiset_properties;

    let ip = index_of(p as int);
    let inew = index_of(n as int);
    let o1 = if p != 0 {
        owners.update(ip, owners[ip].remove(Owner::Cell(id)).insert(Owner::Outside))
    } else {
        owners
    };
    if p != 0 {
        lemma_remove(owners[ip], Owner::Cell(id));
    }
    if n != 0 {
        assert(o1[inew].count(Owner::Outside) > 0);
        lemma_remove(o1[inew], Owner::Outside);
    }
}

impl AtomicArc {
    /// What a completed swap of `new` into the cell leaves: `r` is what the cell held, with the
    /// cell's unit; the cell holds `new` with its unit; every reservation of the old value was
    /// turned into a unit of its slot.
    pub open spec fn swap_post(&self, d0: Domain, new: usize, d1: Domain, r: Option<Handle>) -> bool {
        let p = self.ptr(d0);
        &&& d1.wf()
        &&& opt_ptr(r) == p
        &&& holds_opt(d1, r)
        &&& d1.cells@ == d0.cells@.update(self.id as int, new)
        &&& d1.writes@ == d0.writes@.update(self.id as int, d0.writes@[self.id as int] + 1)
        &&& d1.claims == d0.claims
        &&& d1.heap.values@ == d0.heap.values@
        &&& d1.heap.counts@.len() == d0.heap.counts@.len()
        &&& d1.list.borrow_slot_count == d0.list.borrow_slot_count
        &&& d1.list.nodes@.len() == d0.list.nodes@.len()
        &&& forall|m: int|
            0 <= m < d0.list.nodes@.len() ==> same_words(#[trigger] d1.list.nodes@[m], d0.list.nodes@[m])
        &&& forall|m: int|
            0 <= m < d0.list.nodes@.len() ==> (#[trigger] d1.list.nodes@[m]).clone_slot == if new != 0
                && answers(d0, m, self.id, self.concurrent) {
                new
            } else {
                d0.list.nodes@[m].clone_slot
            }
        &&& forall|m: int, t: int|
            d0.list.slot_in_range(m, t) ==> #[trigger] d1.list.slot(m, t) == if p != 0
                && d0.list.slot(m, t) == p {
                0
            } else {
                d0.list.slot(m, t)
            }
        &&& forall|i: int, o: Owner|
            0 <= i < d0.owners@.len() ==> #[trigger] d1.owners@[i].count(o) == exchange_owners(
                d0.owners@,
                self.id,
                p,
                new,
            )[i].count(o) + (if p != 0 && i == index_of(p as int) && transfer_owner(
                d0,
                p,
                o,
                d0.list.nodes@.len() as int,
                0,
            ) {
                1int
            } else {
                0int
            }) + (if new != 0 && i == index_of(new as int) && deposit_owner(
                d0,
                self.id,
                self.concurrent,
                o,
                d0.list.nodes@.len() as int,
            ) {
                1int
            } else {
                0int
            })
    }

    /// Replaces the cell's value with `new` and returns the value it held, with its unit.
    ///
    /// The writer keeps a unit of `new` in hand while it scans every node for borrow slots
    /// reserving the old value, turning each reservation into a unit of the slot, and answers
    /// every load of this cell in progress in a clone handshake with a unit of `new`.
    pub fn swap(&self, d: &mut Domain, new: Option<Handle>) -> (r: Option<Handle>)
        requires
            old(d).wf(),
            old(d).room(),
            self.in_domain(*old(d)),
            holds_opt(*old(d), new),
        ensures
            self.swap_post(*old(d), opt_ptr(new), *final(d), r),
    {
        broadcast use group_multiset_axioms, group_multiset_properties;

        let ghost d0 = *d;
        let new_ptr = match new {
            Some(h) => Handle::into_ptr(h),
            None => 0,
        };
        if new_ptr != 0 {
            let ghost i = index_of(new_ptr as int);
            assert(d.count_balanced(i));
            assert(d.owners@[i].count(Owner::Outside) > 0);
            d.acquire_unit(new_ptr, Ghost(0));
        }
        let ghost d1 = *d;
        let old_ptr = d.exchange_cell(self.id, new_ptr);
        let ghost d2 = *d;
        proof {
            if old_ptr != 0 {
                assert(d1.cells@[self.id as int] == old_ptr);
                assert(d1.cells@[self.id as int] == 0 || d1.heap.valid(d1.cells@[self.id as int] as int));
                let io = index_of(old_ptr as int);
                assert(addr_of(io) == old_ptr);
                assert(d1.count_balanced(io));
                assert(d0.count_balanced(io));
            }
        }
        if old_ptr != 0 {
            assert(d1.cells@[self.id as int] == old_ptr);
            assert(d1.heap.valid(old_ptr as int) || old_ptr == 0);
            assert(d2.holds(old_ptr as int)) by {
                let io = index_of(old_ptr as int);
                assert(d1.count_balanced(io));
            }
            assert(d.heap.count(old_ptr as int) + MAX_NODES * MAX_SLOTS < u64::MAX) by {
                assert(d0.heap.counts@[index_of(old_ptr as int)] < crate::domain::ROOM);
            }
            Self::scan_borrow_slots(d, old_ptr, Ghost(0));
        }
        let ghost d3 = *d;
        let ghost nn = d0.list.nodes@.len() as int;
        proof {
            assert forall|m: int| 0 <= m < nn implies #[trigger] answers(d3, m, self.id, self.concurrent) == answers(d0, m, self.id, self.concurrent) by {
                if old_ptr != 0 {
                    assert(same_but_slots(d3.list.nodes@[m], d2.list.nodes@[m]));
                }
            }
        }
        if new_ptr != 0 {
            assert(d3.owners@[index_of(new_ptr as int)].count(Owner::Outside) > 0) by {
                lemma_exchange_count(d1.owners@, self.id, old_ptr, new_ptr, index_of(new_ptr as int), Owner::Outside);
            }
            assert(d3.heap.count(new_ptr as int) + MAX_NODES < u64::MAX) by {
                assert(d0.heap.counts@[index_of(new_ptr as int)] < crate::domain::ROOM);
                if old_ptr != 0 {
                    let sc = d0.list.borrow_slot_count as int;
                    assert(nn * sc <= MAX_NODES * MAX_SLOTS) by (nonlinear_arith)
                        requires
                            0 <= nn <= MAX_NODES,
                            0 <= sc <= MAX_SLOTS,
                    ;
                }
            }
            self.answer_handshakes(d, new_ptr);
        }
        let ghost d4 = *d;
        if new_ptr != 0 {
            assert(d4.owners@[index_of(new_ptr as int)].count(Owner::Outside) > 0) by {
                lemma_exchange_count(d1.owners@, self.id, old_ptr, new_ptr, index_of(new_ptr as int), Owner::Outside);
            }
            d.release_unit(new_ptr, Ghost(0));
        }
        proof {
            assert forall|i: int, o: Owner| 0 <= i < d0.owners@.len() implies #[trigger] d.owners@[i].count(o) == exchange_owners(d0.owners@, self.id, old_ptr, new_ptr)[i].count(o) + (if old_ptr != 0 && i == index_of(old_ptr as int) && transfer_owner(d0, old_ptr, o, d0.list.nodes@.len() as int, 0) { 1int } else { 0int }) + (if new_ptr != 0 && i == index_of(new_ptr as int) && deposit_owner(d0, self.id, self.concurrent, o, nn) { 1int } else { 0int }) by {
                lemma_exchange_count(d1.owners@, self.id, old_ptr, new_ptr, i, o);
                lemma_exchange_count(d0.owners@, self.id, old_ptr, new_ptr, i, o);
                if old_ptr != 0 {
                    assert(d3.owners@[i].count(o) == d2.owners@[i].count(o) + if i == index_of(old_ptr as int) && transfer_owner(d2, old_ptr, o, d2.list.nodes@.len() as int, 0) { 1int } else { 0int });
                    assert(transfer_owner(d2, old_ptr, o, d2.list.nodes@.len() as int, 0) == transfer_owner(d0, old_ptr, o, d0.list.nodes@.len() as int, 0));
                }
                if new_ptr != 0 {
                    assert(d4.owners@[i].count(o) == d3.owners@[i].count(o) + if i == index_of(new_ptr as int) && deposit_owner(d3, self.id, self.concurrent, o, nn) { 1int } else { 0int });
                    match o {
                        Owner::Clone(m) => {
                            if (m as int) < nn {
                                assert(answers(d3, m as int, self.id, self.concurrent) == answers(d0, m as int, self.id, self.concurrent));
                            }
                        },
                        _ => {},
                    }
                }
            }
            assert forall|m: int| 0 <= m < nn implies same_words(#[trigger] d.list.nodes@[m], d0.list.nodes@[m]) by {
                if old_ptr != 0 {
                    assert(same_but_slots(d3.list.nodes@[m], d2.list.nodes@[m]));
                }
                if new_ptr != 0 {
                    assert(same_but_clone(d4.list.nodes@[m], d3.list.nodes@[m]));
                }
            }
            assert forall|m: int| 0 <= m < nn implies (#[trigger] d.list.nodes@[m]).clone_slot == if new_ptr != 0 && answers(d0, m, self.id, self.concurrent) { new_ptr } else { d0.list.nodes@[m].clone_slot } by {
                if old_ptr != 0 {
                    assert(same_but_slots(d3.list.nodes@[m], d2.list.nodes@[m]));
                }
            }
            assert forall|m: int, t: int| d0.list.slot_in_range(m, t) implies #[trigger] d.list.slot(m, t) == if old_ptr != 0 && d0.list.slot(m, t) == old_ptr { 0 } else { d0.list.slot(m, t) } by {
                if old_ptr != 0 {
                    assert(d3.list.slot(m, t) == if scanned_before(m, t, nn, 0) && d2.list.slot(m, t) == old_ptr { 0 } else { d2.list.slot(m, t) });
                }
                if new_ptr != 0 {
                    assert(same_but_clone(d4.list.nodes@[m], d3.list.nodes@[m]));
                }
            }
        }
        if old_ptr == 0 {
            None
        } else {
            Some(Handle::from_ptr(old_ptr))
        }
    }
}


impl AtomicArc {
    /// What a completed store of `new` leaves: the cell holds `new`, and every reservation of
    /// the value it replaced was turned into a unit of its slot.
    pub open spec fn store_post(&self, d0: Domain, new: usize, d1: Domain) -> bool {
        let p = self.ptr(d0);
        &&& d1.wf()
        &&& d1.cells@ == d0.cells@.update(self.id as int, new)
        &&& d1.writes@ == d0.writes@.update(self.id as int, d0.writes@[self.id as int] + 1)
        &&& d1.claims == d0.claims
        &&& d1.heap.values@ == d0.heap.values@
        &&& d1.list.nodes@.len() == d0.list.nodes@.len()
        &&& forall|m: int, t: int|
            d0.list.slot_in_range(m, t) ==> #[trigger] d1.list.slot(m, t) == if p != 0
                && d0.list.slot(m, t) == p {
                0
            } else {
                d0.list.slot(m, t)
            }
        &&& forall|i: int, o: Owner|
            0 <= i < d0.owners@.len() ==> #[trigger] d1.owners@[i].count(o) == exchange_owners(
                d0.owners@,
                self.id,
                p,
                new,
            )[i].count(o) + (if p != 0 && i == index_of(p as int) && transfer_owner(
                d0,
                p,
                o,
                d0.list.nodes@.len() as int,
                0,
            ) {
                1int
            } else {
                0int
            }) + (if new != 0 && i == index_of(new as int) && deposit_owner(
                d0,
                self.id,
                self.concurrent,
                o,
                d0.list.nodes@.len() as int,
            ) {
                1int
            } else {
                0int
            }) - (if p != 0 && i == index_of(p as int) && o == Owner::Outside {
                1int
            } else {
                0int
            })
    }

    /// Stores `new` into the cell and drops the value it replaced.
    pub fn store(&self, d: &mut Domain, new: Option<Handle>)
        requires
            old(d).wf(),
            old(d).room(),
            self.in_domain(*old(d)),
            holds_opt(*old(d), new),
        ensures
            self.store_post(*old(d), opt_ptr(new), *final(d)),
    {
        let r = self.swap(d, new);
        let ghost mid = *d;
        let ghost rp = opt_ptr(r);
        match r {
            Some(h) => d.drop_handle(h),
            None => {},
        }
        proof {
            if rp != 0 {
                let ip = index_of(rp as int);
                lemma_remove(mid.owners@[ip], Owner::Outside);
            }
        }
        assert forall|m: int, t: int| old(d).list.slot_in_range(m, t) implies #[trigger] d.list.slot(m, t) == if self.ptr(*old(d)) != 0 && old(d).list.slot(m, t) == self.ptr(*old(d)) { 0 } else { old(d).list.slot(m, t) } by {
            assert(mid.list.slot(m, t) == if self.ptr(*old(d)) != 0 && old(d).list.slot(m, t) == self.ptr(*old(d)) { 0 } else { old(d).list.slot(m, t) });
        }
    }

    /// Takes the value out of the cell, which is left null, as when the cell is dropped:
    /// reservations of the value are turned into units of their slots, and the cell's unit
    /// goes to the caller.
    pub fn into_owned(self, d: &mut Domain) -> (r: Option<Handle>)
        requires
            old(d).wf(),
            old(d).room(),
            self.in_domain(*old(d)),
        ensures
            self.swap_post(*old(d), 0, *final(d), r),
    {
        self.swap(d, None)
    }

    /// Drops the cell: its value is taken out and dropped.
    pub fn release(self, d: &mut Domain)
        requires
            old(d).wf(),
            old(d).room(),
            self.in_domain(*old(d)),
        ensures
            self.store_post(*old(d), 0, *final(d)),
    {
        self.store(d, None);
    }
}

impl ArcPtrBorrow {
    /// A handle for the borrowed value: an unbound borrow hands over its unit, a bound one takes
    /// a new unit and releases its slot. A null borrow gives `None`.
    pub fn into_owned(self, d: &mut Domain) -> (r: Option<Handle>)
        requires
            old(d).wf(),
            self.ptr != 0 ==> old(d).heap.count(self.ptr as int) < u64::MAX,
            self.held_in(*old(d)),
        ensures
            final(d).wf(),
            opt_ptr(r) == self.ptr,
            holds_opt(*final(d), r),
            final(d).cells == old(d).cells,
            final(d).writes == old(d).writes,
            final(d).heap.values@ == old(d).heap.values@,
            final(d).list.borrow_slot_count == old(d).list.borrow_slot_count,
            final(d).list.nodes@.len() == old(d).list.nodes@.len(),
            self.slot is None ==> *final(d) == *old(d),
            forall|n: usize, s: usize| self.slot == Some((n, s)) ==> {
                    &&& final(d).claims@ == old(d).claims@.update(n as int, old(d).claims@[n as int].update(s as int, old(d).claims@[n as int][s as int].remove(self.ptr)))
                    &&& forall|m: int, t: int| old(d).list.slot_in_range(m, t) && !(m == n && t == s) ==> #[trigger] final(d).list.slot(m, t) == old(d).list.slot(m, t)
                    &&& old(d).list.slot(n as int, s as int) == self.ptr ==> {
                        &&& final(d).list.slot(n as int, s as int) == 0
                        &&& final(d).heap.counts@ == old(d).heap.counts@.update(index_of(self.ptr as int), (old(d).heap.count(self.ptr as int) + 1) as u64)
                        &&& final(d).owners@ == old(d).owners@.update(index_of(self.ptr as int), old(d).owners@[index_of(self.ptr as int)].insert(Owner::Outside))
                    }
                    &&& old(d).list.slot(n as int, s as int) != self.ptr ==> {
                        &&& final(d).list.nodes@ == old(d).list.nodes@
                        &&& final(d).heap.counts@ == old(d).heap.counts@
                        &&& final(d).owners@ == old(d).owners@.update(index_of(self.ptr as int), old(d).owners@[index_of(self.ptr as int)].insert(Owner::Outside).remove(Owner::Slot(n, s)))
                    }
            },
    {
        broadcast use group_multiset_axioms, group_multiset_properties;

        match self.slot {
            None => {
                if self.ptr == 0 {
                    None
                } else {
                    Some(Handle::from_ptr(self.ptr))
                }
            },
            Some((n, s)) => {
                let ghost d0 = *d;
                let p = self.ptr;
                proof {
                    lemma_borrow_live(self, d0);
                }
                d.acquire_unit(p, Ghost(0));
                let ghost d1 = *d;
                assert(d1.holds(p as int));
                let b = ArcPtrBorrow { ptr: p, slot: Some((n, s)) };
                b.release(d);
                assert forall|m: int, t: int| d0.list.slot_in_range(m, t) && !(m == n && t == s) implies #[trigger] d.list.slot(m, t) == d0.list.slot(m, t) by {
                    assert(d.list.slot(m, t) == d1.list.slot(m, t));
                }
                proof {
                    let i = index_of(p as int);
                    if d0.list.slot(n as int, s as int) != p {
                        assert(addr_of(i) == p);
                        assert(d0.slot_balanced(n as int, s as int, i));
                        lemma_remove(d1.owners@[i], Owner::Slot(n, s));
                        assert(d.owners@[i].count(Owner::Outside) == d1.owners@[i].count(Owner::Outside));
                        assert(d.heap.counts@ =~= d0.heap.counts@);
                        assert(d.owners@ =~= d0.owners@.update(i, d0.owners@[i].insert(Owner::Outside).remove(Owner::Slot(n, s))));
                    }
                }
                Some(Handle::from_ptr(p))
            },
        }
    }
}


impl ArcPtrBorrow {
    /// `None` for a null borrow, the borrow itself otherwise.
    pub fn transpose(self) -> (r: Option<ArcPtrBorrow>)
        ensures
            self.ptr == 0 ==> r is None,
            self.ptr != 0 ==> r == Some(self),
    {
        if self.ptr == 0 {
            None
        } else {
            Some(self)
        }
    }
}

impl AtomicArc {
    /// What a completed `load_owned` leaves: `r` is a handle for the value the cell holds, with
    /// one more unit of its count; no slot is left reserved.
    pub open spec fn load_owned_post(&self, d0: Domain, d1: Domain, r: Option<Handle>) -> bool {
        let p = self.ptr(d0);
        &&& d1.wf()
        &&& opt_ptr(r) == p
        &&& holds_opt(d1, r)
        &&& d1.cells == d0.cells
        &&& d1.writes == d0.writes
        &&& d1.heap.values@ == d0.heap.values@
        &&& d1.claims@ == d0.claims@
        &&& d1.list.borrow_slot_count == d0.list.borrow_slot_count
        &&& d1.list.nodes@.len() == d0.list.nodes@.len()
        &&& forall|m: int, t: int|
            d0.list.slot_in_range(m, t) ==> #[trigger] d1.list.slot(m, t) == d0.list.slot(m, t)
        &&& p == 0 ==> d1.heap == d0.heap && d1.owners == d0.owners
        &&& p != 0 ==> {
            &&& d1.heap.counts@ == d0.heap.counts@.update(
                index_of(p as int),
                (d0.heap.count(p as int) + 1) as u64,
            )
            &&& d1.owners@ == d0.owners@.update(
                index_of(p as int),
                d0.owners@[index_of(p as int)].insert(Owner::Outside),
            )
        }
    }

    /// Loads a handle for the value the cell holds: one more unit of its count, and no slot left
    /// reserved. A null cell gives `None`.
    pub fn load_owned(&self, d: &mut Domain, node: usize) -> (r: Option<Handle>)
        requires
            load_ready(*self, *old(d), node as int),
        ensures
            self.load_owned_post(*old(d), *final(d), r),
    {
        broadcast use group_multiset_axioms, group_multiset_properties;

        let ghost d0 = *d;
        let b = self.load(d, node);
        let ghost d1 = *d;
        let ghost bb = b;
        proof {
            let p = self.ptr(d0);
            if p != 0 {
                assert(d0.heap.counts@[index_of(p as int)] < crate::domain::ROOM);
            }
        }
        let r = b.into_owned(d);
        proof {
            let p = self.ptr(d0);
            match bb.slot {
                Some((n, s)) => {
                    assert(d1.list.slot(n as int, s as int) == p);
                    lemma_remove(d0.claims@[n as int][s as int].insert(p), p);
                    assert(d0.claims@[n as int][s as int].insert(p).remove(p) =~= d0.claims@[n as int][s as int]);
                    assert(d.claims@[n as int] =~= d0.claims@[n as int]);
                    assert(d.claims@ =~= d0.claims@);
                    assert(d0.list.nodes@[n as int].wf(d0.list.borrow_slot_count as nat));
                    assert forall|m: int, t: int| d0.list.slot_in_range(m, t) implies #[trigger] d.list.slot(m, t) == d0.list.slot(m, t) by {
                        assert(d1.list.slot(m, t) == if bb.slot == Some((m as usize, t as usize)) { p } else { d0.list.slot(m, t) });
                    }
                },
                None => {},
            }
        }
        r
    }
}


impl AtomicArc {
    /// `Ok(arc)` when the cell still holds the value of `arc`; otherwise a fresh load.
    pub fn load_if_outdated<'a>(&self, d: &mut Domain, node: usize, arc: &'a Option<Handle>) -> (r: Result<&'a Option<Handle>, ArcPtrBorrow>)
        requires
            load_ready(*self, *old(d), node as int),
        ensures
            r is Ok <==> self.ptr(*old(d)) == opt_ptr(*arc),
            match r {
                Ok(x) => *final(d) == *old(d) && x == arc,
                Err(b) => self.load_post(*old(d), node as int, *final(d), b),
            },
    {
        let ptr = d.cells[self.id];
        let cached = match arc {
            Some(h) => Handle::as_ptr(h),
            None => 0,
        };
        if ptr == cached {
            Ok(arc)
        } else {
            Err(self.load(d, node))
        }
    }

    /// Makes `cached` a handle for the value the cell holds, loading a new one (and dropping the
    /// old one) only when the cell moved on.
    pub fn load_cached(&self, d: &mut Domain, node: usize, cached: &mut Option<Handle>)
        requires
            load_ready(*self, *old(d), node as int),
            holds_opt(*old(d), *old(cached)),
        ensures
            final(d).wf(),
            opt_ptr(*final(cached)) == self.ptr(*old(d)),
            holds_opt(*final(d), *final(cached)),
            final(d).cells == old(d).cells,
            final(d).writes == old(d).writes,
            final(d).heap.values@ == old(d).heap.values@,
            opt_ptr(*old(cached)) == self.ptr(*old(d)) ==> *final(d) == *old(d) && *final(cached) == *old(cached),
            opt_ptr(*old(cached)) != self.ptr(*old(d)) && opt_ptr(*old(cached)) != 0 ==> final(d).owners@[index_of(opt_ptr(*old(cached)) as int)].count(Owner::Outside) + 1
                == old(d).owners@[index_of(opt_ptr(*old(cached)) as int)].count(Owner::Outside),
    {
        broadcast use group_multiset_axioms, group_multiset_properties;

        let ptr = d.cells[self.id];
        let current = match cached {
            Some(h) => Handle::as_ptr(h),
            None => 0,
        };
        if ptr != current {
            let ghost d0 = *d;
            let mut prev = self.load_owned(d, node);
            std::mem::swap(cached, &mut prev);
            match prev {
                Some(p) => {
                    proof {
                        let i = index_of(p@ as int);
                        assert(d.owners@[i].count(Owner::Outside) >= d0.owners@[i].count(Owner::Outside));
                    }
                    let ghost d1 = *d;
                    d.drop_handle(p);
                    proof {
                        let i = index_of(p@ as int);
                        lemma_remove(d1.owners@[i], Owner::Outside);
                        if self.ptr(d0) != 0 {
                            assert(index_of(self.ptr(d0) as int) != i);
                        }
                    }
                    proof {
                        let c = opt_ptr(*cached);
                        if c != 0 {
                            assert(c == ptr);
                            assert(index_of(c as int) != index_of(p@ as int));
                        }
                    }
                },
                None => {},
            }
        }
    }
}


/// `d1` is `d0` after the handle for `p` (none when zero) was dropped: its unit held outside is
/// given back.
pub open spec fn released(d0: Domain, p: usize, d1: Domain) -> bool {
    if p == 0 {
        d1 == d0
    } else {
        &&& d1.heap.values@ == d0.heap.values@
        &&& d1.heap.counts@ == d0.heap.counts@.update(index_of(p as int), (d0.heap.count(p as int) - 1) as u64)
        &&& d1.owners@ == d0.owners@.update(index_of(p as int), d0.owners@[index_of(p as int)].remove(Owner::Outside))
        &&& d1.cells == d0.cells
        &&& d1.writes == d0.writes
        &&& d1.claims == d0.claims
        &&& d1.list.nodes@ == d0.list.nodes@
        &&& d1.list.borrow_slot_count == d0.list.borrow_slot_count
    }
}

impl AtomicArc {
    /// Replaces the cell's value with `new` if the cell holds the address `current`, returning
    /// the old value as `swap` does; otherwise drops `new` and returns a load of the value the
    /// cell holds. Available under the concurrent-writer policy.
    pub fn compare_exchange(&self, d: &mut Domain, node: usize, current: usize, new: Option<Handle>) -> (r: Result<Option<Handle>, ArcPtrBorrow>)
        requires
            load_ready(*self, *old(d), node as int),
            self.concurrent,
            holds_opt(*old(d), new),
        ensures
            r is Ok <==> self.ptr(*old(d)) == current,
            match r {
                Ok(h) => self.swap_post(*old(d), opt_ptr(new), *final(d), h),
                Err(b) => {
                    &&& final(d).wf()
                    &&& final(d).cells == old(d).cells
                    &&& final(d).writes == old(d).writes
                    &&& b.ptr == self.ptr(*old(d))
                    &&& b.held_in(*final(d))
                    &&& exists|dm: Domain| released(*old(d), opt_ptr(new), dm) && #[trigger] self.load_post(dm, node as int, *final(d), b)
                },
            },
    {
        broadcast use group_multiset_axioms, group_multiset_properties;

        if d.cells[self.id] == current {
            Ok(self.swap(d, new))
        } else {
            let ghost np = opt_ptr(new);
            match new {
                Some(h) => {
                    d.drop_handle(h);
                },
                None => {},
            }
            assert(d.room()) by {
                assert forall|i: int| 0 <= i < d.heap.counts@.len() implies #[trigger] d.heap.counts@[i] < crate::domain::ROOM by {
                    assert(old(d).heap.counts@[i] < crate::domain::ROOM);
                    if np != 0 && i == index_of(np as int) {
                        assert(old(d).count_balanced(i));
                    }
                }
            }
            let ghost dm = *d;
            assert(released(*old(d), np, dm));
            let b = self.load(d, node);
            assert(self.load_post(dm, node as int, *d, b));
            Err(b)
        }
    }

    /// Replaces the cell's value `v` with `f(v)` for as long as `f` gives a value, by
    /// compare-exchange from the value loaded; `f` sees `None` for a null cell. Returns the
    /// replaced value, or the borrow of the value on which `f` gave `None`. Within one step the
    /// cell still holds the value loaded, so the first exchange succeeds. Available under the
    /// concurrent-writer policy.
    pub fn fetch_update<F: Fn(Option<u64>) -> Option<u64>>(&self, d: &mut Domain, node: usize, f: F) -> (r: Result<Option<Handle>, ArcPtrBorrow>)
        requires
            load_ready(*self, *old(d), node as int),
            self.concurrent,
            self.ptr(*old(d)) != 0 ==> old(d).heap.count(self.ptr(*old(d)) as int) + 1 < crate::domain::ROOM,
            old(d).heap.counts@.len() < crate::heap::MAX_VALUES,
            forall|v: Option<u64>| call_requires(f, (v,)),
        ensures
            final(d).wf(),
            match r {
                Ok(h) => {
                    &&& opt_ptr(h) == self.ptr(*old(d))
                    &&& holds_opt(*final(d), h)
                    &&& self.ptr(*final(d)) == addr_of(old(d).heap.counts@.len() as int)
                    &&& final(d).cells@ == old(d).cells@.update(self.id as int, self.ptr(*final(d)))
                    &&& final(d).writes@ == old(d).writes@.update(self.id as int, old(d).writes@[self.id as int] + 1)
                    &&& call_ensures(f, (value_opt(*old(d), self.ptr(*old(d))),), Some(final(d).heap.value(self.ptr(*final(d)) as int)))
                },
                Err(b) => {
                    &&& call_ensures(f, (value_opt(*old(d), self.ptr(*old(d))),), None::<u64>)
                    &&& final(d).cells == old(d).cells
                    &&& final(d).writes == old(d).writes
                    &&& b.ptr == self.ptr(*old(d))
                    &&& b.held_in(*final(d))
                },
            },
    {
        broadcast use group_multiset_axioms, group_multiset_properties;

        let ghost d0 = *d;
        let current = self.load(d, node);
        proof {
            if self.ptr(d0) != 0 {
                lemma_cell_value_live(*self, d0);
            }
        }
        let v = if current.ptr == 0 { None } else { Some(d.value_at(current.ptr)) };
        match f(v) {
            None => Err(current),
            Some(nv) => {
                let ghost d1 = *d;
                let h = d.allocate(nv);
                let ghost d2 = *d;
                let ghost hp = h@;
                assert(d.room()) by {
                    assert forall|i: int| 0 <= i < d.heap.counts@.len() implies #[trigger] d.heap.counts@[i] < crate::domain::ROOM by {
                        if i < d1.heap.counts@.len() {
                            assert(d0.heap.counts@[i] < crate::domain::ROOM);
                            if current.ptr != 0 && i == index_of(current.ptr as int) {
                                assert(d0.heap.counts@[i] + 1 < crate::domain::ROOM);
                            }
                        }
                    }
                }
                proof {
                    let p = current.ptr;
                    let ip = index_of(p as int);
                    if p != 0 {
                        assert(addr_of(ip) == p);
                        assert(d2.count_balanced(ip));
                        assert(d2.owners@[ip].count(Owner::Cell(self.id)) > 0);
                    }
                    assert(d2.count_balanced(index_of(hp as int)));
                }
                let res = self.compare_exchange(d, node, current.ptr, Some(h));
                proof {
                    let p = current.ptr;
                    let ip = index_of(p as int);
                    if p != 0 {
                        lemma_exchange_count(d2.owners@, self.id, p, hp, ip, Owner::Outside);
                        assert(ip != index_of(hp as int));
                    }
                }
                match res {
                    Ok(old) => {
                        assert(self.swap_post(d2, hp, *d, old));
                        current.release(d);
                        Ok(old)
                    },
                    Err(b) => {
                        current.release(d);
                        Err(b)
                    },
                }
            },
        }
    }
}

/// The value at raw address `p` as `f` of `fetch_update` sees it: `None` when null.
pub open spec fn value_opt(d: Domain, p: usize) -> Option<u64> {
    if p == 0 {
        None
    } else {
        Some(d.heap.value(p as int))
    }
}


/// Storing a handle and then loading an owned handle from the same cell, with no write in
/// between, gives a handle for the same value.
pub proof fn law_store_then_load_owned(
    cell: AtomicArc,
    d0: Domain,
    h: Option<Handle>,
    d1: Domain,
    d2: Domain,
    r: Option<Handle>,
)
    requires
        cell.in_domain(d0),
        cell.store_post(d0, opt_ptr(h), d1),
        cell.load_owned_post(d1, d2, r),
    ensures
        opt_ptr(r) == opt_ptr(h),
        opt_ptr(r) != 0 ==> d2.heap.value(opt_ptr(r) as int) == d0.heap.value(opt_ptr(h) as int),
{
}

/// With one borrow slot per node, a load finding that slot reserved does not bind to it: it
/// takes the clone handshake and owns its unit.
pub proof fn law_single_slot_occupied(cell: AtomicArc, d0: Domain, node: int, d1: Domain, r: ArcPtrBorrow)
    requires
        cell.load_post(d0, node, d1, r),
        d0.list.borrow_slot_count == 1,
        d0.list.slot(node, 0) != 0,
    ensures
        r.slot is None,
{
}


/// From `d0` to `d1` cells only received writes: no cell lost one, and a cell without a new
/// write holds what it held.
pub open spec fn writes_advance(d0: Domain, d1: Domain) -> bool {
    &&& d1.writes@.len() >= d0.writes@.len()
    &&& d1.cells@.len() >= d0.cells@.len()
    &&& forall|c: int| 0 <= c < d0.writes@.len() ==> #[trigger] d1.writes@[c] >= d0.writes@[c]
    &&& forall|c: int|
        0 <= c < d0.writes@.len() && d1.writes@[c] == d0.writes@[c] ==> #[trigger] d1.cells@[c]
            == d0.cells@[c]
}

/// Successive loads of a cell follow its writes: whatever operations run between them, the
/// later load returns the value of the same write as the earlier one or of a later write, never
/// of an earlier one.
pub proof fn law_loads_follow_writes(
    cell: AtomicArc,
    d0: Domain,
    n1: int,
    d1: Domain,
    r1: ArcPtrBorrow,
    d2: Domain,
    n2: int,
    d3: Domain,
    r2: ArcPtrBorrow,
)
    requires
        d0.wf(),
        cell.in_domain(d0),
        cell.load_post(d0, n1, d1, r1),
        writes_advance(d1, d2),
        cell.load_post(d2, n2, d3, r2),
    ensures
        r1.ptr == cell.ptr(d0),
        r2.ptr == cell.ptr(d2),
        d2.writes@[cell.id as int] >= d0.writes@[cell.id as int],
        d2.writes@[cell.id as int] == d0.writes@[cell.id as int] ==> r2.ptr == r1.ptr,
{
}


/// A write of a cell keeps every load in progress accounted for, and answers each load of that
/// cell waiting in its clone handshake: the clone slot then holds the written value, which
/// finishing the load returns.
pub proof fn law_write_answers_pending_loads(
    cell: AtomicArc,
    d0: Domain,
    new: Option<Handle>,
    d1: Domain,
    r: Option<Handle>,
    pending: PendingLoad,
    reader: AtomicArc,
)
    requires
        d0.wf(),
        cell.in_domain(d0),
        holds_opt(d0, new),
        cell.swap_post(d0, opt_ptr(new), d1, r),
        pending.held_in(reader, d0),
    ensures
        pending.held_in(reader, d1),
        match pending {
            PendingLoad::Advertised { node, prepare } => {
                reader.id == cell.id && reader.concurrent == cell.concurrent && opt_ptr(new) != 0
                    && d0.list.nodes@[node as int].clone_slot == prepare
                    ==> d1.list.nodes@[node as int].clone_slot == opt_ptr(new)
            },
            _ => true,
        },
{
    match pending {
        PendingLoad::Null => {},
        PendingLoad::Reserved { node, slot, ptr } => {
            assert(d0.list.nodes@[node as int].clone_slot == 0);
            assert(d1.list.nodes@[node as int].clone_slot == 0);
            assert(d0.heap.valid(ptr as int));
        },
        PendingLoad::Advertised { node, prepare } => {
            assert(same_words(d1.list.nodes@[node as int], d0.list.nodes@[node as int]));
            let q = opt_ptr(new);
            if q != 0 {
                assert(d0.heap.valid(q as int));
            }
        },
    }
}

} // verus!
