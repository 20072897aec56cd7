//! What the bookkeeping of a well-formed domain guarantees about reference counts.

use vstd::prelude::*;
use vstd::multiset::*;

use crate::atomic::{holds_opt, opt_ptr, ArcPtrBorrow, AtomicArc};
use crate::domain::{Domain, Owner};
use crate::heap::{addr_of, index_of, Handle};

verus! {

/// In every state the operations reach, each count is accounted for unit by unit: it is the
/// number of units the value's owners hold; a cell holding the value owns exactly one of them;
/// the units transferred into a borrow slot, plus its reservation, are the borrows bound there;
/// and a reserved value is held by some cell, so its count is not zero.
pub proof fn law_counts_account_for_units(d: Domain, i: int)
    requires
        d.wf(),
        0 <= i < d.heap.counts@.len(),
    ensures
        d.heap.counts@[i] == d.owners@[i].len(),
        forall|c: usize|
            c < d.cells@.len() ==> #[trigger] d.owners@[i].count(Owner::Cell(c)) == if d.cells@[c as int]
                == addr_of(i) {
                1nat
            } else {
                0nat
            },
        forall|n: int, s: int|
            d.list.slot_in_range(n, s) ==> #[trigger] d.owners@[i].count(
                Owner::Slot(n as usize, s as usize),
            ) + (if d.list.slot(n, s) == addr_of(i) {
                1int
            } else {
                0int
            }) == d.claim(n, s, addr_of(i)),
        forall|n: int, s: int|
            d.list.slot_in_range(n, s) && #[trigger] d.list.slot(n, s) == addr_of(i)
                ==> d.heap.counts@[i] > 0,
{
    broadcast use group_multiset_axioms;

    assert(d.count_balanced(i));
    assert forall|n: int, s: int| d.list.slot_in_range(n, s) implies #[trigger] d.owners@[i].count(
        Owner::Slot(n as usize, s as usize),
    ) + (if d.list.slot(n, s) == addr_of(i) {
        1int
    } else {
        0int
    }) == d.claim(n, s, addr_of(i)) by {
        assert(d.slot_balanced(n, s, i));
    }
    assert forall|n: int, s: int|
        d.list.slot_in_range(n, s) && #[trigger] d.list.slot(n, s) == addr_of(i) implies d.heap.counts@[i] > 0 by {
        assert(d.slot_protected(n, s, 0));
        let c = choose|c: usize| #[trigger] d.units(addr_of(i), Owner::Cell(c)) > 0;
        assert(index_of(addr_of(i)) == i);
        assert(d.owners@[i].count(Owner::Cell(c)) > 0);
    }
}

/// A borrow the domain accounts for refers to a live value: its count is not zero.
pub proof fn law_borrow_keeps_value_alive(b: ArcPtrBorrow, d: Domain)
    requires
        d.wf(),
        b.held_in(d),
        b.ptr != 0,
    ensures
        d.heap.count(b.ptr as int) > 0,
{
    crate::atomic::lemma_borrow_live(b, d);
}

/// A swap does not take away a borrow the domain accounts for (other than one sharing the
/// unit of the handle swapped in): a reservation of the replaced value becomes a unit of its
/// slot, and the unit of the cell goes to the caller.
pub proof fn law_swap_keeps_borrows(
    cell: AtomicArc,
    d0: Domain,
    new: Option<Handle>,
    d1: Domain,
    r: Option<Handle>,
    b: ArcPtrBorrow,
)
    requires
        d0.wf(),
        cell.in_domain(d0),
        holds_opt(d0, new),
        cell.swap_post(d0, opt_ptr(new), d1, r),
        b.held_in(d0),
        b.slot is None && b.ptr != 0 && b.ptr == opt_ptr(new) ==> d0.units(b.ptr as int, Owner::Outside)
            > 1,
    ensures
        b.held_in(d1),
        b.ptr != 0 ==> d1.heap.count(b.ptr as int) > 0,
{
    broadcast use group_multiset_axioms, group_multiset_properties;

    let p = cell.ptr(d0);
    let np = opt_ptr(new);
    if b.ptr != 0 {
        let i = index_of(b.ptr as int);
        assert(addr_of(i) == b.ptr);
        assert(d0.count_balanced(i));
        if p != 0 {
            assert(d0.cells@[cell.id as int] == 0 || d0.heap.valid(d0.cells@[cell.id as int] as int));
            assert(d0.count_balanced(index_of(p as int)));
            assert(addr_of(index_of(p as int)) == p);
        }
        if np != 0 {
            assert(d0.count_balanced(index_of(np as int)));
        }
        crate::atomic::lemma_exchange_count(d0.owners@, cell.id, p, np, i, Owner::Outside);
        assert(d1.owners@[i].count(Owner::Outside) >= d0.owners@[i].count(Owner::Outside) - (if np != 0 && i == index_of(np as int) { 1int } else { 0int }));
        match b.slot {
            None => {
                if np != 0 && i == index_of(np as int) {
                    assert(addr_of(index_of(np as int)) == np);
                }
            },
            Some((n, s)) => {},
        }
        crate::atomic::lemma_borrow_live(b, d1);
    }
}

/// Once every cell is null, every handle and borrow is given back, no borrow is bound to a slot
/// and no load is in progress, every count is zero: nothing leaks.
pub proof fn law_no_leaks(d: Domain)
    requires
        d.wf(),
        forall|c: int| 0 <= c < d.cells@.len() ==> #[trigger] d.cells@[c] == 0,
        forall|i: int| 0 <= i < d.owners@.len() ==> #[trigger] d.owners@[i].count(Owner::Outside) == 0,
        forall|n: int, s: int, a: usize| d.list.slot_in_range(n, s) ==> #[trigger] d.claims@[n][s].count(a) == 0,
        forall|n: int| 0 <= n < d.list.nodes@.len() ==> (#[trigger] d.list.nodes@[n]).clone_slot == 0,
    ensures
        forall|i: int| 0 <= i < d.heap.counts@.len() ==> #[trigger] d.heap.counts@[i] == 0,
{
    broadcast use group_multiset_axioms;

    assert forall|i: int| 0 <= i < d.heap.counts@.len() implies #[trigger] d.heap.counts@[i] == 0 by {
        assert(d.count_balanced(i));
        assert forall|o: Owner| #[trigger] d.owners@[i].count(o) == 0 by {
            if d.owners@[i].count(o) > 0 {
                assert(d.owner_in_range(o));
                match o {
                    Owner::Cell(c) => {
                        assert(d.cells@[c as int] == 0);
                    },
                    Owner::Outside => {},
                    Owner::Slot(n, s) => {
                        assert(d.slot_balanced(n as int, s as int, i));
                        assert(d.claims@[n as int][s as int].count(addr_of(i) as usize) == 0);
                    },
                    Owner::Clone(n) => {
                        assert(d.clone_balanced(n as int, i));
                        assert(d.list.nodes@[n as int].clone_slot == 0);
                    },
                }
            }
        }
        assert(d.owners@[i] =~= Multiset::empty());
    }
}


/// A load does not take away a borrow the domain accounts for: counts, claims and the units
/// held outside only gain.
pub proof fn law_load_keeps_borrows(cell: AtomicArc, d0: Domain, node: int, d1: Domain, r: ArcPtrBorrow, b: ArcPtrBorrow)
    requires
        d0.wf(),
        cell.load_post(d0, node, d1, r),
        b.held_in(d0),
    ensures
        b.held_in(d1),
        b.ptr != 0 ==> d1.heap.count(b.ptr as int) > 0,
{
    if b.ptr != 0 {
        let i = index_of(b.ptr as int);
        assert(d1.owners@[i].count(Owner::Outside) >= d0.owners@[i].count(Owner::Outside));
        crate::atomic::lemma_borrow_live(b, d1);
    }
}

/// A store does not take away a borrow the domain accounts for (other than one sharing the
/// unit of the handle stored): the unit it drops is the one the cell gave up.
pub proof fn law_store_keeps_borrows(cell: AtomicArc, d0: Domain, new: Option<Handle>, d1: Domain, b: ArcPtrBorrow)
    requires
        d0.wf(),
        cell.in_domain(d0),
        holds_opt(d0, new),
        cell.store_post(d0, opt_ptr(new), d1),
        b.held_in(d0),
        b.slot is None && b.ptr != 0 && b.ptr == opt_ptr(new) ==> d0.units(b.ptr as int, Owner::Outside)
            > 1,
    ensures
        b.held_in(d1),
        b.ptr != 0 ==> d1.heap.count(b.ptr as int) > 0,
{
    broadcast use group_multiset_axioms, group_multiset_properties;

    let p = cell.ptr(d0);
    let np = opt_ptr(new);
    if b.ptr != 0 {
        let i = index_of(b.ptr as int);
        assert(addr_of(i) == b.ptr);
        assert(d0.count_balanced(i));
        if p != 0 {
            assert(d0.cells@[cell.id as int] == 0 || d0.heap.valid(d0.cells@[cell.id as int] as int));
            assert(d0.count_balanced(index_of(p as int)));
            assert(addr_of(index_of(p as int)) == p);
        }
        if np != 0 {
            assert(d0.count_balanced(index_of(np as int)));
        }
        crate::atomic::lemma_exchange_count(d0.owners@, cell.id, p, np, i, Owner::Outside);
        match b.slot {
            None => {
                if np != 0 && i == index_of(np as int) {
                    assert(addr_of(index_of(np as int)) == np);
                }
            },
            Some((n, s)) => {},
        }
        crate::atomic::lemma_borrow_live(b, d1);
    }
}

} // verus!
