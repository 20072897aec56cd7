use hazarc::{ArcPtrBorrow, AtomicArc, Concurrent, Domain, Handle, Serialized};

const SLOT_COUNTS: [usize; 3] = [8, 1, 0];

fn borrowed(d: &Domain, b: &ArcPtrBorrow) -> Option<u64> {
    if b.is_null() {
        None
    } else {
        Some(d.value_at(b.as_ptr()))
    }
}

fn owned(d: &Domain, h: &Option<Handle>) -> Option<u64> {
    h.as_ref().map(|h| d.value_at(h.addr))
}

fn new_cell(d: &mut Domain, concurrent: bool, v: u64) -> AtomicArc {
    let h = d.allocate(v);
    if concurrent {
        AtomicArc::new::<Concurrent>(d, h)
    } else {
        AtomicArc::new::<Serialized>(d, h)
    }
}

#[test]
fn swap_chain_releases_every_value() {
    for slots in SLOT_COUNTS {
        let mut d = Domain::new(slots);
        let node = d.acquire_node();
        let a = d.allocate(1);
        let b = d.allocate(2);
        let c = d.allocate(3);
        let (pa, pb, pc) = (a.addr, b.addr, c.addr);
        let cell = AtomicArc::new::<Serialized>(&mut d, a);
        let ra = cell.swap(&mut d, Some(b));
        assert_eq!(owned(&d, &ra), Some(1));
        assert_eq!(ra.as_ref().unwrap().addr, pa);
        let lb = cell.load_owned(&mut d, node);
        assert_eq!(owned(&d, &lb), Some(2));
        let rb = cell.swap(&mut d, Some(c));
        assert_eq!(owned(&d, &rb), Some(2));
        let lc = cell.load_owned(&mut d, node);
        assert_eq!(owned(&d, &lc), Some(3));
        for h in [ra, lb, rb, lc] {
            d.drop_handle(h.unwrap());
        }
        cell.release(&mut d);
        assert_eq!(d.count_at(pa), 0);
        assert_eq!(d.count_at(pb), 0);
        assert_eq!(d.count_at(pc), 0);
    }
}

// Two writers and one reader; the threads are played as interleavings of whole operations.
fn two_writer_race(slots: usize, concurrent: bool, x_first: bool) {
    let mut d = Domain::new(slots);
    let reader = d.acquire_node();
    let cell = new_cell(&mut d, concurrent, 0);
    let held = cell.load(&mut d, reader);
    let one = d.allocate(1);
    let two = d.allocate(2);
    let (sx, sy) = if x_first {
        let sx = cell.swap(&mut d, Some(one));
        let sy = cell.swap(&mut d, Some(two));
        (sx, sy)
    } else {
        let sy = cell.swap(&mut d, Some(two));
        let sx = cell.swap(&mut d, Some(one));
        (sx, sy)
    };
    let vx = owned(&d, &sx).unwrap();
    let vy = owned(&d, &sy).unwrap();
    assert!(vx == 0 || vx == 2);
    assert!(vy == 0 || vy == 1);
    assert_eq!(borrowed(&d, &held), Some(0));
    let l1 = cell.load(&mut d, reader);
    let l2 = cell.load(&mut d, reader);
    let l3 = cell.load(&mut d, reader);
    for b in [&l1, &l2, &l3] {
        let v = borrowed(&d, b).unwrap();
        assert!(v <= 2);
    }
    for b in [held, l1, l2, l3] {
        b.release(&mut d);
    }
    d.drop_handle(sx.unwrap());
    d.drop_handle(sy.unwrap());
    cell.release(&mut d);
    for i in 0..3u64 {
        assert_eq!(d.count_at(4 * i as usize + 4), 0);
    }
}

#[test]
fn two_writer_race_single_reader() {
    for slots in SLOT_COUNTS {
        for concurrent in [false, true] {
            two_writer_race(slots, concurrent, true);
            two_writer_race(slots, concurrent, false);
        }
    }
}

#[test]
fn slot_exhaustion_takes_clone_handshake() {
    let mut d = Domain::new(1);
    let node = d.acquire_node();
    let cell = new_cell(&mut d, false, 7);
    let p = 4;
    let first = cell.load(&mut d, node);
    assert_eq!(first.slot, Some((node, 0)));
    assert_eq!(d.count_at(p), 1);
    let second = cell.load(&mut d, node);
    assert_eq!(second.slot, None);
    assert_eq!(borrowed(&d, &second), Some(7));
    assert_eq!(d.count_at(p), 2);
    assert_eq!(d.list.nodes[node].clone_slot, 0);
    second.release(&mut d);
    assert_eq!(d.count_at(p), 1);
    first.release(&mut d);
    assert_eq!(d.list.nodes[node].borrow_slots[0], 0);
    assert_eq!(d.count_at(p), 1);
}

#[test]
fn zero_slots_always_clone() {
    for concurrent in [false, true] {
        let mut d = Domain::new(0);
        let node = d.acquire_node();
        let cell = new_cell(&mut d, concurrent, 5);
        let b = cell.load(&mut d, node);
        assert_eq!(b.slot, None);
        assert_eq!(d.count_at(4), 2);
        b.release(&mut d);
        assert_eq!(d.count_at(4), 1);
    }
}

#[test]
fn single_slot_round_robin_reuses_slot() {
    let mut d = Domain::new(1);
    let node = d.acquire_node();
    let cell = new_cell(&mut d, false, 9);
    for _ in 0..3 {
        let b = cell.load(&mut d, node);
        assert_eq!(b.slot, Some((node, 0)));
        b.release(&mut d);
    }
    assert_eq!(d.list.nodes[node].next_borrow_slot_idx, 0);
}

#[test]
fn cursor_moves_round_robin() {
    let mut d = Domain::new(4);
    let node = d.acquire_node();
    let cell = new_cell(&mut d, false, 9);
    let mut seen = Vec::new();
    for _ in 0..5 {
        let b = cell.load(&mut d, node);
        seen.push(b.slot.unwrap().1);
        b.release(&mut d);
    }
    assert_eq!(seen, vec![0, 1, 2, 3, 0]);
    let a = cell.load(&mut d, node);
    let b = cell.load(&mut d, node);
    assert_eq!(a.slot, Some((node, 1)));
    assert_eq!(b.slot, Some((node, 2)));
    a.release(&mut d);
    b.release(&mut d);
}

#[test]
fn null_cell_loads_null_borrow() {
    for slots in SLOT_COUNTS {
        let mut d = Domain::new(slots);
        let node = d.acquire_node();
        let cell = AtomicArc::none::<Serialized>(&mut d);
        assert!(cell.is_none(&d));
        let b = cell.load(&mut d, node);
        assert!(b.is_null());
        assert_eq!(b.slot, None);
        assert!(b.transpose().is_none());
        assert!(cell.load_owned(&mut d, node).is_none());
    }
}

#[test]
fn drop_cell_then_drop_borrow() {
    for slots in SLOT_COUNTS {
        let mut d = Domain::new(slots);
        let node = d.acquire_node();
        let cell = new_cell(&mut d, false, 0);
        let borrow = cell.load(&mut d, node);
        cell.release(&mut d);
        assert_eq!(d.count_at(4), 1);
        assert_eq!(borrowed(&d, &borrow), Some(0));
        borrow.release(&mut d);
        assert_eq!(d.count_at(4), 0);
    }
}

#[test]
fn cross_thread_borrow_drop() {
    for slots in SLOT_COUNTS {
        let mut d = Domain::new(slots);
        let a = d.acquire_node();
        let _b = d.acquire_node();
        let cell = new_cell(&mut d, false, 0);
        let borrow = cell.load(&mut d, a);
        let new = d.allocate(1);
        cell.store(&mut d, Some(new));
        // the borrow was handed to another thread, which drops it after the store
        assert_eq!(d.count_at(4), 1);
        borrow.release(&mut d);
        assert_eq!(d.count_at(4), 0);
        assert_eq!(d.count_at(8), 1);
    }
}

#[test]
fn fetch_update_counter() {
    for slots in SLOT_COUNTS {
        let mut d = Domain::new(slots);
        let x = d.acquire_node();
        let y = d.acquire_node();
        let cell = new_cell(&mut d, true, 0);
        let ox = cell.fetch_update(&mut d, x, |v: Option<u64>| v.map(|x| x + 1)).ok().unwrap();
        let oy = cell.fetch_update(&mut d, y, |v: Option<u64>| v.map(|x| x + 1)).ok().unwrap();
        assert_eq!(owned(&d, &ox), Some(0));
        assert_eq!(owned(&d, &oy), Some(1));
        let last = cell.load_owned(&mut d, x);
        assert_eq!(owned(&d, &last), Some(2));
        let stop = cell.fetch_update(&mut d, x, |_| None);
        match stop {
            Err(b) => assert_eq!(borrowed(&d, &b), Some(2)),
            Ok(_) => panic!("fetch_update went on after `None`"),
        }
    }
}

#[test]
fn seq_cst_cross_store_load() {
    for slots in SLOT_COUNTS {
        for a_first in [false, true] {
            let mut d = Domain::new(slots);
            let na = d.acquire_node();
            let nb = d.acquire_node();
            let x = AtomicArc::none::<Serialized>(&mut d);
            let y = AtomicArc::none::<Serialized>(&mut d);
            let vx = d.allocate(1);
            let vy = d.allocate(1);
            let (oa, ob) = if a_first {
                x.store(&mut d, Some(vx));
                let oa = y.load(&mut d, na);
                y.store(&mut d, Some(vy));
                let ob = x.load(&mut d, nb);
                (oa, ob)
            } else {
                y.store(&mut d, Some(vy));
                let ob = x.load(&mut d, nb);
                x.store(&mut d, Some(vx));
                let oa = y.load(&mut d, na);
                (oa, ob)
            };
            assert!(!oa.is_null() || !ob.is_null());
        }
    }
}

#[test]
fn compare_exchange_succeeds_only_on_current() {
    let mut d = Domain::new(2);
    let node = d.acquire_node();
    let cell = new_cell(&mut d, true, 10);
    let eleven = d.allocate(11);
    let twelve = d.allocate(12);
    let ten = 4;
    let stale = cell.compare_exchange(&mut d, node, 8, Some(twelve));
    match stale {
        Err(b) => {
            assert_eq!(borrowed(&d, &b), Some(10));
            b.release(&mut d);
        }
        Ok(_) => panic!("exchanged from a value the cell did not hold"),
    }
    // the handle offered to the failed exchange was dropped
    assert_eq!(d.count_at(12), 0);
    let old = cell.compare_exchange(&mut d, node, ten, Some(eleven)).ok().unwrap();
    assert_eq!(owned(&d, &old), Some(10));
    let now = cell.load_owned(&mut d, node);
    assert_eq!(owned(&d, &now), Some(11));
}

#[test]
fn load_if_outdated_compares_addresses() {
    let mut d = Domain::new(2);
    let node = d.acquire_node();
    let cell = new_cell(&mut d, false, 3);
    let current = cell.load_owned(&mut d, node);
    assert!(cell.load_if_outdated(&mut d, node, &current).is_ok());
    let other = d.allocate(3);
    cell.store(&mut d, Some(other));
    match cell.load_if_outdated(&mut d, node, &current) {
        Err(b) => {
            assert_eq!(b.as_ptr(), 8);
            b.release(&mut d);
        }
        Ok(_) => panic!("an outdated handle was accepted"),
    }
    assert!(cell.load_if_outdated(&mut d, node, &None).is_err());
}

#[test]
fn load_cached_reloads_only_when_outdated() {
    let mut d = Domain::new(2);
    let node = d.acquire_node();
    let cell = new_cell(&mut d, false, 3);
    let mut cached = None;
    cell.load_cached(&mut d, node, &mut cached);
    assert_eq!(owned(&d, &cached), Some(3));
    assert_eq!(d.count_at(4), 2);
    cell.load_cached(&mut d, node, &mut cached);
    assert_eq!(d.count_at(4), 2);
    let four = d.allocate(4);
    cell.store(&mut d, Some(four));
    cell.load_cached(&mut d, node, &mut cached);
    assert_eq!(owned(&d, &cached), Some(4));
    assert_eq!(d.count_at(4), 0);
}

#[test]
fn writer_transfers_unit_to_bound_borrow() {
    let mut d = Domain::new(2);
    let node = d.acquire_node();
    let cell = new_cell(&mut d, false, 1);
    let b = cell.load(&mut d, node);
    let (n, s) = b.slot.unwrap();
    assert_eq!(d.list.nodes[n].borrow_slots[s], 4);
    let two = d.allocate(2);
    let old = cell.swap(&mut d, Some(two));
    // the slot was cleared and its reservation became a unit
    assert_eq!(d.list.nodes[n].borrow_slots[s], 0);
    assert_eq!(d.count_at(4), 2);
    d.drop_handle(old.unwrap());
    assert_eq!(d.count_at(4), 1);
    b.release(&mut d);
    assert_eq!(d.count_at(4), 0);
}

#[test]
fn borrow_into_owned_keeps_value() {
    let mut d = Domain::new(1);
    let node = d.acquire_node();
    let cell = new_cell(&mut d, false, 6);
    let bound = cell.load(&mut d, node);
    let unbound = cell.load(&mut d, node);
    let h1 = bound.into_owned(&mut d);
    let h2 = unbound.into_owned(&mut d);
    assert_eq!(d.count_at(4), 3);
    assert_eq!(d.list.nodes[node].borrow_slots[0], 0);
    d.drop_handle(h1.unwrap());
    d.drop_handle(h2.unwrap());
    let h = cell.into_owned(&mut d);
    assert_eq!(owned(&d, &h), Some(6));
    assert_eq!(d.count_at(4), 1);
}

#[test]
fn concurrent_clone_advertises_generation() {
    let mut d = Domain::new(0);
    let node = d.acquire_node();
    let cell = new_cell(&mut d, true, 1);
    let b = cell.load(&mut d, node);
    assert_eq!(d.list.nodes[node].clone_generation, 2);
    assert_eq!(d.list.nodes[node].atomic_arc_slot, 4 * cell.id + 4);
    assert_eq!(d.list.nodes[node].clone_slot, 0);
    b.release(&mut d);
    assert!(d.list.nodes[node].in_use);
}

#[test]
fn last_generation_gives_node_back() {
    let mut d = Domain::new(0);
    let node = d.acquire_node();
    let cell = new_cell(&mut d, true, 1);
    d.list.nodes[node].clone_generation = usize::MAX - 1;
    let b = cell.load(&mut d, node);
    assert_eq!(borrowed(&d, &b), Some(1));
    assert_eq!(d.list.nodes[node].clone_generation, 0);
    assert!(!d.list.nodes[node].in_use);
    // the next operation of the thread takes a node again
    assert_eq!(d.acquire_node(), node);
    b.release(&mut d);
}

#[test]
fn serialized_clone_keeps_generation() {
    let mut d = Domain::new(0);
    let node = d.acquire_node();
    let cell = new_cell(&mut d, false, 1);
    let b = cell.load(&mut d, node);
    assert_eq!(d.list.nodes[node].clone_generation, 0);
    b.release(&mut d);
}

#[test]
fn fetch_update_on_null_cell_sees_none() {
    let mut d = Domain::new(2);
    let node = d.acquire_node();
    let cell = AtomicArc::none::<Concurrent>(&mut d);
    let old = cell.fetch_update(&mut d, node, |v: Option<u64>| match v {
        None => Some(5),
        Some(x) => Some(x + 1),
    });
    assert!(old.ok().unwrap().is_none());
    let now = cell.load_owned(&mut d, node);
    assert_eq!(owned(&d, &now), Some(5));
    let stop = cell.fetch_update(&mut d, node, |_: Option<u64>| None);
    assert!(stop.is_err());
}

#[test]
fn outdated_reservation_takes_transferred_unit() {
    let mut d = Domain::new(2);
    let reader = d.acquire_node();
    let c = new_cell(&mut d, false, 1);
    let pending = c.begin_load(&mut d, reader);
    // a writer replaces the value before the reservation is confirmed: it turns the
    // reservation into a unit, which the outdated load takes
    let two = d.allocate(2);
    let one = c.swap(&mut d, Some(two)).unwrap();
    let b = c.finish_load(&mut d, pending);
    assert_eq!(b.slot, None);
    assert_eq!(borrowed(&d, &b), Some(1));
    assert_eq!(d.list.nodes[reader].next_borrow_slot_idx, 0);
    b.release(&mut d);
    d.drop_handle(one);
    assert_eq!(d.count_at(4), 0);
}
