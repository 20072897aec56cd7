// Threads are played here as interleavings of whole operations, each thread on its own node.
use hazarc::{ArcPtrBorrow, AtomicArc, Concurrent, Domain, Handle, Serialized};

const SLOT_COUNTS: [usize; 3] = [8, 1, 0];

fn value(d: &Domain, b: &ArcPtrBorrow) -> Option<u64> {
    if b.is_null() {
        None
    } else {
        Some(d.value_at(b.as_ptr()))
    }
}

fn owned(d: &Domain, h: &Option<Handle>) -> Option<u64> {
    h.as_ref().map(|h| d.value_at(h.addr))
}

fn cell_of(d: &mut Domain, concurrent: bool, v: Option<u64>) -> AtomicArc {
    let h = v.map(|v| d.allocate(v));
    let cell = if concurrent { AtomicArc::none::<Concurrent>(d) } else { AtomicArc::none::<Serialized>(d) };
    cell.store(d, h);
    cell
}

#[test]
fn concurrent_reads() {
    for slots in SLOT_COUNTS {
        for concurrent in [false, true] {
            let mut d = Domain::new(slots);
            let r1 = d.acquire_node();
            let r2 = d.acquire_node();
            let cell = cell_of(&mut d, concurrent, Some(0));
            let b1 = cell.load(&mut d, r1);
            let one = d.allocate(1);
            cell.store(&mut d, Some(one));
            let b2 = cell.load(&mut d, r2);
            let two = d.allocate(2);
            cell.store(&mut d, Some(two));
            assert!([Some(0), Some(1), Some(2)].contains(&value(&d, &b1)));
            assert!([Some(0), Some(1), Some(2)].contains(&value(&d, &b2)));
            b1.release(&mut d);
            b2.release(&mut d);
        }
    }
}

fn concurrent_writes(slots: usize, concurrent: bool) {
    let mut d = Domain::new(slots);
    let reader = d.acquire_node();
    let cell = cell_of(&mut d, concurrent, Some(0));
    let one = d.allocate(1);
    let swapped = cell.swap(&mut d, Some(one));
    assert!(owned(&d, &swapped) == Some(0) || owned(&d, &swapped) == Some(2));
    let guard = cell.load(&mut d, reader);
    let two = d.allocate(2);
    let swapped = cell.swap(&mut d, Some(two));
    assert!(owned(&d, &swapped) == Some(0) || owned(&d, &swapped) == Some(1));
    assert!([Some(0), Some(1), Some(2)].contains(&value(&d, &guard)));
    let b = cell.load(&mut d, reader);
    assert!([Some(0), Some(1), Some(2)].contains(&value(&d, &b)));
    let b = cell.load(&mut d, reader);
    assert!([Some(0), Some(1), Some(2)].contains(&value(&d, &b)));
}

#[test]
fn mod_concurrent_writes() {
    for slots in SLOT_COUNTS {
        concurrent_writes(slots, false);
        concurrent_writes(slots, true);
    }
}

#[test]
fn test_concurrent_writes() {
    concurrent_writes(1, false);
}

fn concurrent_writes_option(slots: usize, concurrent: bool) {
    let mut d = Domain::new(slots);
    let reader = d.acquire_node();
    let cell = cell_of(&mut d, concurrent, Some(0));
    let one = d.allocate(1);
    let swapped = cell.swap(&mut d, Some(one));
    assert!(owned(&d, &swapped) == Some(0) || swapped.is_none());
    let guard = cell.load(&mut d, reader);
    let swapped = cell.swap(&mut d, None);
    assert!(owned(&d, &swapped) == Some(1) || owned(&d, &swapped) == Some(0));
    assert!([Some(0), Some(1), None].contains(&value(&d, &guard)));
    let b = cell.load(&mut d, reader);
    assert!([Some(0), Some(1), None].contains(&value(&d, &b)));
    let b = cell.load(&mut d, reader);
    assert!([Some(0), Some(1), None].contains(&value(&d, &b)));
}

#[test]
fn mod_concurrent_writes_option() {
    for slots in SLOT_COUNTS {
        concurrent_writes_option(slots, false);
        concurrent_writes_option(slots, true);
    }
}

#[test]
fn test_concurrent_writes_option() {
    concurrent_writes_option(1, false);
}

fn drop_atomic_arc_with_active_borrow(slots: usize, concurrent: bool) {
    let mut d = Domain::new(slots);
    let node = d.acquire_node();
    let atomic_arc = cell_of(&mut d, concurrent, Some(0));
    let borrow = atomic_arc.load(&mut d, node);
    atomic_arc.release(&mut d);
    borrow.release(&mut d);
}

#[test]
fn mod_drop_atomic_arc_with_active_borrow() {
    for slots in SLOT_COUNTS {
        drop_atomic_arc_with_active_borrow(slots, false);
        drop_atomic_arc_with_active_borrow(slots, true);
    }
}

#[test]
fn test_drop_atomic_arc_with_active_borrow() {
    drop_atomic_arc_with_active_borrow(1, false);
}

fn drop_borrow_in_another_thread(slots: usize, concurrent: bool) {
    let mut d = Domain::new(slots);
    let main = d.acquire_node();
    let other = d.acquire_node();
    let atomic_arc = cell_of(&mut d, concurrent, Some(0));
    let borrow = atomic_arc.load(&mut d, other);
    atomic_arc.store(&mut d, None);
    let _ = main;
    borrow.release(&mut d);
}

#[test]
fn mod_drop_borrow_in_another_thread() {
    for slots in SLOT_COUNTS {
        drop_borrow_in_another_thread(slots, false);
        drop_borrow_in_another_thread(slots, true);
    }
}

#[test]
fn test_drop_borrow_in_another_thread() {
    drop_borrow_in_another_thread(1, false);
}

#[test]
fn seq_cst_ordering() {
    for slots in SLOT_COUNTS {
        let mut d = Domain::new(slots);
        let a = d.acquire_node();
        let b = d.acquire_node();
        let x = cell_of(&mut d, false, None);
        let y = cell_of(&mut d, false, None);
        let vx = d.allocate(0);
        x.store(&mut d, Some(vx));
        let seen_a = y.load(&mut d, a);
        let vy = d.allocate(0);
        y.store(&mut d, Some(vy));
        let seen_b = x.load(&mut d, b);
        assert!(seen_a.transpose().is_some() || seen_b.transpose().is_some());
    }
}

fn fetch_and_add(slots: usize) {
    let mut d = Domain::new(slots);
    let t1 = d.acquire_node();
    let t2 = d.acquire_node();
    let atomic_arc = cell_of(&mut d, true, Some(0));
    let _ = atomic_arc.fetch_update(&mut d, t1, |i: Option<u64>| i.map(|x| x + 1));
    let _ = atomic_arc.fetch_update(&mut d, t2, |i: Option<u64>| i.map(|x| x + 1));
    let b = atomic_arc.load(&mut d, t1);
    assert_eq!(value(&d, &b), Some(2));
}

#[test]
fn concurrent_fetch_and_add() {
    fetch_and_add(1);
}

#[test]
fn mod_fetch_and_add() {
    for slots in SLOT_COUNTS {
        fetch_and_add(slots);
    }
}

#[test]
fn test_fetch_and_add() {
    fetch_and_add(1);
}

fn consecutive_loads(slots: usize) {
    let mut d = Domain::new(slots);
    let reader = d.acquire_node();
    let atomic_arc = cell_of(&mut d, true, Some(0));
    let one = d.allocate(1);
    atomic_arc.store(&mut d, Some(one));
    let a1 = atomic_arc.load(&mut d, reader);
    let two = d.allocate(2);
    atomic_arc.store(&mut d, Some(two));
    let a2 = atomic_arc.load(&mut d, reader);
    if value(&d, &a1) != value(&d, &a2) && value(&d, &a1) != Some(0) {
        let a3 = atomic_arc.load(&mut d, reader);
        assert_eq!(value(&d, &a2), value(&d, &a3));
    }
}

#[test]
fn concurrent_consecutive_loads() {
    consecutive_loads(1);
}

#[test]
fn mod_consecutive_loads() {
    for slots in SLOT_COUNTS {
        consecutive_loads(slots);
    }
}
