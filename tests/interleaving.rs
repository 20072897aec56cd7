// A load in two steps, with writers running between them.
use hazarc::{ArcPtrBorrow, AtomicArc, Concurrent, Domain, PendingLoad, Serialized};

fn value(d: &Domain, b: &ArcPtrBorrow) -> Option<u64> {
    if b.is_null() {
        None
    } else {
        Some(d.value_at(b.as_ptr()))
    }
}

fn cell(d: &mut Domain, concurrent: bool, v: u64) -> AtomicArc {
    let h = d.allocate(v);
    if concurrent {
        AtomicArc::new::<Concurrent>(d, h)
    } else {
        AtomicArc::new::<Serialized>(d, h)
    }
}

#[test]
fn writer_between_publish_and_confirm_hands_over_unit() {
    let mut d = Domain::new(2);
    let reader = d.acquire_node();
    let c = cell(&mut d, false, 1);
    let pending = c.begin_load(&mut d, reader);
    assert!(matches!(pending, PendingLoad::Reserved { ptr: 4, .. }));
    let two = d.allocate(2);
    let old = c.swap(&mut d, Some(two));
    // the writer found the reservation and transferred a unit into the slot
    assert_eq!(d.list.nodes[reader].borrow_slots[0], 0);
    assert_eq!(d.count_at(4), 2);
    let b = c.finish_load(&mut d, pending);
    assert_eq!(b.slot, None);
    assert_eq!(value(&d, &b), Some(1));
    d.drop_handle(old.unwrap());
    assert_eq!(d.count_at(4), 1);
    b.release(&mut d);
    assert_eq!(d.count_at(4), 0);
}

#[test]
fn writer_answers_clone_handshake() {
    for concurrent in [false, true] {
        let mut d = Domain::new(0);
        let reader = d.acquire_node();
        let c = cell(&mut d, concurrent, 1);
        let pending = c.begin_load(&mut d, reader);
        assert!(matches!(pending, PendingLoad::Advertised { .. }));
        let two = d.allocate(2);
        let old = c.swap(&mut d, Some(two));
        // the writer deposited a unit of the new value in the clone slot
        assert_eq!(d.list.nodes[reader].clone_slot, 8);
        assert_eq!(d.count_at(8), 2);
        let b = c.finish_load(&mut d, pending);
        assert_eq!(d.list.nodes[reader].clone_slot, 0);
        assert_eq!(value(&d, &b), Some(2));
        assert_eq!(d.count_at(8), 2);
        b.release(&mut d);
        assert_eq!(d.count_at(8), 1);
        d.drop_handle(old.unwrap());
        assert_eq!(d.count_at(4), 0);
    }
}

#[test]
fn deposit_is_given_back_when_cell_became_null() {
    let mut d = Domain::new(0);
    let reader = d.acquire_node();
    let c = cell(&mut d, false, 1);
    let pending = c.begin_load(&mut d, reader);
    let two = d.allocate(2);
    let first = c.swap(&mut d, Some(two));
    let second = c.swap(&mut d, None);
    assert_eq!(d.count_at(8), 2);
    let b = c.finish_load(&mut d, pending);
    assert!(b.is_null());
    assert_eq!(d.list.nodes[reader].clone_slot, 0);
    assert_eq!(d.count_at(8), 1);
    d.drop_handle(second.unwrap());
    d.drop_handle(first.unwrap());
    assert_eq!(d.count_at(4), 0);
    assert_eq!(d.count_at(8), 0);
}

#[test]
fn null_store_leaves_handshake_unanswered() {
    let mut d = Domain::new(0);
    let reader = d.acquire_node();
    let c = cell(&mut d, false, 1);
    let pending = c.begin_load(&mut d, reader);
    c.store(&mut d, None);
    assert_eq!(d.list.nodes[reader].clone_slot % 2, 1);
    let b = c.finish_load(&mut d, pending);
    assert!(b.is_null());
    assert_eq!(d.count_at(4), 0);
}

#[test]
fn writer_of_another_cell_leaves_handshake_alone() {
    for concurrent in [false, true] {
        let mut d = Domain::new(0);
        let reader = d.acquire_node();
        let a = cell(&mut d, concurrent, 1);
        let b = cell(&mut d, concurrent, 2);
        let pending = a.begin_load(&mut d, reader);
        let three = d.allocate(3);
        b.store(&mut d, Some(three));
        assert_eq!(d.list.nodes[reader].clone_slot % 2, 1);
        let r = a.finish_load(&mut d, pending);
        assert_eq!(value(&d, &r), Some(1));
        r.release(&mut d);
    }
}

#[test]
fn reservation_outdated_by_null_store() {
    let mut d = Domain::new(1);
    let reader = d.acquire_node();
    let c = cell(&mut d, false, 1);
    let pending = c.begin_load(&mut d, reader);
    c.store(&mut d, None);
    // the transferred unit alone keeps the value
    assert_eq!(d.count_at(4), 1);
    let b = c.finish_load(&mut d, pending);
    assert!(b.is_null());
    assert_eq!(d.count_at(4), 0);
}

#[test]
fn reservation_confirmed_after_value_came_back() {
    let mut d = Domain::new(1);
    let reader = d.acquire_node();
    let c = cell(&mut d, false, 1);
    let pending = c.begin_load(&mut d, reader);
    let two = d.allocate(2);
    let one = c.swap(&mut d, Some(two)).unwrap();
    let two_back = c.swap(&mut d, Some(one)).unwrap();
    // the cell holds the published address again: the borrow stays bound, and owns the unit
    // the first writer transferred into its slot
    let b = c.finish_load(&mut d, pending);
    assert_eq!(b.slot, Some((reader, 0)));
    assert_eq!(value(&d, &b), Some(1));
    assert_eq!(d.count_at(4), 2);
    b.release(&mut d);
    assert_eq!(d.count_at(4), 1);
    d.drop_handle(two_back);
    assert_eq!(d.count_at(8), 0);
}

#[test]
fn monotonic_loads_under_concurrent_writes() {
    let mut d = Domain::new(0);
    let reader = d.acquire_node();
    let c = cell(&mut d, true, 0);
    let pending = c.begin_load(&mut d, reader);
    let one = d.allocate(1);
    c.store(&mut d, Some(one));
    let two = d.allocate(2);
    c.store(&mut d, Some(two));
    let first = c.finish_load(&mut d, pending);
    let second = c.load(&mut d, reader);
    // the handshake was answered by the first write after it; the next load sees the latest
    assert_eq!(value(&d, &first), Some(1));
    assert_eq!(value(&d, &second), Some(2));
}
