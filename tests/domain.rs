use hazarc::{AtomicArc, Domain, Serialized};

#[test]
fn domain_node_reuse() {
    let mut d = Domain::new(2);
    let node1 = d.acquire_node();
    d.release_node(node1);
    let node2 = d.acquire_node();
    let node3 = d.acquire_node();
    assert!(node1 == node2 || node1 == node3);
}

#[test]
fn borrow_list_node_reuse() {
    let mut d = Domain::new(2);
    let node1 = d.acquire_node();
    d.release_node(node1);
    let node2 = d.acquire_node();
    assert_eq!(node1, node2);
    let node3 = d.acquire_node();
    assert_ne!(node2, node3);
}

#[test]
fn borrow_list() {
    let mut d = Domain::new(1);
    let node1 = d.acquire_node();
    d.release_node(node1);
    let node2 = d.acquire_node();
    let node3 = d.acquire_node();
    assert!(node1 == node2 || node1 == node3);
}

#[test]
fn reserve() {
    let mut d = Domain::new(2);
    let taken = d.acquire_node();
    d.reserve(4);
    assert_eq!(d.list.nodes.len(), 4);
    assert!(d.list.nodes[taken].in_use);
    assert!(d.list.nodes[1..].iter().all(|n| !n.in_use));
    d.reserve(2);
    assert_eq!(d.list.nodes.len(), 4);
}

#[test]
fn deallocation() {
    let mut d = Domain::new(2);
    let n1 = d.acquire_node();
    let n2 = d.acquire_node();
    d.release_node(n1);
    d.release_node(n2);
    assert_eq!(d.list.nodes.len(), 2);
    d.deallocate();
    assert_eq!(d.list.nodes.len(), 0);
}

#[test]
fn acquire_takes_first_free_node() {
    let mut d = Domain::new(3);
    let a = d.acquire_node();
    let b = d.acquire_node();
    let c = d.acquire_node();
    assert_eq!((a, b, c), (0, 1, 2));
    d.release_node(b);
    assert_eq!(d.acquire_node(), 1);
    assert_eq!(d.acquire_node(), 3);
    assert_eq!(d.list.nodes[3].borrow_slots.len(), 3);
}

#[test]
fn no_leak_after_every_release() {
    let mut d = Domain::new(1);
    let node = d.acquire_node();
    let v = d.allocate(5);
    let cell = AtomicArc::new::<Serialized>(&mut d, v);
    let b1 = cell.load(&mut d, node);
    let b2 = cell.load(&mut d, node);
    let o = cell.load_owned(&mut d, node).unwrap();
    let h = d.clone_handle(&o);
    assert_eq!(d.count_at(4), 4);
    b1.release(&mut d);
    b2.release(&mut d);
    d.drop_handle(h);
    assert_eq!(d.count_at(4), 2);
    d.drop_handle(o);
    cell.release(&mut d);
    assert_eq!(d.count_at(4), 0);
}
