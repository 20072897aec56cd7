use hazarc::{AtomicArc, Cache, Domain, Serialized};

fn cached_value(d: &Domain, cache: &Cache) -> Option<u64> {
    cache.cached.as_ref().map(|h| d.value_at(h.addr))
}

#[test]
fn cache() {
    let mut d = Domain::new(1);
    let node = d.acquire_node();
    let zero = d.allocate(0);
    let atomic_arc = AtomicArc::new::<Serialized>(&mut d, zero);
    let mut cache = Cache::new(&mut d, node, atomic_arc);
    let loaded = cache.load(&mut d, node).as_ref().unwrap().addr;
    assert_eq!(d.value_at(loaded), 0);
    let one = d.allocate(1);
    cache.inner().store(&mut d, Some(one));
    let loaded = cache.load(&mut d, node).as_ref().unwrap().addr;
    assert_eq!(d.value_at(loaded), 1);
    assert_eq!(cached_value(&d, &cache), Some(1));
}

#[test]
fn cache_option() {
    let mut d = Domain::new(1);
    let node = d.acquire_node();
    let zero = d.allocate(0);
    let atomic_arc = AtomicArc::new::<Serialized>(&mut d, zero);
    let mut cache = Cache::new(&mut d, node, atomic_arc);
    let loaded = cache.load(&mut d, node).as_ref().unwrap().addr;
    assert_eq!(d.value_at(loaded), 0);
    cache.inner().store(&mut d, None);
    assert!(cache.load(&mut d, node).is_none());
    assert_eq!(cached_value(&d, &cache), None);
}

#[test]
fn cache_keeps_value_until_reload() {
    let mut d = Domain::new(1);
    let node = d.acquire_node();
    let zero = d.allocate(0);
    let zero_addr = zero.addr;
    let atomic_arc = AtomicArc::new::<Serialized>(&mut d, zero);
    let mut cache = Cache::new(&mut d, node, atomic_arc);
    assert_eq!(d.count_at(zero_addr), 2);
    let one = d.allocate(1);
    cache.inner().store(&mut d, Some(one));
    // the cached handle alone keeps the old value
    assert_eq!(d.count_at(zero_addr), 1);
    assert!(cache.load_shared(&mut d, node).is_err());
    cache.load(&mut d, node);
    assert_eq!(d.count_at(zero_addr), 0);
    assert!(cache.load_shared(&mut d, node).is_ok());
    let inner = cache.into_inner(&mut d);
    assert!(!inner.is_none(&d));
}
