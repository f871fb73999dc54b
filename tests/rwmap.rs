use datastore::rwmap::RwMap;

#[test]
fn test_rwmap_locking() {
    let mut rwmap = RwMap::new();

    // Test multiple readers on same range
    let lock1 = rwmap.lock(0..10, false);
    assert!(!lock1.is_writer());

    let lock2 = rwmap.try_lock(0..10, false);
    assert!(lock2.is_some()); // Multiple readers allowed

    let lock3 = rwmap.try_lock(5..15, false);
    assert!(lock3.is_some()); // Overlapping readers allowed

    // Test writer blocks when readers exist
    let lock4 = rwmap.try_lock(0..10, true);
    assert!(lock4.is_none()); // Writer blocked by readers

    lock1.release(&mut rwmap);
    lock2.unwrap().release(&mut rwmap);
    lock3.unwrap().release(&mut rwmap);

    // Test writer succeeds when no readers
    let lock5 = rwmap.try_lock(0..10, true);
    assert!(lock5.is_some());

    // Test reader blocked by writer
    let lock6 = rwmap.try_lock(5..15, false);
    assert!(lock6.is_none()); // Reader blocked by writer

    lock5.unwrap().release(&mut rwmap);

    // Test non-overlapping ranges work independently
    let _lock7 = rwmap.lock(0..10, false);
    let lock8 = rwmap.try_lock(10..20, true);
    assert!(lock8.is_some()); // Non-overlapping writer allowed
}

#[test]
fn released_writer_lets_a_writer_in() {
    let mut rwmap = RwMap::new();
    let w = rwmap.try_lock(3..4, true).unwrap();
    assert_eq!(w.range(), &(3..4));
    assert!(rwmap.try_lock(0..100, false).is_none());
    w.release(&mut rwmap);
    assert!(rwmap.try_lock(0..100, true).is_some());
}
