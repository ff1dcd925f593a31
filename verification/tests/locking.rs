use filestore::locks::LockTable;

#[test]
fn writer_excludes_writers_and_readers() {
    let mut table = LockTable::new();
    let key = String::from("persons/506574657200");
    assert!(table.try_acquire_write(&key));
    // while the writer holds the key, nobody else gets in
    assert!(!table.try_acquire_write(&key));
    assert!(!table.try_acquire_read(&key));
    table.release_write(&key);
    // a released key is free again
    assert!(table.try_acquire_write(&key));
    table.release_write(&key);
}

#[test]
fn readers_share_and_exclude_writers() {
    let mut table = LockTable::new();
    let key = String::from("numbers/07000000");
    assert!(table.try_acquire_read(&key));
    assert!(table.try_acquire_read(&key));
    assert!(table.try_acquire_read(&key));
    // readers never block readers, but they do block a writer
    assert!(!table.try_acquire_write(&key));
    table.release_read(&key);
    table.release_read(&key);
    // the key stays held until the last reader leaves
    assert!(!table.try_acquire_write(&key));
    table.release_read(&key);
    assert!(table.try_acquire_write(&key));
    table.release_write(&key);
}

#[test]
fn distinct_keys_are_independent() {
    let mut table = LockTable::new();
    let a = String::from("persons/506574657200");
    let b = String::from("persons/4d6172696100");
    assert!(table.try_acquire_write(&a));
    assert!(table.try_acquire_write(&b));
    assert!(table.is_held(&a));
    assert!(table.is_held(&b));
    table.release_write(&a);
    assert!(!table.is_held(&a));
    assert!(table.is_held(&b));
    table.release_write(&b);
}
