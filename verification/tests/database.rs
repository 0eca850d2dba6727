use conjecture::database::{Database, MemoryDatabase};

#[test]
fn memory_db_can_delete_a_missing_blob() {
    let mut db = MemoryDatabase::new();
    db.delete("foo", b"bar");
    assert!(db.fetch("foo").is_empty());
}

#[test]
fn memory_db_lists_saved_blobs() {
    let mut db = MemoryDatabase::new();
    db.save("foo", b"bar");
    let results = db.fetch("foo");
    assert!(results.len() == 1);
    assert!(results[0].as_slice() == b"bar");
}

#[test]
fn memory_db_deletes_one_matching_blob() {
    let mut db = MemoryDatabase::new();
    db.save("foo", b"bar");
    db.delete("foo", b"bar");
    let results = db.fetch("foo");
    assert!(results.is_empty());
}

#[test]
fn memory_db_keeps_keys_apart() {
    let mut db = MemoryDatabase::new();
    db.save("foo", b"one");
    db.save("quux", b"two");
    db.save("foo", b"three");
    let foo = db.fetch("foo");
    assert_eq!(foo.len(), 2);
    assert!(foo[0].as_slice() == b"one");
    assert!(foo[1].as_slice() == b"three");
    let quux = db.fetch("quux");
    assert_eq!(quux.len(), 1);
    db.delete("foo", b"one");
    assert_eq!(db.fetch("foo").len(), 1);
    assert_eq!(db.fetch("quux").len(), 1);
}
