use paxoskv::store::{bytes_eq, clone_bytes, Persistor};

#[test]
fn persistor_test_all() {
    let mut p = Persistor::new();

    let key = b"key1".to_vec();
    let value = b"value1".to_vec();

    assert!(p.get(&key).is_none());
    p.set(key.clone(), value.clone());
    assert_eq!(p.get(&key), Some(value));
}

#[test]
fn durable_store_round_trip() {
    // set, "restart" from the dumped entries, get: the value survives
    let mut p = Persistor::new();
    p.set(b"k".to_vec(), b"v".to_vec());
    let snapshot = p.dump();
    let p2 = Persistor::from_entries(&snapshot);
    assert_eq!(p2.get(b"k"), Some(b"v".to_vec()));
}

#[test]
fn store_overwrite_and_delete() {
    let mut p = Persistor::new();
    p.set(b"a".to_vec(), b"1".to_vec());
    p.set(b"a".to_vec(), b"2".to_vec());
    assert_eq!(p.get(b"a"), Some(b"2".to_vec()));
    p.delete(b"a");
    assert!(p.get(b"a").is_none());
    assert!(!p.contains(b"a"));
    p.delete(b"missing");
    assert!(p.get(b"missing").is_none());
}

#[test]
fn bytes_helpers() {
    assert!(bytes_eq(b"abc", b"abc"));
    assert!(!bytes_eq(b"abc", b"abd"));
    assert!(!bytes_eq(b"abc", b"ab"));
    let v = b"xyz".to_vec();
    assert_eq!(clone_bytes(&v), v);
}
