use coral_redis::memory::MemoryStorage;

fn k(s: &[u8]) -> Vec<u8> {
    s.to_vec()
}

#[test]
fn test_memory_basic_set_get() {
    let mut storage = MemoryStorage::new();
    storage.set(&k(b"key1"), &k(b"value1")).unwrap();

    assert_eq!(storage.get(&k(b"key1")).unwrap(), Some(b"value1".to_vec()));
    assert_eq!(storage.get(&k(b"nonexistent")).unwrap(), None);
}

#[test]
fn test_memory_delete() {
    let mut storage = MemoryStorage::new();
    storage.set(&k(b"key1"), &k(b"value1")).unwrap();

    assert!(storage.delete(&k(b"key1")).unwrap());
    assert!(!storage.delete(&k(b"nonexistent")).unwrap());
    assert_eq!(storage.get(&k(b"key1")).unwrap(), None);
}

#[test]
fn test_memory_exists() {
    let mut storage = MemoryStorage::new();
    storage.set(&k(b"key1"), &k(b"value1")).unwrap();

    assert!(storage.key_exists(&k(b"key1")).unwrap());
    assert!(!storage.key_exists(&k(b"nonexistent")).unwrap());

    storage.delete(&k(b"key1")).unwrap();
    assert!(!storage.key_exists(&k(b"key1")).unwrap());
}

#[test]
fn test_memory_expiry() {
    // the read instant is passed explicitly: write at `now`, read before
    // and after the 50 ms TTL elapses
    let mut storage = MemoryStorage::new();
    let now: u64 = 1_000_000;
    storage
        .set_with_expiry_at(&k(b"expiring_key"), &k(b"value"), now, 50)
        .unwrap();

    assert_eq!(
        storage.get_at(&k(b"expiring_key"), now + 10).unwrap(),
        Some(b"value".to_vec())
    );
    assert!(storage.exists_at(&k(b"expiring_key"), now + 10).unwrap());

    // strictly more than the TTL later
    assert_eq!(storage.get_at(&k(b"expiring_key"), now + 100).unwrap(), None);
    assert!(!storage.exists_at(&k(b"expiring_key"), now + 100).unwrap());
}

#[test]
fn storage_backends_test_memory_basic_set_get() {
    let mut storage = MemoryStorage::new();
    storage.set(&k(b"key1"), &k(b"value1")).unwrap();

    assert_eq!(storage.get(&k(b"key1")).unwrap(), Some(b"value1".to_vec()));
    assert_eq!(storage.get(&k(b"nonexistent")).unwrap(), None);
}

#[test]
fn storage_backends_test_memory_delete() {
    let mut storage = MemoryStorage::new();
    storage.set(&k(b"key1"), &k(b"value1")).unwrap();

    assert!(storage.delete(&k(b"key1")).unwrap());
    assert!(!storage.delete(&k(b"nonexistent")).unwrap());
    assert_eq!(storage.get(&k(b"key1")).unwrap(), None);
}

#[test]
fn storage_backends_test_memory_exists() {
    let mut storage = MemoryStorage::new();
    storage.set(&k(b"key1"), &k(b"value1")).unwrap();

    assert!(storage.key_exists(&k(b"key1")).unwrap());
    assert!(!storage.key_exists(&k(b"nonexistent")).unwrap());
}

#[test]
fn storage_backends_test_memory_expiry() {
    let mut storage = MemoryStorage::new();
    let now: u64 = 5_000_000;
    storage
        .set_with_expiry_at(&k(b"expiring_key"), &k(b"value"), now, 50)
        .unwrap();

    assert_eq!(
        storage.get_at(&k(b"expiring_key"), now).unwrap(),
        Some(b"value".to_vec())
    );
    assert_eq!(storage.get_at(&k(b"expiring_key"), now + 51).unwrap(), None);
}

#[test]
fn test_basic_set_get() {
    let mut storage = MemoryStorage::new();
    storage.set(&k(b"a"), &k(b"1")).unwrap();
    assert_eq!(storage.get(&k(b"a")).unwrap(), Some(b"1".to_vec()));
}

#[test]
fn test_delete() {
    let mut storage = MemoryStorage::new();
    storage.set(&k(b"a"), &k(b"1")).unwrap();
    assert!(storage.delete(&k(b"a")).unwrap());
    assert!(!storage.delete(&k(b"a")).unwrap());
}

#[test]
fn storage_test_exists() {
    let mut storage = MemoryStorage::new();
    storage.set(&k(b"a"), &k(b"1")).unwrap();
    assert!(storage.key_exists(&k(b"a")).unwrap());
    assert!(!storage.key_exists(&k(b"b")).unwrap());
}

#[test]
fn test_keys_count() {
    let mut storage = MemoryStorage::new();
    assert_eq!(storage.keys_count().unwrap(), 0);
    storage.set(&k(b"a"), &k(b"1")).unwrap();
    storage.set(&k(b"b"), &k(b"2")).unwrap();
    assert_eq!(storage.keys_count().unwrap(), 2);
    // overwriting does not grow the count
    storage.set(&k(b"a"), &k(b"3")).unwrap();
    assert_eq!(storage.keys_count().unwrap(), 2);
}

#[test]
fn test_flush() {
    let mut storage = MemoryStorage::new();
    storage.set(&k(b"a"), &k(b"1")).unwrap();
    storage.set(&k(b"b"), &k(b"2")).unwrap();
    storage.flush().unwrap();
    assert_eq!(storage.keys_count().unwrap(), 0);
    assert_eq!(storage.get(&k(b"a")).unwrap(), None);
    // flushing twice is the same as flushing once
    storage.flush().unwrap();
    assert_eq!(storage.keys_count().unwrap(), 0);
}

#[test]
fn test_overwrite_value() {
    let mut storage = MemoryStorage::new();
    storage.set(&k(b"a"), &k(b"1")).unwrap();
    storage.set(&k(b"a"), &k(b"2")).unwrap();
    assert_eq!(storage.get(&k(b"a")).unwrap(), Some(b"2".to_vec()));
}

#[test]
fn test_expiry() {
    let mut storage = MemoryStorage::new();
    let now: u64 = 42_000;
    storage.set_with_expiry_at(&k(b"t"), &k(b"v"), now, 1000).unwrap();
    assert_eq!(storage.get_at(&k(b"t"), now + 1000).unwrap(), Some(b"v".to_vec()));
    assert_eq!(storage.get_at(&k(b"t"), now + 1001).unwrap(), None);
}

#[test]
fn test_expired_key_cleanup_in_count() {
    let mut storage = MemoryStorage::new();
    let now: u64 = 42_000;
    storage.set_with_expiry_at(&k(b"t"), &k(b"v"), now, 10).unwrap();
    storage.set(&k(b"keep"), &k(b"v")).unwrap();
    assert_eq!(storage.keys_count().unwrap(), 2);
    // the sweep removes the expired record, and the count converges
    storage.cleanup_expired_at(now + 11);
    assert_eq!(storage.keys_count().unwrap(), 1);
    assert!(storage.exists_at(&k(b"keep"), now).unwrap());
}
