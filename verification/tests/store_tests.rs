use dedup_core::errors::StoreError;
use dedup_core::store::{InMemoryStore, ListResponse, Store};

#[test]
fn store_write_read_roundtrip() {
    let mut store = InMemoryStore::new();
    let digest = vec![7u8; 32];
    store.write(1, &digest, b"payload".to_vec()).unwrap();
    let back = store.read(1, &digest).unwrap();
    assert_eq!(back, b"payload".to_vec());
}

#[test]
fn store_read_missing_is_not_found() {
    let mut store = InMemoryStore::new();
    let digest = vec![7u8; 32];
    assert!(matches!(store.read(1, &digest), Err(StoreError::NotFound)));
    store.write(2, &digest, b"x".to_vec()).unwrap();
    // Present under another generation only.
    assert!(matches!(store.read(1, &digest), Err(StoreError::NotFound)));
}

#[test]
fn store_overwrite_replaces() {
    let mut store = InMemoryStore::new();
    let digest = vec![1u8; 32];
    store.write(1, &digest, b"first".to_vec()).unwrap();
    store.write(1, &digest, b"second".to_vec()).unwrap();
    assert_eq!(store.read(1, &digest).unwrap(), b"second".to_vec());
}

#[test]
fn store_read_metadata_reports_length() {
    let mut store = InMemoryStore::new();
    let digest = vec![2u8; 32];
    store.write(3, &digest, b"12345".to_vec()).unwrap();
    let meta = store.read_metadata(3, &digest).unwrap();
    assert_eq!(meta.len, 5);
    assert!(meta.is_file);
    assert!(matches!(store.read_metadata(4, &digest), Err(StoreError::NotFound)));
}

#[test]
fn store_rename_moves_chunk() {
    let mut store = InMemoryStore::new();
    let digest = vec![3u8; 32];
    store.write(1, &digest, b"moving".to_vec()).unwrap();
    store.rename(1, 2, &digest).unwrap();
    assert_eq!(store.read(2, &digest).unwrap(), b"moving".to_vec());
    assert!(matches!(store.read(1, &digest), Err(StoreError::NotFound)));
}

#[test]
fn store_rename_missing_is_not_found() {
    let mut store = InMemoryStore::new();
    let digest = vec![4u8; 32];
    assert!(matches!(store.rename(1, 2, &digest), Err(StoreError::NotFound)));
}

#[test]
fn list_response_holds_paths() {
    let r = ListResponse { paths: vec!["1/aa".to_string(), "2/bb".to_string()] };
    assert_eq!(r.paths.len(), 2);
    assert_eq!(r, r.clone());
}
