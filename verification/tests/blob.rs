use object_log::{LocalBlobStore, MemoryBlobStore, ObjectLogError, concat_chunks, slice_range};

fn port_suite(store: &mut MemoryBlobStore) {
    assert!(store.get("topics/a/0").is_none());
    assert!(store.get_range("topics/a/0", 0..1).unwrap().is_none());

    store.put("topics/a/0", b"hello world".to_vec());
    assert_eq!(store.get("topics/a/0").unwrap(), b"hello world".to_vec());

    assert_eq!(store.get_range("topics/a/0", 6..11).unwrap().unwrap(), b"world".to_vec());
    let len = store.get("topics/a/0").unwrap().len() as u64;
    let empty = store.get_range("topics/a/0", len..len).unwrap().unwrap();
    assert_eq!(empty, Vec::<u8>::new());
    assert!(matches!(
        store.get_range("topics/a/0", 0..99),
        Err(ObjectLogError::RangeOutOfBounds(_))
    ));
    let (start, end) = (5u64, 2u64);
    assert!(matches!(
        store.get_range("topics/a/0", start..end),
        Err(ObjectLogError::RangeOutOfBounds(_))
    ));

    store.put("topics/a/1", b"x".to_vec());
    store.put("topics/b/0", b"y".to_vec());
    let mut a = store.list("topics/a/");
    a.sort();
    assert_eq!(a, vec!["topics/a/0".to_string(), "topics/a/1".to_string()]);
    assert!(store.list("topics/z/").is_empty());

    store.delete("topics/a/0");
    assert!(store.get("topics/a/0").is_none());
    store.delete("topics/a/0");
}

#[test]
fn memory_blob_store_conforms() {
    port_suite(&mut MemoryBlobStore::new());
}

#[test]
fn memory_blob_store_counts_objects_and_bytes() {
    let mut store = MemoryBlobStore::new();
    assert_eq!(store.object_count(), 0);
    assert_eq!(store.total_bytes(), 0);
    store.put("a", b"12345".to_vec());
    store.put("b", b"678".to_vec());
    store.put("a", b"12".to_vec());
    assert_eq!(store.object_count(), 2);
    assert_eq!(store.total_bytes(), 5);
}

#[test]
fn range_errors_carry_their_messages() {
    assert_eq!(
        slice_range(b"hello", 3..1),
        Err(ObjectLogError::RangeOutOfBounds("start 3 > end 1".to_string()))
    );
    assert_eq!(
        slice_range(b"hello", 0..6),
        Err(ObjectLogError::RangeOutOfBounds("end 6 > len 5".to_string()))
    );
    assert_eq!(slice_range(b"hello", 1..3), Ok(b"el".to_vec()));
    assert_eq!(slice_range(b"hello", 5..5), Ok(vec![]));
}

#[test]
fn chunks_concatenate_in_order() {
    assert_eq!(concat_chunks(vec![]), Vec::<u8>::new());
    assert_eq!(
        concat_chunks(vec![b"ab".to_vec(), vec![], b"c".to_vec()]),
        b"abc".to_vec()
    );
}

#[test]
fn local_blob_store_maps_keys_to_paths() {
    let store = LocalBlobStore::new("/data/log".to_string());
    assert_eq!(store.root_str(), "/data/log");
    assert_eq!(store.path_for("seg/000").unwrap(), "/data/log/seg/000");
    assert_eq!(
        store.path_for("seg/../x"),
        Err(ObjectLogError::InvalidObjectKey("seg/../x".to_string()))
    );
    assert_eq!(store.path_for(""), Err(ObjectLogError::InvalidObjectKey(String::new())));
}

#[test]
fn storage_doc_example() {
    let mut store = MemoryBlobStore::new();
    store.put("logs/0", b"hello world".to_vec());
    assert_eq!(store.get("logs/0").unwrap(), b"hello world".to_vec());
    assert_eq!(store.get_range("logs/0", 0..5).unwrap().unwrap(), b"hello".to_vec());
}
