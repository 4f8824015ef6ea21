use object_log::{
    MemoryObjectStore, ObjectKey, ObjectLogError, ObjectVersion, PutOutcome, content_version,
    decide_put_if_absent, select_listed_keys, sha256_hex, versions_agree,
};

fn conditional_write_suite(store: &mut MemoryObjectStore) {
    let key = ObjectKey::new("dir/obj".to_string()).unwrap();
    assert!(store.get(&key).is_none());

    assert_eq!(store.put_if_absent(&key, b"v1".to_vec()).unwrap(), PutOutcome::Created);
    assert_eq!(
        store.put_if_absent(&key, b"v1".to_vec()).unwrap(),
        PutOutcome::AlreadyExistsSame
    );
    assert_eq!(
        store.put_if_absent(&key, b"different".to_vec()).unwrap_err(),
        ObjectLogError::ObjectConflict
    );

    let current = store.get(&key).unwrap();
    assert_eq!(current.value, b"v1".to_vec());

    assert_eq!(
        store.compare_and_set(&key, None, b"x".to_vec()).unwrap_err(),
        ObjectLogError::Conflict
    );

    let updated = store
        .compare_and_set(&key, Some(current.version.clone()), b"v2".to_vec())
        .unwrap();
    assert_eq!(updated.value, b"v2".to_vec());
    assert_ne!(updated.version, current.version);

    assert_eq!(
        store
            .compare_and_set(&key, Some(current.version.clone()), b"v3".to_vec())
            .unwrap_err(),
        ObjectLogError::Conflict
    );

    assert!(store.list("dir/").unwrap().contains(&key));
    assert!(store.list("other/").unwrap().is_empty());

    store.delete(&key);
    assert!(store.get(&key).is_none());
    store.delete(&key);

    let created = store.compare_and_set(&key, None, b"fresh".to_vec()).unwrap();
    assert_eq!(created.value, b"fresh".to_vec());
}

#[test]
fn memory_store_conditional_writes() {
    conditional_write_suite(&mut MemoryObjectStore::new());
}

#[test]
fn memory_store_versions_count_writes() {
    let mut store = MemoryObjectStore::new();
    let key = ObjectKey::new("k".to_string()).unwrap();
    let first = store.compare_and_set(&key, None, b"a".to_vec()).unwrap();
    assert_eq!(first.version, ObjectVersion("1".to_string()));
    let second = store.compare_and_set(&key, Some(first.version), b"b".to_vec()).unwrap();
    assert_eq!(second.version, ObjectVersion("2".to_string()));
    assert_eq!(store.get(&key).unwrap().version, ObjectVersion("2".to_string()));
    // Each key counts its own writes.
    let other = ObjectKey::new("other".to_string()).unwrap();
    store.put_if_absent(&other, b"x".to_vec()).unwrap();
    assert_eq!(store.get(&other).unwrap().version, ObjectVersion("1".to_string()));
}

#[test]
fn versions_are_not_reused_after_a_delete() {
    let mut store = MemoryObjectStore::new();
    let key = ObjectKey::new("k".to_string()).unwrap();
    let v1 = store.compare_and_set(&key, None, b"a".to_vec()).unwrap().version;
    let v2 = store.compare_and_set(&key, Some(v1.clone()), b"b".to_vec()).unwrap().version;
    store.delete(&key);
    let v3 = store.compare_and_set(&key, None, b"c".to_vec()).unwrap().version;
    assert_ne!(v3, v1);
    assert_ne!(v3, v2);
    assert_eq!(v3, ObjectVersion("3".to_string()));
    assert_eq!(
        store.compare_and_set(&key, Some(v1), b"d".to_vec()).unwrap_err(),
        ObjectLogError::Conflict
    );
}

#[test]
fn memory_store_lists_in_key_order() {
    let mut store = MemoryObjectStore::new();
    for k in ["topics/a/segments/1", "topics/a/manifest", "topics/b/x", "topics/a/segments/0"] {
        let key = ObjectKey::new(k.to_string()).unwrap();
        store.put_if_absent(&key, b"x".to_vec()).unwrap();
    }
    let listed: Vec<String> = store
        .list("topics/a/")
        .unwrap()
        .iter()
        .map(|k| k.as_str().to_string())
        .collect();
    assert_eq!(
        listed,
        vec!["topics/a/manifest", "topics/a/segments/0", "topics/a/segments/1"]
    );
    assert!(store.capabilities().compare_and_set);
    assert!(store.capabilities().put_if_absent);
}

#[test]
fn content_version_is_the_sha256_hex() {
    let v = content_version(b"abc");
    assert_eq!(
        v.0,
        "ba7816bf8f01cfea414140de5dae2223b00361a396177a9cb410ff61f20015ad"
    );
    assert_eq!(sha256_hex(b""), "e3b0c44298fc1c149afbf4c8996fb92427ae41e4649b934ca495991b7852b855");
}

#[test]
fn versions_agree_compares_presence_and_text() {
    let a = Some(ObjectVersion("1".to_string()));
    let b = Some(ObjectVersion("2".to_string()));
    assert!(versions_agree(&None, &None));
    assert!(versions_agree(&a, &a.clone()));
    assert!(!versions_agree(&a, &b));
    assert!(!versions_agree(&a, &None));
    assert!(!versions_agree(&None, &b));
}

#[test]
fn put_if_absent_decision() {
    assert_eq!(decide_put_if_absent(&None, b"v"), Ok(PutOutcome::Created));
    assert_eq!(decide_put_if_absent(&Some(b"v".to_vec()), b"v"), Ok(PutOutcome::AlreadyExistsSame));
    assert_eq!(
        decide_put_if_absent(&Some(b"w".to_vec()), b"v"),
        Err(ObjectLogError::ObjectConflict)
    );
}

#[test]
fn listing_selects_prefix_and_sorts() {
    let files = vec![
        "topics/a/segments/1".to_string(),
        "other/x".to_string(),
        "topics/a/manifest".to_string(),
        "topics/a/segments/0".to_string(),
    ];
    let keys: Vec<String> = select_listed_keys(files, "topics/a/")
        .unwrap()
        .iter()
        .map(|k| k.as_str().to_string())
        .collect();
    assert_eq!(keys, vec!["topics/a/manifest", "topics/a/segments/0", "topics/a/segments/1"]);
    let bad = vec!["topics/a/../x".to_string()];
    assert_eq!(
        select_listed_keys(bad, "topics/"),
        Err(ObjectLogError::InvalidObjectKey("topics/a/../x".to_string()))
    );
}
