use rgit::codec::{CodecError, ObjectKind};
use rgit::error::{IoCause, StoreError};
use rgit::store::{open_object, ObjectStore};

fn ready() -> ObjectStore {
    let mut store = ObjectStore::new(".rgit".to_string());
    assert_eq!(store.initialize(), Ok(()));
    store
}

#[test]
fn new_store_has_no_root_and_no_entries() {
    let store = ObjectStore::new(".rgit".to_string());
    assert!(!store.initialized());
    assert_eq!(store.len(), 0);
    assert_eq!(store.reserved(), ".rgit");
    assert!(store.keys().is_empty());
}

#[test]
fn initialize_twice_is_already_initialized() {
    let mut store = ObjectStore::new(".rgit".to_string());
    assert_eq!(store.initialize(), Ok(()));
    assert!(store.initialized());
    assert_eq!(store.initialize(), Err(StoreError::AlreadyInitialized));
    assert!(store.initialized());
}

#[test]
fn put_without_root_is_an_io_failure() {
    let mut store = ObjectStore::new(".rgit".to_string());
    assert_eq!(
        store.put(ObjectKind::Blob, b"hi"),
        Err(StoreError::StorageIoError(IoCause::MissingRoot))
    );
    assert_eq!(
        store.put_encoded("abc".to_string(), b"blob\x00hi".to_vec()),
        Err(StoreError::StorageIoError(IoCause::MissingRoot))
    );
    assert_eq!(store.len(), 0);
}

#[test]
fn put_returns_the_identity_hash() {
    let mut store = ready();
    assert_eq!(
        store.put(ObjectKind::Blob, b"hi"),
        Ok("bc0265428e14b775a3c4eb58e2d965575e3e6d97".to_string())
    );
    assert_eq!(
        store.put(ObjectKind::Blob, b""),
        Ok("48ede76ef68a65b7292840b4ad4d1f111359d82a".to_string())
    );
}

#[test]
fn put_stores_the_encoded_bytes_under_the_hash() {
    let mut store = ready();
    let hash = store.put(ObjectKind::Blob, b"hi").unwrap();
    assert!(store.contains(&hash));
    assert_eq!(store.lookup(&hash), Some(&b"blob\x00hi".to_vec()));
    assert_eq!(store.keys(), vec![hash]);
}

#[test]
fn get_returns_the_content_without_the_tag() {
    let mut store = ready();
    let hash = store.put(ObjectKind::Blob, b"hi").unwrap();
    assert_eq!(store.get(&hash, None), Ok(b"hi".to_vec()));
    assert_eq!(store.get(&hash, Some(ObjectKind::Blob)), Ok(b"hi".to_vec()));
}

#[test]
fn put_twice_leaves_one_entry() {
    let mut store = ready();
    let first = store.put(ObjectKind::Blob, b"hi").unwrap();
    let after_first = store.get(&first, None);
    assert_eq!(store.len(), 1);
    let second = store.put(ObjectKind::Blob, b"hi").unwrap();
    assert_eq!(first, second);
    assert_eq!(store.len(), 1);
    assert_eq!(store.get(&second, None), after_first);
    assert_eq!(store.get(&second, None), Ok(b"hi".to_vec()));
}

#[test]
fn same_content_of_two_kinds_gives_two_entries() {
    let mut store = ready();
    let blob = store.put(ObjectKind::Blob, b"hi").unwrap();
    let tree = store.put(ObjectKind::Tree, b"hi").unwrap();
    assert_ne!(blob, tree);
    assert_eq!(store.len(), 2);
}

#[test]
fn get_with_another_kind_is_a_kind_mismatch() {
    let mut store = ready();
    let hash = store.put(ObjectKind::Blob, b"hi").unwrap();
    assert_eq!(
        store.get(&hash, Some(ObjectKind::Tree)),
        Err(StoreError::KindMismatch { expected: ObjectKind::Tree, actual: ObjectKind::Blob })
    );
    let tree = store.put(ObjectKind::Tree, b"").unwrap();
    assert_eq!(
        store.get(&tree, Some(ObjectKind::Blob)),
        Err(StoreError::KindMismatch { expected: ObjectKind::Blob, actual: ObjectKind::Tree })
    );
}

#[test]
fn get_of_a_hash_never_stored_is_not_found() {
    let mut store = ready();
    store.put(ObjectKind::Blob, b"hi").unwrap();
    let missing = "0000000000000000000000000000000000000000";
    assert_eq!(store.get(missing, None), Err(StoreError::ObjectNotFound));
    assert_eq!(store.get(missing, Some(ObjectKind::Blob)), Err(StoreError::ObjectNotFound));
    assert!(!store.contains(missing));
    assert_eq!(store.lookup(missing), None);
}

#[test]
fn get_from_a_store_without_root_is_not_found() {
    let store = ObjectStore::new(".rgit".to_string());
    let hash = "bc0265428e14b775a3c4eb58e2d965575e3e6d97";
    assert_eq!(store.get(hash, None), Err(StoreError::ObjectNotFound));
}

#[test]
fn get_of_bytes_without_separator_is_malformed() {
    let mut store = ready();
    assert_eq!(store.put_encoded("k1".to_string(), b"blob hi".to_vec()), Ok(()));
    assert_eq!(store.get("k1", None), Err(StoreError::MalformedObject));
}

#[test]
fn get_of_bytes_with_unknown_tag_is_unknown_kind() {
    let mut store = ready();
    assert_eq!(store.put_encoded("k2".to_string(), b"commit\x00hi".to_vec()), Ok(()));
    assert_eq!(store.get("k2", None), Err(StoreError::UnknownKind));
    assert_eq!(
        store.get("k2", Some(ObjectKind::Blob)),
        Err(StoreError::UnknownKind)
    );
}

#[test]
fn put_encoded_keeps_an_entry_that_exists() {
    let mut store = ready();
    assert_eq!(store.put_encoded("k".to_string(), b"blob\x00one".to_vec()), Ok(()));
    assert_eq!(store.put_encoded("k".to_string(), b"blob\x00two".to_vec()), Ok(()));
    assert_eq!(store.len(), 1);
    assert_eq!(store.get("k", None), Ok(b"one".to_vec()));
}

#[test]
fn open_object_checks_the_kind() {
    assert_eq!(open_object(b"tree\x00x", None), Ok(b"x".to_vec()));
    assert_eq!(open_object(b"tree\x00x", Some(ObjectKind::Tree)), Ok(b"x".to_vec()));
    assert_eq!(
        open_object(b"tree\x00x", Some(ObjectKind::Blob)),
        Err(StoreError::KindMismatch { expected: ObjectKind::Blob, actual: ObjectKind::Tree })
    );
    assert_eq!(open_object(b"tree", None), Err(StoreError::MalformedObject));
    assert_eq!(open_object(b"tag\x00x", None), Err(StoreError::UnknownKind));
}

#[test]
fn keys_lists_each_entry_once() {
    let mut store = ready();
    let a = store.put(ObjectKind::Blob, b"a").unwrap();
    let b = store.put(ObjectKind::Blob, b"b").unwrap();
    store.put(ObjectKind::Blob, b"a").unwrap();
    let mut keys = store.keys();
    keys.sort();
    let mut expected = vec![a, b];
    expected.sort();
    assert_eq!(keys, expected);
}

#[test]
fn from_codec_keeps_the_name_of_the_failure() {
    assert_eq!(StoreError::from_codec(CodecError::MalformedObject), StoreError::MalformedObject);
    assert_eq!(StoreError::from_codec(CodecError::UnknownKind), StoreError::UnknownKind);
}
