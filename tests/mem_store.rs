use rkv::store::{MemStore, Store};
use rkv::Key;

#[test]
fn test_mem_store() {
    let mut store = MemStore::new();
    let version = store
        .put(Key("k".as_bytes().to_vec()), "v".as_bytes().to_vec())
        .unwrap();
    assert_eq!(version, 0);
    let (val, version) = store
        .get(&Key("k".as_bytes().to_vec()))
        .unwrap()
        .expect("missing value for key");
    assert_eq!((val, version), ("v".as_bytes().to_vec(), 0));
}

#[test]
fn mem_store_versions_and_delete() {
    let mut store = MemStore::new();
    let k = || Key(b"k".to_vec());
    assert_eq!(store.put(k(), b"a".to_vec()).unwrap(), 0);
    assert_eq!(store.put(k(), b"b".to_vec()).unwrap(), 1);
    assert_eq!(store.put_versioned(Key(b"j".to_vec()), b"x".to_vec(), 41).unwrap(), 41);
    assert_eq!(store.get(&k()).unwrap(), Some((b"b".to_vec(), 1)));
    assert_eq!(store.delete(&k()).unwrap(), Some((b"b".to_vec(), 1)));
    assert_eq!(store.get(&k()).unwrap(), None);
    assert_eq!(store.delete(&k()).unwrap(), None);
    assert_eq!(store.get(&Key(b"j".to_vec())).unwrap(), Some((b"x".to_vec(), 41)));
}
