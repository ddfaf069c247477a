//! The shared handle: clones operate on one store.

use kvs::backend::MemBackend;
use kvs::engine::KvsEngine;
use kvs::errors::KvsError;
use kvs::kvstore::KvStore;
use kvs::store::StoreCore;

fn fresh_handle() -> KvStore<MemBackend> {
    KvStore::from_core(StoreCore::from_backend(MemBackend::new()).unwrap())
}

#[test]
fn handle_reads_its_own_writes() {
    let handle = fresh_handle();
    handle.set(String::from("k"), String::from("v")).unwrap();
    assert_eq!(handle.get(String::from("k")).unwrap(), Some(String::from("v")));
}

#[test]
fn clones_share_one_store() {
    let first = fresh_handle();
    let second = first.clone();
    first.set(String::from("k"), String::from("from first")).unwrap();
    assert_eq!(second.get(String::from("k")).unwrap(), Some(String::from("from first")));
    second.remove(String::from("k")).unwrap();
    assert_eq!(first.get(String::from("k")).unwrap(), None);
    assert_eq!(first.remove(String::from("k")), Err(KvsError::KeyNotFound));
}
