//! The engine over in-memory segments: reads, writes, removals, restarts
//! and compaction.

use kvs::backend::MemBackend;
use kvs::codec::{encode_command, Command};
use kvs::errors::KvsError;
use kvs::store::StoreCore;

fn fresh_store() -> StoreCore<MemBackend> {
    StoreCore::from_backend(MemBackend::new()).unwrap()
}

#[test]
fn get_of_never_set_key_is_none() {
    let mut store = fresh_store();
    assert_eq!(store.get(&String::from("a")).unwrap(), None);
}

#[test]
fn set_then_get_returns_value() {
    let mut store = fresh_store();
    store.set(String::from("a"), String::from("1")).unwrap();
    assert_eq!(store.get(&String::from("a")).unwrap(), Some(String::from("1")));
}

#[test]
fn overwrite_returns_latest_value() {
    let mut store = fresh_store();
    store.set(String::from("a"), String::from("1")).unwrap();
    store.set(String::from("a"), String::from("2")).unwrap();
    assert_eq!(store.get(&String::from("a")).unwrap(), Some(String::from("2")));
}

#[test]
fn remove_hides_key_and_second_remove_fails() {
    let mut store = fresh_store();
    store.set(String::from("a"), String::from("1")).unwrap();
    store.remove(String::from("a")).unwrap();
    assert_eq!(store.get(&String::from("a")).unwrap(), None);
    assert_eq!(store.remove(String::from("a")), Err(KvsError::KeyNotFound));
}

#[test]
fn remove_of_never_set_key_fails() {
    let mut store = fresh_store();
    assert_eq!(store.remove(String::from("a")), Err(KvsError::KeyNotFound));
}

#[test]
fn reopen_preserves_single_key() {
    let mut store = fresh_store();
    store.set(String::from("a"), String::from("1")).unwrap();
    assert_eq!(store.get(&String::from("a")).unwrap(), Some(String::from("1")));
    let backend = store.into_backend();
    let mut store = StoreCore::from_backend(backend).unwrap();
    assert_eq!(store.get(&String::from("a")).unwrap(), Some(String::from("1")));
}

#[test]
fn reopen_preserves_overwrites() {
    let mut store = fresh_store();
    store.set(String::from("a"), String::from("1")).unwrap();
    store.set(String::from("a"), String::from("2")).unwrap();
    assert_eq!(store.get(&String::from("a")).unwrap(), Some(String::from("2")));
    let backend = store.into_backend();
    let mut store = StoreCore::from_backend(backend).unwrap();
    assert_eq!(store.get(&String::from("a")).unwrap(), Some(String::from("2")));
}

#[test]
fn reopen_preserves_removals() {
    let mut store = fresh_store();
    store.set(String::from("a"), String::from("1")).unwrap();
    store.set(String::from("b"), String::from("2")).unwrap();
    store.remove(String::from("a")).unwrap();
    let backend = store.into_backend();
    let mut store = StoreCore::from_backend(backend).unwrap();
    assert_eq!(store.get(&String::from("a")).unwrap(), None);
    assert_eq!(store.get(&String::from("b")).unwrap(), Some(String::from("2")));
    assert_eq!(store.remove(String::from("a")), Err(KvsError::KeyNotFound));
}

#[test]
fn reopen_twice_preserves_everything() {
    let mut store = fresh_store();
    store.set(String::from("x"), String::from("10")).unwrap();
    let backend = store.into_backend();
    let mut store = StoreCore::from_backend(backend).unwrap();
    store.set(String::from("y"), String::from("20")).unwrap();
    let backend = store.into_backend();
    let mut store = StoreCore::from_backend(backend).unwrap();
    assert_eq!(store.get(&String::from("x")).unwrap(), Some(String::from("10")));
    assert_eq!(store.get(&String::from("y")).unwrap(), Some(String::from("20")));
}

#[test]
fn many_overwrites_trigger_compaction_and_drop_old_segments() {
    let mut store = fresh_store();
    let value: String = std::iter::repeat('x').take(1024).collect();
    let mut last = String::new();
    for i in 0..2000u32 {
        let v = format!("{}{}", value, i);
        store.set(String::from("k"), v.clone()).unwrap();
        last = v;
    }
    assert_eq!(store.get(&String::from("k")).unwrap(), Some(last));
    // compaction ran: only the compaction target and the active segment
    // remain, and nothing older than the target
    let ids = store.segment_ids();
    assert_eq!(ids.len(), 2);
    let active = store.active_segment();
    for id in &ids {
        assert!(*id >= active - 1);
    }
    // the dead bytes never pile past one threshold for long
    assert!(store.uncompacted() <= 1024 * 1024);
}

#[test]
fn compaction_preserves_live_keys() {
    let mut store = fresh_store();
    let filler: String = std::iter::repeat('y').take(4096).collect();
    for i in 0..40u32 {
        store.set(format!("key{}", i), format!("val{}", i)).unwrap();
    }
    // enough overwriting to cross the threshold
    for _ in 0..300u32 {
        store.set(String::from("churn"), filler.clone()).unwrap();
    }
    for i in 0..40u32 {
        assert_eq!(store.get(&format!("key{}", i)).unwrap(), Some(format!("val{}", i)));
    }
    // and everything survives a restart
    let backend = store.into_backend();
    let mut store = StoreCore::from_backend(backend).unwrap();
    for i in 0..40u32 {
        assert_eq!(store.get(&format!("key{}", i)).unwrap(), Some(format!("val{}", i)));
    }
}

#[test]
fn fresh_open_starts_at_segment_one() {
    let store = fresh_store();
    assert_eq!(store.active_segment(), 1);
    let ids = store.segment_ids();
    assert_eq!(ids.len(), 1);
    assert_eq!(ids[0], 1);
}

#[test]
fn overwrite_charges_exactly_the_shadowed_record() {
    let mut store = fresh_store();
    store.set(String::from("a"), String::from("first")).unwrap();
    assert_eq!(store.uncompacted(), 0);
    store.set(String::from("a"), String::from("second")).unwrap();
    let first = encode_command(&Command {
        key: String::from("a"),
        value: Some(String::from("first")),
    });
    assert_eq!(store.uncompacted(), first.len() as u64);
}

#[test]
fn remove_charges_the_record_and_the_tombstone() {
    let mut store = fresh_store();
    store.set(String::from("a"), String::from("1")).unwrap();
    store.remove(String::from("a")).unwrap();
    let put = encode_command(&Command {
        key: String::from("a"),
        value: Some(String::from("1")),
    });
    let tombstone = encode_command(&Command { key: String::from("a"), value: None });
    assert_eq!(store.uncompacted(), (put.len() + tombstone.len()) as u64);
}

#[test]
fn reopen_starts_a_fresh_segment_above_the_old_ones() {
    let mut store = fresh_store();
    store.set(String::from("a"), String::from("1")).unwrap();
    let backend = store.into_backend();
    let store = StoreCore::from_backend(backend).unwrap();
    assert_eq!(store.active_segment(), 2);
    assert_eq!(store.segment_ids(), vec![1u64, 2]);
}
