//! Tests for the LSM engine: the capability set, flush and compaction
//! transparency, durability, and the concrete write/replay scenario.

use lsm_store::engine::LsmStore;
use lsm_store::error::Error;
use lsm_store::wal::{Wal, WalEntry, MAX_ENTRY_SIZE};

#[test]
fn put_get_delete_basics() {
    let mut s = LsmStore::new();
    assert_eq!(s.get(b"missing").unwrap(), None);
    s.put(b"a", b"1").unwrap();
    assert_eq!(s.get(b"a").unwrap(), Some(b"1".to_vec()));
    s.delete(b"a").unwrap();
    assert_eq!(s.get(b"a").unwrap(), None);
    // Deleting an absent key is allowed.
    s.delete(b"never").unwrap();
    assert_eq!(s.get(b"never").unwrap(), None);
}

#[test]
fn last_write_wins() {
    let mut s = LsmStore::new();
    s.put(b"k", b"v1").unwrap();
    s.put(b"k", b"v2").unwrap();
    assert_eq!(s.get(b"k").unwrap(), Some(b"v2".to_vec()));
}

#[test]
fn tombstone_precedence_across_flush_and_compaction() {
    let mut s = LsmStore::new();
    s.put(b"k", b"v").unwrap();
    s.delete(b"k").unwrap();
    assert_eq!(s.get(b"k").unwrap(), None);
    s.flush();
    assert_eq!(s.get(b"k").unwrap(), None);
    s.compact();
    assert_eq!(s.get(b"k").unwrap(), None);
}

#[test]
fn flush_transparency() {
    let mut s = LsmStore::new();
    s.put(b"a", b"1").unwrap();
    s.put(b"b", b"2").unwrap();
    s.delete(b"a").unwrap();
    let before = (
        s.get(b"a").unwrap(),
        s.get(b"b").unwrap(),
        s.get(b"c").unwrap(),
    );
    s.flush();
    let after = (
        s.get(b"a").unwrap(),
        s.get(b"b").unwrap(),
        s.get(b"c").unwrap(),
    );
    assert_eq!(before, after);
    // Keys written after the flush land in the fresh memtable and are read
    // alongside the flushed table.
    s.put(b"c", b"3").unwrap();
    assert_eq!(s.get(b"b").unwrap(), Some(b"2".to_vec()));
    assert_eq!(s.get(b"c").unwrap(), Some(b"3".to_vec()));
}

#[test]
fn flush_triggered_by_threshold() {
    let mut s = LsmStore::new();
    s.set_flush_threshold(0);
    // Each mutation now exceeds the threshold and flushes.
    s.put(b"a", b"1").unwrap();
    s.put(b"b", b"2").unwrap();
    assert_eq!(s.tables().len(), 2);
    assert_eq!(s.get(b"a").unwrap(), Some(b"1".to_vec()));
    assert_eq!(s.get(b"b").unwrap(), Some(b"2".to_vec()));
    // The WAL was recycled by the flush.
    assert!(s.wal_bytes().is_empty());
}

#[test]
fn newest_generation_wins_across_tables() {
    let mut s = LsmStore::new();
    s.put(b"k", b"old").unwrap();
    s.flush();
    s.put(b"k", b"new").unwrap();
    s.flush();
    assert_eq!(s.tables().len(), 2);
    assert_eq!(s.get(b"k").unwrap(), Some(b"new".to_vec()));
}

#[test]
fn compaction_transparency() {
    let mut s = LsmStore::new();
    s.put(b"a", b"1").unwrap();
    s.flush();
    s.put(b"b", b"2").unwrap();
    s.put(b"a", b"3").unwrap();
    s.flush();
    s.delete(b"b").unwrap();
    s.flush();
    assert_eq!(s.tables().len(), 3);

    let before = (
        s.get(b"a").unwrap(),
        s.get(b"b").unwrap(),
        s.get(b"c").unwrap(),
    );
    s.compact();
    let after = (
        s.get(b"a").unwrap(),
        s.get(b"b").unwrap(),
        s.get(b"c").unwrap(),
    );
    assert_eq!(before, after);
    assert_eq!(after.0, Some(b"3".to_vec()));
    assert_eq!(after.1, None);

    // File count is reduced and the tombstone for b was physically removed:
    // the merged table holds exactly the one live key.
    assert_eq!(s.tables().len(), 1);
    assert_eq!(s.tables()[0].entry_count(), 1);
}

#[test]
fn compaction_triggered_by_file_count() {
    let mut s = LsmStore::new();
    s.set_flush_threshold(0);
    // Every put flushes one table; once the live set exceeds the trigger
    // count, the flush path runs a compaction and collapses it.
    s.put(b"a", b"1").unwrap();
    s.put(b"b", b"2").unwrap();
    s.put(b"c", b"3").unwrap();
    s.put(b"a", b"4").unwrap();
    assert_eq!(s.tables().len(), 4);
    s.delete(b"b").unwrap();
    assert_eq!(s.tables().len(), 1);
    assert_eq!(s.get(b"a").unwrap(), Some(b"4".to_vec()));
    assert_eq!(s.get(b"b").unwrap(), None);
    assert_eq!(s.get(b"c").unwrap(), Some(b"3".to_vec()));
    // The merged pass subsumed everything older, so the tombstone for b is
    // physically gone: only the two live keys remain.
    assert_eq!(s.tables()[0].entry_count(), 2);
}

#[test]
fn durability_round_trip() {
    let mut s = LsmStore::new();
    s.put(b"a", b"1").unwrap();
    s.put(b"b", b"2").unwrap();
    s.flush();
    s.put(b"c", b"3").unwrap();
    s.delete(b"a").unwrap();
    // No explicit close: rebuild from the persisted tables plus WAL replay.
    let tables = s.tables().clone();
    let recovered = LsmStore::recover(tables, s.wal_bytes()).unwrap();
    for key in [b"a".as_slice(), b"b", b"c", b"d"] {
        assert_eq!(recovered.get(key).unwrap(), s.get(key).unwrap());
    }
    assert_eq!(recovered.get(b"a").unwrap(), None);
    assert_eq!(recovered.get(b"b").unwrap(), Some(b"2".to_vec()));
    assert_eq!(recovered.get(b"c").unwrap(), Some(b"3".to_vec()));
}

#[test]
fn recover_rejects_corrupt_wal() {
    let mut wal = Wal::new();
    wal.append_put(b"a", b"1").unwrap();
    let mut bytes = wal.log_bytes().clone();
    bytes.pop();
    assert!(matches!(
        LsmStore::recover(Vec::new(), &bytes),
        Err(Error::Corruption)
    ));
}

#[test]
fn engine_rejects_oversized_entry() {
    let mut s = LsmStore::new();
    s.put(b"k", b"v").unwrap();
    let huge = vec![0u8; MAX_ENTRY_SIZE];
    assert_eq!(s.put(b"k", &huge), Err(Error::EntryTooLarge));
    // The store is left exactly as it was.
    assert_eq!(s.get(b"k").unwrap(), Some(b"v".to_vec()));
}

#[test]
fn concrete_scenario() {
    let mut s = LsmStore::new();
    s.put(b"key1", b"value1").unwrap();
    s.put(b"key2", b"value2").unwrap();
    s.delete(b"key1").unwrap();

    let entries = Wal::replay(s.wal_bytes()).unwrap();
    assert_eq!(entries.len(), 3);
    match &entries[0] {
        WalEntry::Put { key, value } => {
            assert_eq!(key, b"key1");
            assert_eq!(value, b"value1");
        }
        _ => panic!("Expected Put entry"),
    }
    match &entries[1] {
        WalEntry::Put { key, value } => {
            assert_eq!(key, b"key2");
            assert_eq!(value, b"value2");
        }
        _ => panic!("Expected Put entry"),
    }
    match &entries[2] {
        WalEntry::Delete { key } => {
            assert_eq!(key, b"key1");
        }
        _ => panic!("Expected Delete entry"),
    }

    assert_eq!(s.get(b"key1").unwrap(), None);
    assert_eq!(s.get(b"key2").unwrap(), Some(b"value2".to_vec()));
}
