//! Tests for the individual components: memtable, SSTable, compactor merge,
//! the baseline store, and the shared capability trait.

use lsm_store::btree::BTreeStore;
use lsm_store::compactor::merge;
use lsm_store::engine::LsmStore;
use lsm_store::entries::EntryValue;
use lsm_store::memtable::MemTable;
use lsm_store::sstable::SSTable;
use lsm_store::storage::KvEngine;

fn value_of(e: &EntryValue) -> Option<Vec<u8>> {
    match e {
        EntryValue::Value(v) => Some(v.clone()),
        EntryValue::Tombstone => None,
    }
}

#[test]
fn memtable_insert_get() {
    let mut m = MemTable::new();
    assert!(m.get(b"a").is_none());
    m.insert(b"a".to_vec(), b"1".to_vec());
    assert_eq!(value_of(m.get(b"a").unwrap()), Some(b"1".to_vec()));
    // Last write wins within the table.
    m.insert(b"a".to_vec(), b"2".to_vec());
    assert_eq!(value_of(m.get(b"a").unwrap()), Some(b"2".to_vec()));
    // A tombstone overwrites the value but stays distinct from absence.
    m.insert_tombstone(b"a".to_vec());
    assert_eq!(value_of(m.get(b"a").unwrap()), None);
    assert!(m.get(b"b").is_none());
}

#[test]
fn memtable_size_grows() {
    let mut m = MemTable::new();
    assert_eq!(m.size(), 0);
    m.insert(b"abc".to_vec(), b"de".to_vec());
    assert!(m.size() >= 5);
}

#[test]
fn memtable_flush_is_sorted() {
    let mut m = MemTable::new();
    m.insert(b"pear".to_vec(), b"3".to_vec());
    m.insert(b"apple".to_vec(), b"1".to_vec());
    m.insert_tombstone(b"mango".to_vec());
    let snapshot = m.flush();
    let keys: Vec<&[u8]> = snapshot.iter().map(|e| e.0.as_slice()).collect();
    assert_eq!(keys, vec![b"apple".as_slice(), b"mango", b"pear"]);
}

#[test]
fn sstable_write_and_get() {
    let entries = vec![
        (b"a".to_vec(), EntryValue::Value(b"1".to_vec())),
        (b"m".to_vec(), EntryValue::Tombstone),
        (b"z".to_vec(), EntryValue::Value(b"26".to_vec())),
    ];
    let t = SSTable::write(0, 7, entries);
    assert_eq!(t.level(), 0);
    assert_eq!(t.generation(), 7);
    assert_eq!(t.entry_count(), 3);
    assert_eq!(value_of(t.get(b"a").unwrap()), Some(b"1".to_vec()));
    assert_eq!(value_of(t.get(b"m").unwrap()), None);
    assert_eq!(value_of(t.get(b"z").unwrap()), Some(b"26".to_vec()));
    // Pruned below min and above max, and a miss inside the range.
    assert!(t.get(b"0").is_none());
    assert!(t.get(b"zz").is_none());
    assert!(t.get(b"b").is_none());
}

#[test]
fn sstable_empty() {
    let t = SSTable::new(1, 0);
    assert_eq!(t.entry_count(), 0);
    assert!(t.get(b"anything").is_none());
}

#[test]
fn merge_newest_generation_wins() {
    let older = SSTable::write(
        0,
        1,
        vec![
            (b"a".to_vec(), EntryValue::Value(b"old".to_vec())),
            (b"b".to_vec(), EntryValue::Value(b"keep".to_vec())),
        ],
    );
    let newer = SSTable::write(
        0,
        2,
        vec![(b"a".to_vec(), EntryValue::Value(b"new".to_vec()))],
    );
    let merged = merge(&vec![older, newer], 1, 3, false);
    assert_eq!(merged.level(), 1);
    assert_eq!(merged.generation(), 3);
    assert_eq!(merged.entry_count(), 2);
    assert_eq!(value_of(merged.get(b"a").unwrap()), Some(b"new".to_vec()));
    assert_eq!(value_of(merged.get(b"b").unwrap()), Some(b"keep".to_vec()));
}

#[test]
fn merge_keeps_or_drops_tombstones() {
    let older = SSTable::write(
        0,
        1,
        vec![(b"a".to_vec(), EntryValue::Value(b"v".to_vec()))],
    );
    let newer = SSTable::write(0, 2, vec![(b"a".to_vec(), EntryValue::Tombstone)]);

    // Without the subsumption guarantee the tombstone must survive, so it
    // keeps shadowing older tables outside the pass.
    let kept = merge(&vec![older.clone(), newer.clone()], 1, 3, false);
    assert_eq!(kept.entry_count(), 1);
    assert_eq!(value_of(kept.get(b"a").unwrap()), None);

    // When the pass subsumes everything older, the tombstone is dropped.
    let dropped = merge(&vec![older, newer], 1, 3, true);
    assert_eq!(dropped.entry_count(), 0);
    assert!(dropped.get(b"a").is_none());
}

#[test]
fn btree_store_basics() {
    let mut s = BTreeStore::new();
    assert!(s.get(b"a").is_none());
    s.put(b"a", b"1");
    assert_eq!(s.get(b"a"), Some(&b"1".to_vec()));
    s.put(b"a", b"2");
    assert_eq!(s.get(b"a"), Some(&b"2".to_vec()));
    s.delete(b"a");
    assert!(s.get(b"a").is_none());
}

fn exercise_engine<E: KvEngine>() -> E {
    let mut s = E::new();
    s.put(b"k1", b"v1").unwrap();
    s.put(b"k2", b"v2").unwrap();
    s.delete(b"k1").unwrap();
    assert_eq!(s.get(b"k1").unwrap(), None);
    assert_eq!(s.get(b"k2").unwrap(), Some(b"v2".to_vec()));
    s
}

#[test]
fn capability_set_is_engine_agnostic() {
    exercise_engine::<BTreeStore>();
    exercise_engine::<LsmStore>();
}
