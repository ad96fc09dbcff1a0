//! Tests for the write-ahead log: append, replay, the size bound, and
//! corruption detection.

use lsm_store::error::Error;
use lsm_store::wal::{Wal, WalEntry, MAX_ENTRY_SIZE};

#[test]
fn test_wal() {
    // Append a few records using convenience methods.
    let mut wal = Wal::new();
    wal.append_put(b"key1", b"value1").unwrap();
    wal.append_put(b"key2", b"value2").unwrap();
    wal.append_delete(b"key1").unwrap();

    // Replay them.
    let entries = Wal::replay(wal.log_bytes()).unwrap();
    assert_eq!(entries.len(), 3);

    // Verify entries.
    match &entries[0] {
        WalEntry::Put { key, value } => {
            assert_eq!(key, b"key1");
            assert_eq!(value, b"value1");
        }
        _ => panic!("Expected Put entry"),
    }

    match &entries[1] {
        WalEntry::Put { key, value } => {
            assert_eq!(key, b"key2");
            assert_eq!(value, b"value2");
        }
        _ => panic!("Expected Put entry"),
    }

    match &entries[2] {
        WalEntry::Delete { key } => {
            assert_eq!(key, b"key1");
        }
        _ => panic!("Expected Delete entry"),
    }
}

#[test]
fn replay_empty_log_is_empty() {
    let wal = Wal::new();
    let entries = Wal::replay(wal.log_bytes()).unwrap();
    assert!(entries.is_empty());
}

#[test]
fn append_rejects_oversized_entry() {
    let mut wal = Wal::new();
    wal.append_put(b"k", b"v").unwrap();
    let before = wal.log_bytes().clone();

    // Tag + two length fields + key + value must stay within 1 MiB.
    let huge = vec![0u8; MAX_ENTRY_SIZE];
    let r = wal.append_put(b"k", &huge);
    assert_eq!(r, Err(Error::EntryTooLarge));
    // The log is left unmodified.
    assert_eq!(wal.log_bytes(), &before);

    // The largest accepted entry is exactly at the bound.
    let just_fits = vec![7u8; MAX_ENTRY_SIZE - 9 - 1];
    assert_eq!(wal.append_put(b"k", &just_fits), Ok(()));
}

#[test]
fn oversized_delete_rejected() {
    let mut wal = Wal::new();
    let huge = vec![1u8; MAX_ENTRY_SIZE];
    assert_eq!(wal.append_delete(&huge), Err(Error::EntryTooLarge));
    assert!(wal.log_bytes().is_empty());
}

#[test]
fn replay_truncated_record_is_corruption() {
    let mut wal = Wal::new();
    wal.append_put(b"alpha", b"beta").unwrap();
    let bytes = wal.log_bytes().clone();

    // A partial length prefix.
    let partial_prefix = bytes[..2].to_vec();
    assert!(matches!(Wal::replay(&partial_prefix), Err(Error::Corruption)));

    // A record body shorter than its declared length.
    let partial_body = bytes[..bytes.len() - 1].to_vec();
    assert!(matches!(Wal::replay(&partial_body), Err(Error::Corruption)));
}

#[test]
fn replay_unknown_tag_is_corruption() {
    let mut wal = Wal::new();
    wal.append_delete(b"x").unwrap();
    let mut bytes = wal.log_bytes().clone();
    // The tag byte follows the 4-byte length prefix; 2 is no known tag.
    bytes[4] = 2;
    assert!(matches!(Wal::replay(&bytes), Err(Error::Corruption)));
}

#[test]
fn replay_oversized_declared_length_is_corruption() {
    // Length prefix declares 2 MiB.
    let two_mib: u32 = 2 * 1024 * 1024;
    let mut bytes = two_mib.to_le_bytes().to_vec();
    bytes.extend_from_slice(&[0u8; 16]);
    assert!(matches!(Wal::replay(&bytes), Err(Error::Corruption)));
}

#[test]
fn replay_preserves_order_across_overwrites() {
    let mut wal = Wal::new();
    wal.append_put(b"k", b"v1").unwrap();
    wal.append_put(b"k", b"v2").unwrap();
    wal.append_delete(b"k").unwrap();
    wal.append_put(b"k", b"v3").unwrap();
    let entries = Wal::replay(wal.log_bytes()).unwrap();
    assert_eq!(entries.len(), 4);
    match &entries[3] {
        WalEntry::Put { key, value } => {
            assert_eq!(key, b"k");
            assert_eq!(value, b"v3");
        }
        _ => panic!("Expected Put entry"),
    }
}

#[test]
fn empty_key_and_value_round_trip() {
    let mut wal = Wal::new();
    wal.append_put(b"", b"").unwrap();
    wal.append_delete(b"").unwrap();
    let entries = Wal::replay(wal.log_bytes()).unwrap();
    assert_eq!(entries.len(), 2);
    match &entries[0] {
        WalEntry::Put { key, value } => {
            assert!(key.is_empty());
            assert!(value.is_empty());
        }
        _ => panic!("Expected Put entry"),
    }
}
