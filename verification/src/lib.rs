//! A log-structured-merge (LSM) key-value storage engine core.
//!
//! Writes are absorbed by an in-memory sorted buffer (the memtable) backed by
//! a durable append-only log (the WAL), and periodically flushed into
//! immutable sorted tables (SSTables) that background compaction later merges.
//! The modules here hold the verified logic: the WAL binary format and its
//! replay, the memtable, the SSTable representation and lookup, the compactor
//! merge, and the engine that composes them. File and directory handling
//! around this core is ordinary, unverified plumbing.

pub mod error;
pub mod order;
pub mod codec;
pub mod wal;
pub mod memtable;
pub mod sstable;
pub mod compactor;
pub mod engine;
pub mod storage;
pub mod btree;
pub mod entries;
