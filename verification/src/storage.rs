//! The capability set that callers program against.
//!
//! Every storage engine exposes the same four operations over an abstract
//! key-to-value map, so callers are agnostic to which engine is active: the
//! durable LSM engine or the non-durable in-memory baseline.

use vstd::prelude::*;
use crate::error::Error;
use crate::wal::MAX_ENTRY_SIZE;

verus! {

/// A key-value storage engine: an abstract map of byte keys to byte values,
/// mutated by `put` and `delete` and consulted by `get`.
pub trait KvEngine: Sized {
    /// The externally observable key-to-value map.
    spec fn kv_view(&self) -> Map<Seq<u8>, Seq<u8>>;

    /// The engine's internal invariant.
    spec fn inv(&self) -> bool;

    /// Creates an empty engine.
    fn new() -> (s: Self)
        ensures
            s.inv(),
            s.kv_view() == Map::<Seq<u8>, Seq<u8>>::empty(),
    ;

    /// Inserts or updates a key-value pair. Success is owed whenever the
    /// entry's encoded body fits the log's size bound.
    fn put(&mut self, key: &[u8], value: &[u8]) -> (r: Result<(), Error>)
        requires
            old(self).inv(),
        ensures
            final(self).inv(),
            9 + key@.len() + value@.len() <= MAX_ENTRY_SIZE ==> r is Ok,
            r is Ok ==> final(self).kv_view() == old(self).kv_view().insert(key@, value@),
            r is Err ==> final(self).kv_view() == old(self).kv_view(),
    ;

    /// Gets a value by key; absence is a normal `None`, not an error, and
    /// the engines here never fail a read.
    fn get(&self, key: &[u8]) -> (r: Result<Option<Vec<u8>>, Error>)
        requires
            self.inv(),
        ensures
            r is Ok,
            r matches Ok(o) ==> match o {
                Some(b) => self.kv_view().contains_key(key@) && b@ == self.kv_view()[key@],
                None => !self.kv_view().contains_key(key@),
            },
    ;

    /// Deletes a key-value pair; deleting an absent key is allowed. Success
    /// is owed whenever the tombstone's encoded body fits the log's size
    /// bound.
    fn delete(&mut self, key: &[u8]) -> (r: Result<(), Error>)
        requires
            old(self).inv(),
        ensures
            final(self).inv(),
            5 + key@.len() <= MAX_ENTRY_SIZE ==> r is Ok,
            r is Ok ==> final(self).kv_view() == old(self).kv_view().remove(key@),
            r is Err ==> final(self).kv_view() == old(self).kv_view(),
    ;
}

} // verus!
