//! The non-durable baseline engine: a sorted in-memory map and nothing else.
//!
//! It implements the same capability set as the LSM engine but persists
//! nothing, which makes it a drop-in test double. It stores its data in a
//! memtable; a delete records a tombstone, and the observable map is the
//! memtable's live part, so the behaviour seen through `get` matches the
//! durable engine's exactly.

use vstd::prelude::*;
use vstd::map::*;
use crate::entries::EntryValue;
use crate::entries::EntryV;
use crate::entries::live_part;
use crate::error::Error;
use crate::memtable::MemTable;
use crate::storage::KvEngine;

verus! {

/// The in-memory baseline store.
pub struct BTreeStore {
    table: MemTable,
}

impl BTreeStore {
    /// The observable key-to-value map: the live entries of the table.
    pub closed spec fn map_view(self) -> Map<Seq<u8>, Seq<u8>> {
        live_part(self.table@)
    }

    /// The underlying table is well-formed.
    pub closed spec fn wf(self) -> bool {
        self.table.wf()
    }

    /// Creates an empty store.
    pub fn new() -> (s: BTreeStore)
        ensures
            s.wf(),
            s.map_view() == Map::<Seq<u8>, Seq<u8>>::empty(),
    {
        let s = BTreeStore { table: MemTable::new() };
        proof {
            assert_maps_equal!(s.map_view(), Map::<Seq<u8>, Seq<u8>>::empty());
        }
        s
    }

    /// Inserts or updates a key-value pair.
    pub fn put(&mut self, key: &[u8], value: &[u8])
        requires
            old(self).wf(),
        ensures
            final(self).wf(),
            final(self).map_view() == old(self).map_view().insert(key@, value@),
    {
        let ghost m0 = self.table@;
        self.table.insert(vstd::slice::slice_to_vec(key), vstd::slice::slice_to_vec(value));
        proof {
            assert_maps_equal!(
                live_part(m0.insert(key@, EntryV::Value(value@))),
                live_part(m0).insert(key@, value@),
            );
        }
    }

    /// Gets a value by key.
    pub fn get(&self, key: &[u8]) -> (r: Option<&Vec<u8>>)
        requires
            self.wf(),
        ensures
            match r {
                Some(v) => self.map_view().contains_key(key@) && v@ == self.map_view()[key@],
                None => !self.map_view().contains_key(key@),
            },
    {
        match self.table.get(key) {
            Some(e) => match e {
                EntryValue::Value(v) => Some(v),
                EntryValue::Tombstone => None,
            },
            None => None,
        }
    }

    /// Deletes a key-value pair.
    pub fn delete(&mut self, key: &[u8])
        requires
            old(self).wf(),
        ensures
            final(self).wf(),
            final(self).map_view() == old(self).map_view().remove(key@),
    {
        let ghost m0 = self.table@;
        self.table.insert_tombstone(vstd::slice::slice_to_vec(key));
        proof {
            assert_maps_equal!(
                live_part(m0.insert(key@, EntryV::Tombstone)),
                live_part(m0).remove(key@),
            );
        }
    }
}

impl KvEngine for BTreeStore {
    closed spec fn kv_view(&self) -> Map<Seq<u8>, Seq<u8>> {
        self.map_view()
    }

    closed spec fn inv(&self) -> bool {
        self.wf()
    }

    fn new() -> (s: Self) {
        BTreeStore::new()
    }

    fn put(&mut self, key: &[u8], value: &[u8]) -> (r: Result<(), Error>) {
        self.put(key, value);
        Ok(())
    }

    fn get(&self, key: &[u8]) -> (r: Result<Option<Vec<u8>>, Error>) {
        match self.get(key) {
            Some(v) => Ok(Some(crate::entries::clone_key(v))),
            None => Ok(None),
        }
    }

    fn delete(&mut self, key: &[u8]) -> (r: Result<(), Error>) {
        self.delete(key);
        Ok(())
    }
}

} // verus!
