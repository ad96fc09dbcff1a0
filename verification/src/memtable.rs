//! The memtable: the in-memory sorted buffer absorbing recent writes.
//!
//! A memtable maps keys to a live value or a tombstone; keys are unique and
//! kept in byte-lexicographic order, so the flush path can hand the entries
//! to the SSTable writer as they stand. Its abstract content is the map
//! `kv_map` of its entry sequence. The tracked byte footprint is approximate
//! and serves only the flush-threshold decision.

use vstd::prelude::*;
use crate::entries::Entry;
use crate::entries::EntryValue;
use crate::entries::EntryV;
use crate::entries::sorted_by_key;
use crate::entries::kv_map;
use crate::entries::lemma_sorted_distinct;
use crate::entries::entries_get;
use crate::entries::sorted_upsert;

verus! {

/// The in-memory sorted write buffer.
pub struct MemTable {
    entries: Vec<Entry>,
    approx_size: usize,
}

impl View for MemTable {
    type V = Map<Seq<u8>, EntryV>;

    closed spec fn view(&self) -> Map<Seq<u8>, EntryV> {
        kv_map(self.entries@)
    }
}

/// `a + b`, capped at the largest representable size: the footprint
/// tracking saturates rather than overflowing.
pub open spec fn spec_sat_add(a: int, b: int) -> int {
    if a + b <= usize::MAX {
        a + b
    } else {
        usize::MAX as int
    }
}

/// `a + b`, capped at the largest representable size.
fn saturating_add(a: usize, b: usize) -> (r: usize)
    ensures
        r == spec_sat_add(a as int, b as int),
{
    if a > usize::MAX - b {
        usize::MAX
    } else {
        a + b
    }
}

impl MemTable {
    /// Keys are unique and sorted.
    pub closed spec fn wf(self) -> bool {
        sorted_by_key(self.entries@)
    }

    /// The approximate accumulated byte footprint.
    pub closed spec fn approx_bytes(self) -> usize {
        self.approx_size
    }

    /// Creates an empty memtable.
    pub fn new() -> (m: MemTable)
        ensures
            m.wf(),
            m@ == Map::<Seq<u8>, EntryV>::empty(),
            m.approx_bytes() == 0,
    {
        MemTable { entries: Vec::new(), approx_size: 0 }
    }

    /// Upserts a live value for `key`, overwriting any prior value or
    /// tombstone for the same key (last-write-wins within the table).
    pub fn insert(&mut self, key: Vec<u8>, value: Vec<u8>)
        requires
            old(self).wf(),
        ensures
            final(self).wf(),
            final(self)@ == old(self)@.insert(key@, EntryV::Value(value@)),
            final(self).approx_bytes() == spec_sat_add(
                old(self).approx_bytes() as int,
                spec_sat_add(key@.len() as int, value@.len() as int),
            ),
    {
        let added = saturating_add(key.len(), value.len());
        self.approx_size = saturating_add(self.approx_size, added);
        sorted_upsert(&mut self.entries, key, EntryValue::Value(value));
    }

    /// Marks `key` logically deleted, overwriting any prior entry.
    pub fn insert_tombstone(&mut self, key: Vec<u8>)
        requires
            old(self).wf(),
        ensures
            final(self).wf(),
            final(self)@ == old(self)@.insert(key@, EntryV::Tombstone),
            final(self).approx_bytes() == spec_sat_add(
                old(self).approx_bytes() as int,
                key@.len() as int,
            ),
    {
        self.approx_size = saturating_add(self.approx_size, key.len());
        sorted_upsert(&mut self.entries, key, EntryValue::Tombstone);
    }

    /// Looks `key` up: a live value, a tombstone, or absent (`None`).
    pub fn get(&self, key: &[u8]) -> (r: Option<&EntryValue>)
        requires
            self.wf(),
        ensures
            match r {
                Some(v) => self@.contains_key(key@) && v@ == self@[key@],
                None => !self@.contains_key(key@),
            },
    {
        proof {
            lemma_sorted_distinct(self.entries@);
        }
        entries_get(&self.entries, key)
    }

    /// The approximate byte footprint, for the flush-threshold comparison.
    pub fn size(&self) -> (r: usize)
        ensures
            r == self.approx_bytes(),
    {
        self.approx_size
    }

    /// Retires the table into its sorted snapshot: the entries in ascending
    /// key order, ready for the flush path.
    pub fn flush(self) -> (r: Vec<Entry>)
        requires
            self.wf(),
        ensures
            sorted_by_key(r@),
            kv_map(r@) == self@,
    {
        self.entries
    }
}

} // verus!
