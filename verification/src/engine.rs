//! The LSM engine: composes WAL, memtable, SSTables and compactor.
//!
//! Every mutation is appended to the WAL (durably) before it is applied to
//! the live memtable; when the memtable outgrows the flush threshold it is
//! retired into a fresh level-0 SSTable and the WAL is recycled. A read
//! consults the memtable first, then the SSTables in strictly descending
//! generation order; the first table that knows the key decides, and a
//! tombstone means "deleted", shadowing anything older. `recover` rebuilds
//! the memtable by replaying a WAL over the persisted tables, and
//! `lemma_durability_round_trip` shows that recovery reproduces exactly the
//! reads of the store whose state was persisted.

use vstd::prelude::*;
use vstd::map::*;
use crate::entries::EntryValue;
use crate::entries::EntryV;
use crate::entries::clone_key;
use crate::entries::without_tombstones;
use crate::error::Error;
use crate::memtable::MemTable;
use crate::memtable::spec_sat_add;
use crate::sstable::SSTable;
use crate::sstable::tables_lookup;
use crate::sstable::merged_kv;
use crate::sstable::lemma_merged_lookup;
use crate::compactor::merge;
use crate::wal::Wal;
use crate::wal::WalEntry;
use crate::wal::WalEntryV;
use crate::wal::MAX_ENTRY_SIZE;
use crate::wal::parse_log;
use crate::wal::all_fit;
use crate::wal::entry_fits;
use crate::wal::body_size;
use crate::wal::parse_body;
use crate::wal::lemma_parse_encode_log;

verus! {

/// Default memtable byte footprint above which a put or delete flushes.
pub const DEFAULT_FLUSH_THRESHOLD: usize = 4194304;

/// Live-table count above which a flush also triggers a compaction pass.
pub const COMPACTION_TRIGGER: usize = 4;

/// One WAL entry applied to a memtable's content: a put binds a live value,
/// a delete binds a tombstone; either overwrites what was there.
pub open spec fn apply_one(m: Map<Seq<u8>, EntryV>, e: WalEntryV) -> Map<Seq<u8>, EntryV> {
    match e {
        WalEntryV::Put { key, value } => m.insert(key, EntryV::Value(value)),
        WalEntryV::Delete { key } => m.insert(key, EntryV::Tombstone),
    }
}

/// The memtable content that replaying a WAL from scratch produces.
pub open spec fn apply_log(es: Seq<WalEntryV>) -> Map<Seq<u8>, EntryV>
    decreases es.len(),
{
    if es.len() == 0 {
        Map::empty()
    } else {
        apply_one(apply_log(es.drop_last()), es.last())
    }
}

/// The read path over a memtable content and a table sequence: the memtable
/// decides if it knows the key; otherwise the tables are consulted newest
/// first. A tombstone anywhere along the way means the key is absent.
pub open spec fn mem_tables_lookup(
    m: Map<Seq<u8>, EntryV>,
    ts: Seq<SSTable>,
    k: Seq<u8>,
) -> Option<Seq<u8>> {
    if m.contains_key(k) {
        match m[k] {
            EntryV::Value(v) => Some(v),
            EntryV::Tombstone => None,
        }
    } else {
        match tables_lookup(ts, k) {
            Some(EntryV::Value(v)) => Some(v),
            Some(EntryV::Tombstone) => None,
            None => None,
        }
    }
}

/// What a successful `put` of `key := value` does to the reads of a store:
/// the key now reads the value, and nothing else changed.
pub open spec fn put_step(pre: LsmStore, post: LsmStore, key: Seq<u8>, value: Seq<u8>) -> bool {
    &&& post.lookup(key) == Some(value)
    &&& forall|k: Seq<u8>| k != key ==> #[trigger] post.lookup(k) == pre.lookup(k)
}

/// What a successful `delete` of `key` does to the reads of a store: the key
/// now reads as absent, and nothing else changed.
pub open spec fn delete_step(pre: LsmStore, post: LsmStore, key: Seq<u8>) -> bool {
    &&& post.lookup(key) is None
    &&& forall|k: Seq<u8>| k != key ==> #[trigger] post.lookup(k) == pre.lookup(k)
}

/// No read changes between the two states.
pub open spec fn reads_preserved(pre: LsmStore, post: LsmStore) -> bool {
    forall|k: Seq<u8>| #[trigger] post.lookup(k) == pre.lookup(k)
}

/// The durable LSM store.
pub struct LsmStore {
    memtable: MemTable,
    wal: Wal,
    sstables: Vec<SSTable>,
    next_generation: u64,
    flush_threshold: usize,
}

impl LsmStore {
    /// The internal invariant: every part well-formed, the live tables in
    /// strictly ascending generation order below the generation counter, and
    /// the WAL replaying to exactly the live memtable.
    pub closed spec fn wf(self) -> bool {
        &&& self.memtable.wf()
        &&& self.wal.wf()
        &&& forall|i: int| 0 <= i < self.sstables@.len() ==> (#[trigger] self.sstables@[i]).wf()
        &&& forall|i: int, j: int|
            0 <= i < j < self.sstables@.len() ==> (#[trigger] self.sstables@[i]).spec_generation()
                < (#[trigger] self.sstables@[j]).spec_generation()
        &&& forall|i: int|
            0 <= i < self.sstables@.len() ==> (#[trigger] self.sstables@[i]).spec_generation()
                < self.next_generation
        &&& apply_log(self.wal@) == self.memtable@
    }

    /// What reading `k` returns: the memtable first, then the tables newest
    /// first.
    pub closed spec fn lookup(self, k: Seq<u8>) -> Option<Seq<u8>> {
        mem_tables_lookup(self.memtable@, self.sstables@, k)
    }

    /// The bytes of the backing WAL.
    pub closed spec fn spec_wal_bytes(self) -> Seq<u8> {
        self.wal.bytes()
    }

    /// The entries accepted into the backing WAL since it was last recycled.
    pub closed spec fn wal_entries(self) -> Seq<WalEntryV> {
        self.wal@
    }

    /// The live tables, in ascending generation order.
    pub closed spec fn live_tables_seq(self) -> Seq<SSTable> {
        self.sstables@
    }

    /// Whether a fresh generation id can still be assigned.
    pub closed spec fn can_assign_generation(self) -> bool {
        self.next_generation < u64::MAX
    }

    /// The memtable byte footprint above which a mutation flushes.
    pub closed spec fn spec_flush_threshold(self) -> usize {
        self.flush_threshold
    }

    /// The live memtable's approximate byte footprint.
    pub closed spec fn mem_bytes(self) -> usize {
        self.memtable.approx_bytes()
    }

    /// Creates an empty store.
    pub fn new() -> (s: LsmStore)
        ensures
            s.wf(),
            forall|k: Seq<u8>| #[trigger] s.lookup(k) is None,
            s.wal_entries() == Seq::<WalEntryV>::empty(),
            s.live_tables_seq() == Seq::<SSTable>::empty(),
            s.spec_flush_threshold() == DEFAULT_FLUSH_THRESHOLD,
    {
        let s = LsmStore {
            memtable: MemTable::new(),
            wal: Wal::new(),
            sstables: Vec::new(),
            next_generation: 0,
            flush_threshold: DEFAULT_FLUSH_THRESHOLD,
        };
        proof {
            assert(apply_log(s.wal@) =~= s.memtable@);
        }
        s
    }

    /// Lowers or raises the flush threshold; reads are untouched.
    pub fn set_flush_threshold(&mut self, threshold: usize)
        requires
            old(self).wf(),
        ensures
            final(self).wf(),
            reads_preserved(*old(self), *final(self)),
            final(self).wal_entries() == old(self).wal_entries(),
            final(self).live_tables_seq() == old(self).live_tables_seq(),
            final(self).spec_flush_threshold() == threshold,
    {
        self.flush_threshold = threshold;
    }

    /// Retires the live memtable into a fresh level-0 SSTable and recycles
    /// the WAL. Reads are unchanged: the new table holds exactly what the
    /// memtable held, at the highest generation. That content is `apply_log`
    /// of the WAL entries, by the store invariant. Only when the generation
    /// counter is exhausted does the flush do nothing.
    pub fn flush(&mut self)
        requires
            old(self).wf(),
        ensures
            final(self).wf(),
            reads_preserved(*old(self), *final(self)),
            final(self).spec_flush_threshold() == old(self).spec_flush_threshold(),
            old(self).can_assign_generation() ==> final(self).wal_entries()
                == Seq::<WalEntryV>::empty() && final(self).live_tables_seq().len() == old(
                self,
            ).live_tables_seq().len() + 1 && final(self).live_tables_seq().drop_last() == old(
                self,
            ).live_tables_seq() && final(self).live_tables_seq().last()@ == apply_log(
                old(self).wal_entries(),
            ) && final(self).live_tables_seq().last().spec_level() == 0,
            !old(self).can_assign_generation() ==> *final(self) == *old(self),
    {
        if self.next_generation == u64::MAX {
            // Generation ids exhausted: leave the memtable in place.
            return ;
        }
        let ghost pre = *self;
        let mut retired = MemTable::new();
        core::mem::swap(&mut self.memtable, &mut retired);
        let entries = retired.flush();
        let generation = self.next_generation;
        self.next_generation = generation + 1;
        let table = SSTable::write(0, generation, entries);
        self.sstables.push(table);
        self.wal.reset();
        proof {
            assert(apply_log(self.wal@) =~= self.memtable@);
            assert forall|i: int, j: int|
                0 <= i < j < self.sstables@.len() implies (
            #[trigger] self.sstables@[i]).spec_generation() < (
            #[trigger] self.sstables@[j]).spec_generation() by {
                if j < self.sstables@.len() - 1 {
                    assert(self.sstables@[i] == pre.sstables@[i]);
                    assert(self.sstables@[j] == pre.sstables@[j]);
                } else {
                    assert(self.sstables@[i] == pre.sstables@[i]);
                    assert(self.sstables@[j].spec_generation() == generation);
                }
            }
            assert forall|k: Seq<u8>| #[trigger] self.lookup(k) == pre.lookup(k) by {
                assert(self.sstables@.drop_last() =~= pre.sstables@);
                assert(self.sstables@.last() == table);
                if pre.memtable@.contains_key(k) {
                    assert(table@ == pre.memtable@);
                } else {
                    assert(!table@.contains_key(k));
                }
            }
        }
    }

    /// Inserts or updates `key := value`.
    ///
    /// The mutation is appended durably to the WAL before the memtable is
    /// touched; when the memtable's footprint then exceeds the flush
    /// threshold, a flush retires it into a new highest-generation level-0
    /// table and recycles the WAL (see `flush`), after which a compaction
    /// check runs; neither changes reads. An entry whose encoded body
    /// exceeds `MAX_ENTRY_SIZE` is rejected with `EntryTooLarge` and the
    /// store is left exactly as it was.
    pub fn put(&mut self, key: &[u8], value: &[u8]) -> (r: Result<(), Error>)
        requires
            old(self).wf(),
        ensures
            final(self).wf(),
            9 + key@.len() + value@.len() <= MAX_ENTRY_SIZE ==> r == Ok::<(), Error>(())
                && put_step(*old(self), *final(self), key@, value@),
            9 + key@.len() + value@.len() > MAX_ENTRY_SIZE ==> r == Err::<(), Error>(
                Error::EntryTooLarge,
            ) && *final(self) == *old(self),
            r is Ok && old(self).can_assign_generation() && spec_sat_add(
                old(self).mem_bytes() as int,
                spec_sat_add(key@.len() as int, value@.len() as int),
            ) > old(self).spec_flush_threshold() ==> final(self).wal_entries()
                == Seq::<WalEntryV>::empty(),
            final(self).spec_flush_threshold() == old(self).spec_flush_threshold(),
    {
        let ghost pre = *self;
        match self.wal.append_put(key, value) {
            Ok(_) => {},
            Err(e) => {
                return Err(e);
            },
        }
        self.memtable.insert(clone_slice(key), clone_slice(value));
        proof {
            assert(self.wal@.drop_last() =~= pre.wal@);
            assert(self.wal@.last() == (WalEntryV::Put { key: key@, value: value@ }));
            assert(apply_log(self.wal@) == self.memtable@);
        }
        let ghost mid = *self;
        proof {
            assert(put_step(pre, mid, key@, value@));
        }
        if self.memtable.size() > self.flush_threshold {
            self.flush();
            let ghost flushed = *self;
            proof {
                assert forall|k: Seq<u8>| k != key@ implies #[trigger] flushed.lookup(k)
                    == pre.lookup(k) by {
                    assert(flushed.lookup(k) == mid.lookup(k));
                }
                assert(flushed.lookup(key@) == mid.lookup(key@));
            }
            if self.sstables.len() > COMPACTION_TRIGGER {
                self.compact();
            }
            proof {
                assert forall|k: Seq<u8>| k != key@ implies #[trigger] self.lookup(k)
                    == pre.lookup(k) by {
                    assert(self.lookup(k) == flushed.lookup(k));
                }
                assert(self.lookup(key@) == flushed.lookup(key@));
            }
        }
        Ok(())
    }

    /// Marks `key` deleted.
    ///
    /// The tombstone is appended durably to the WAL before the memtable is
    /// touched; a threshold-crossing delete flushes and then runs the
    /// compaction check, exactly as `put` does. An oversized key is rejected
    /// with `EntryTooLarge` and the store is left exactly as it was.
    pub fn delete(&mut self, key: &[u8]) -> (r: Result<(), Error>)
        requires
            old(self).wf(),
        ensures
            final(self).wf(),
            5 + key@.len() <= MAX_ENTRY_SIZE ==> r == Ok::<(), Error>(()) && delete_step(
                *old(self),
                *final(self),
                key@,
            ),
            5 + key@.len() > MAX_ENTRY_SIZE ==> r == Err::<(), Error>(Error::EntryTooLarge)
                && *final(self) == *old(self),
            r is Ok && old(self).can_assign_generation() && spec_sat_add(
                old(self).mem_bytes() as int,
                key@.len() as int,
            ) > old(self).spec_flush_threshold() ==> final(self).wal_entries()
                == Seq::<WalEntryV>::empty(),
            final(self).spec_flush_threshold() == old(self).spec_flush_threshold(),
    {
        let ghost pre = *self;
        match self.wal.append_delete(key) {
            Ok(_) => {},
            Err(e) => {
                return Err(e);
            },
        }
        self.memtable.insert_tombstone(clone_slice(key));
        proof {
            assert(self.wal@.drop_last() =~= pre.wal@);
            assert(self.wal@.last() == (WalEntryV::Delete { key: key@ }));
            assert(apply_log(self.wal@) == self.memtable@);
        }
        let ghost mid = *self;
        proof {
            assert(delete_step(pre, mid, key@));
        }
        if self.memtable.size() > self.flush_threshold {
            self.flush();
            let ghost flushed = *self;
            proof {
                assert forall|k: Seq<u8>| k != key@ implies #[trigger] flushed.lookup(k)
                    == pre.lookup(k) by {
                    assert(flushed.lookup(k) == mid.lookup(k));
                }
                assert(flushed.lookup(key@) == mid.lookup(key@));
            }
            if self.sstables.len() > COMPACTION_TRIGGER {
                self.compact();
            }
            proof {
                assert forall|k: Seq<u8>| k != key@ implies #[trigger] self.lookup(k)
                    == pre.lookup(k) by {
                    assert(self.lookup(k) == flushed.lookup(k));
                }
                assert(self.lookup(key@) == flushed.lookup(key@));
            }
        }
        Ok(())
    }

    /// Reads `key`: the memtable first, then the tables in strictly
    /// descending generation order; the first definitive answer (value or
    /// tombstone) decides, and exhausting everything means absent.
    pub fn get(&self, key: &[u8]) -> (r: Result<Option<Vec<u8>>, Error>)
        requires
            self.wf(),
        ensures
            r is Ok,
            match r {
                Ok(o) => match o {
                    Some(b) => self.lookup(key@) == Some(b@),
                    None => self.lookup(key@) is None,
                },
                Err(_) => false,
            },
    {
        match self.memtable.get(key) {
            Some(e) => {
                match e {
                    EntryValue::Value(v) => {
                        return Ok(Some(clone_key(v)));
                    },
                    EntryValue::Tombstone => {
                        return Ok(None);
                    },
                }
            },
            None => {},
        }
        let n: usize = self.sstables.len();
        let mut idx: usize = n;
        proof {
            assert(self.sstables@.subrange(0, n as int) =~= self.sstables@);
        }
        while idx > 0
            invariant
                0 <= idx <= n,
                n == self.sstables@.len(),
                self.wf(),
                !self.memtable@.contains_key(key@),
                tables_lookup(self.sstables@, key@) == tables_lookup(
                    self.sstables@.subrange(0, idx as int),
                    key@,
                ),
            decreases idx,
        {
            idx = idx - 1;
            let ghost sub = self.sstables@.subrange(0, idx as int + 1);
            proof {
                assert(sub.drop_last() =~= self.sstables@.subrange(0, idx as int));
                assert(sub.last() == self.sstables@[idx as int]);
            }
            match self.sstables[idx].get(key) {
                Some(e) => {
                    match e {
                        EntryValue::Value(v) => {
                            return Ok(Some(clone_key(v)));
                        },
                        EntryValue::Tombstone => {
                            return Ok(None);
                        },
                    }
                },
                None => {},
            }
        }
        proof {
            assert(self.sstables@.subrange(0, 0) =~= Seq::<SSTable>::empty());
        }
        Ok(None)
    }

    /// Merges all live tables into a single table at the next level.
    ///
    /// Reads are unchanged. Because the pass subsumes every older table,
    /// surviving tombstones shadow nothing and are physically removed: the
    /// merged table holds live values only. Aborting before the new live set
    /// is installed would leave the old tables as the valid state.
    pub fn compact(&mut self)
        requires
            old(self).wf(),
        ensures
            final(self).wf(),
            reads_preserved(*old(self), *final(self)),
            final(self).wal_entries() == old(self).wal_entries(),
            final(self).spec_flush_threshold() == old(self).spec_flush_threshold(),
            old(self).can_assign_generation() ==> final(self).live_tables_seq().len() <= 1
                && forall|k: Seq<u8>|
                #[trigger] tables_lookup(final(self).live_tables_seq(), k) matches Some(e) ==> e
                    is Value,
    {
        let ghost pre = *self;
        if self.sstables.len() == 0 {
            return ;
        }
        if self.next_generation == u64::MAX {
            return ;
        }
        let generation = self.next_generation;
        self.next_generation = generation + 1;
        let mut max_level: u8 = 0;
        let mut i: usize = 0;
        let n: usize = self.sstables.len();
        while i < n
            invariant
                0 <= i <= n,
                n == self.sstables@.len(),
            decreases n - i,
        {
            let l = self.sstables[i].level();
            if l > max_level {
                max_level = l;
            }
            i = i + 1;
        }
        let out_level: u8 = if max_level == 255 {
            255
        } else {
            max_level + 1
        };
        let merged = merge(&self.sstables, out_level, generation, true);
        self.sstables.clear();
        self.sstables.push(merged);
        proof {
            let ts = self.sstables@;
            assert(ts.len() == 1);
            assert(ts.last() == merged);
            assert(ts.drop_last() =~= Seq::<SSTable>::empty());
            assert(merged@ == without_tombstones(merged_kv(pre.sstables@)));
            let ghost m = merged_kv(pre.sstables@);
            assert forall|k: Seq<u8>| #[trigger] self.lookup(k) == pre.lookup(k) by {
                lemma_merged_lookup(pre.sstables@, k);
                if m.contains_key(k) && m[k] is Value {
                    assert(without_tombstones(m).contains_key(k));
                    assert(without_tombstones(m)[k] == m[k]);
                    assert(tables_lookup(ts, k) == Some(m[k]));
                } else {
                    assert(!without_tombstones(m).contains_key(k));
                    assert(!ts.last()@.contains_key(k));
                    assert(tables_lookup(ts, k) == tables_lookup(Seq::<SSTable>::empty(), k));
                }
            }
            assert forall|k: Seq<u8>| (#[trigger] tables_lookup(ts, k)) is Some implies (
            tables_lookup(ts, k) matches Some(e) && e is Value) by {
                if m.contains_key(k) && m[k] is Value {
                    assert(without_tombstones(m).contains_key(k));
                    assert(without_tombstones(m)[k] == m[k]);
                    assert(tables_lookup(ts, k) == Some(m[k]));
                } else {
                    assert(!without_tombstones(m).contains_key(k));
                    assert(!ts.last()@.contains_key(k));
                    assert(tables_lookup(ts, k) == tables_lookup(Seq::<SSTable>::empty(), k));
                    assert(tables_lookup(Seq::<SSTable>::empty(), k) is None);
                }
            }
            assert(forall|k: Seq<u8>|
                #[trigger] tables_lookup(ts, k) matches Some(e) ==> e is Value);
            assert(apply_log(self.wal@) == self.memtable@);
        }
    }

    /// The live tables, ascending by generation; newest last.
    pub fn tables(&self) -> (r: &Vec<SSTable>)
        ensures
            r@ == self.live_tables_seq(),
    {
        &self.sstables
    }

    /// The bytes of the backing WAL, for the plumbing that persists them.
    pub fn wal_bytes(&self) -> (r: &Vec<u8>)
        ensures
            r@ == self.spec_wal_bytes(),
    {
        self.wal.log_bytes()
    }

    /// Rebuilds a store from persisted tables and a WAL's bytes: the tables
    /// are adopted as the live set and the WAL is replayed, in original
    /// order, into a fresh memtable. Replay is idempotent in the
    /// last-write-wins sense: reapplying a put followed by a delete of the
    /// same key converges to the delete. A corrupt WAL is fatal: no entry is
    /// silently skipped.
    pub fn recover(sstables: Vec<SSTable>, wal_bytes: &Vec<u8>) -> (r: Result<LsmStore, Error>)
        requires
            forall|i: int| 0 <= i < sstables@.len() ==> (#[trigger] sstables@[i]).wf(),
            forall|i: int, j: int|
                0 <= i < j < sstables@.len() ==> (#[trigger] sstables@[i]).spec_generation() < (
                #[trigger] sstables@[j]).spec_generation(),
            sstables@.len() > 0 ==> sstables@[sstables@.len() - 1].spec_generation() < u64::MAX,
        ensures
            match r {
                Ok(s) => {
                    &&& s.wf()
                    &&& parse_log(wal_bytes@) matches Some(es) && forall|k: Seq<u8>|
                        #[trigger] s.lookup(k) == mem_tables_lookup(apply_log(es), sstables@, k)
                },
                Err(e) => parse_log(wal_bytes@) is None && e == Error::Corruption,
            },
    {
        let replayed = match Wal::replay(wal_bytes) {
            Ok(es) => es,
            Err(e) => {
                return Err(e);
            },
        };
        let ghost es = crate::wal::wal_view(replayed@);
        proof {
            lemma_parse_log_fits(wal_bytes@);
        }
        let mut memtable = MemTable::new();
        let mut wal = Wal::new();
        let n: usize = replayed.len();
        let mut i: usize = 0;
        proof {
            assert(es.subrange(0, 0) =~= Seq::<WalEntryV>::empty());
            assert(wal@ =~= es.subrange(0, 0));
            assert(apply_log(es.subrange(0, 0)) =~= memtable@);
        }
        while i < n
            invariant
                0 <= i <= n,
                n == replayed@.len(),
                es == crate::wal::wal_view(replayed@),
                all_fit(es),
                memtable.wf(),
                wal.wf(),
                wal@ == es.subrange(0, i as int),
                memtable@ == apply_log(es.subrange(0, i as int)),
            decreases n - i,
        {
            let entry = &replayed[i];
            proof {
                assert(es[i as int] == replayed@[i as int]@);
                assert(entry_fits(es[i as int]));
            }
            match wal.append(entry) {
                Ok(_) => {},
                Err(_) => {
                    return Err(Error::Corruption);
                },
            }
            match entry {
                WalEntry::Put { key, value } => {
                    memtable.insert(clone_key(key), clone_key(value));
                },
                WalEntry::Delete { key } => {
                    memtable.insert_tombstone(clone_key(key));
                },
            }
            proof {
                assert(es.subrange(0, i as int + 1).drop_last() =~= es.subrange(0, i as int));
                assert(es.subrange(0, i as int + 1).last() == es[i as int]);
                assert(wal@ =~= es.subrange(0, i as int + 1));
            }
            i = i + 1;
        }
        proof {
            assert(es.subrange(0, n as int) =~= es);
        }
        let next_generation: u64 = if sstables.len() == 0 {
            0
        } else {
            last_generation(&sstables) + 1
        };
        let s = LsmStore {
            memtable,
            wal,
            sstables,
            next_generation,
            flush_threshold: DEFAULT_FLUSH_THRESHOLD,
        };
        proof {
            assert forall|i2: int|
                0 <= i2 < s.sstables@.len() implies (#[trigger] s.sstables@[i2]).spec_generation()
                < s.next_generation by {
                if i2 < s.sstables@.len() - 1 {
                    assert(s.sstables@[i2].spec_generation() < s.sstables@[s.sstables@.len()
                        - 1].spec_generation());
                }
            }
        }
        Ok(s)
    }

    /// After a restart, recovery reproduces exactly this store's reads: its
    /// WAL bytes parse back to its accepted entries, and replaying them over
    /// its live tables looks up to the same result for every key.
    pub proof fn lemma_durability_round_trip(self)
        requires
            self.wf(),
        ensures
            parse_log(self.spec_wal_bytes()) == Some(self.wal_entries()),
            forall|k: Seq<u8>|
                #[trigger] mem_tables_lookup(
                    apply_log(self.wal_entries()),
                    self.live_tables_seq(),
                    k,
                ) == self.lookup(k),
    {
        self.wal.lemma_bytes_encode();
        lemma_parse_encode_log(self.wal@);
    }
}

impl crate::storage::KvEngine for LsmStore {
    closed spec fn kv_view(&self) -> Map<Seq<u8>, Seq<u8>> {
        Map::new(
            |k: Seq<u8>| self.lookup(k) is Some,
            |k: Seq<u8>|
                match self.lookup(k) {
                    Some(v) => v,
                    None => Seq::empty(),
                },
        )
    }

    closed spec fn inv(&self) -> bool {
        self.wf()
    }

    fn new() -> (s: Self) {
        let s = LsmStore::new();
        proof {
            assert_maps_equal!(s.kv_view(), Map::<Seq<u8>, Seq<u8>>::empty());
        }
        s
    }

    fn put(&mut self, key: &[u8], value: &[u8]) -> (r: Result<(), Error>) {
        let ghost pre = *self;
        let r = LsmStore::put(self, key, value);
        proof {
            if 9 + key@.len() + value@.len() <= MAX_ENTRY_SIZE {
                assert_maps_equal!(self.kv_view(), pre.kv_view().insert(key@, value@), k => {
                    if k != key@ {
                        assert(self.lookup(k) == pre.lookup(k));
                    }
                });
            }
        }
        r
    }

    fn get(&self, key: &[u8]) -> (r: Result<Option<Vec<u8>>, Error>) {
        let r = LsmStore::get(self, key);
        proof {
            match self.lookup(key@) {
                Some(v) => {
                    assert(self.kv_view().contains_key(key@));
                    assert(self.kv_view()[key@] == v);
                },
                None => {
                    assert(!self.kv_view().contains_key(key@));
                },
            }
        }
        r
    }

    fn delete(&mut self, key: &[u8]) -> (r: Result<(), Error>) {
        let ghost pre = *self;
        let r = LsmStore::delete(self, key);
        proof {
            if 5 + key@.len() <= MAX_ENTRY_SIZE {
                assert_maps_equal!(self.kv_view(), pre.kv_view().remove(key@), k => {
                    if k != key@ {
                        assert(self.lookup(k) == pre.lookup(k));
                    }
                });
            }
        }
        r
    }
}

/// The generation of the last (newest) table.
fn last_generation(sstables: &Vec<SSTable>) -> (r: u64)
    requires
        sstables@.len() > 0,
    ensures
        r == sstables@[sstables@.len() - 1].spec_generation(),
{
    sstables[sstables.len() - 1].generation()
}

/// Copies a byte slice into an owned vector.
fn clone_slice(b: &[u8]) -> (r: Vec<u8>)
    ensures
        r@ == b@,
{
    vstd::slice::slice_to_vec(b)
}

/// A parsed log's entries all fit the entry size bound: each parsed body was
/// delimited by an accepted length prefix.
pub proof fn lemma_parse_log_fits(s: Seq<u8>)
    ensures
        parse_log(s) matches Some(es) ==> all_fit(es),
    decreases s.len(),
{
    if s.len() == 0 {
    } else if s.len() < 4 {
    } else {
        let blen = crate::codec::le_u32(s.subrange(0, 4));
        if blen > MAX_ENTRY_SIZE {
        } else if 4 + blen > s.len() {
        } else {
            match parse_body(s.subrange(4, 4 + blen)) {
                Option::None => {},
                Option::Some(e) => {
                    lemma_parse_body_size(s.subrange(4, 4 + blen));
                    lemma_parse_log_fits(s.skip(4 + blen));
                    match parse_log(s.skip(4 + blen)) {
                        Option::None => {},
                        Option::Some(rest) => {
                            let es = seq![e] + rest;
                            assert forall|i: int| 0 <= i < es.len() implies entry_fits(
                                #[trigger] es[i],
                            ) by {
                                if i > 0 {
                                    assert(es[i] == rest[i - 1]);
                                }
                            }
                        },
                    }
                },
            }
        }
    }
}

/// A parsed body's fields fit within the body's own length.
proof fn lemma_parse_body_size(s: Seq<u8>)
    ensures
        parse_body(s) matches Some(e) ==> body_size(e) <= s.len(),
{
}

/// Last-write-wins: two puts to the same key in order leave the later value
/// visible.
pub proof fn lemma_last_write_wins(
    s0: LsmStore,
    s1: LsmStore,
    s2: LsmStore,
    key: Seq<u8>,
    v1: Seq<u8>,
    v2: Seq<u8>,
)
    requires
        put_step(s0, s1, key, v1),
        put_step(s1, s2, key, v2),
    ensures
        s2.lookup(key) == Some(v2),
{
}

/// Tombstone precedence: a put followed by a delete of the same key reads as
/// absent, and stays absent across any number of read-preserving steps (a
/// flush, a compaction).
pub proof fn lemma_tombstone_precedence(
    s0: LsmStore,
    s1: LsmStore,
    s2: LsmStore,
    s3: LsmStore,
    key: Seq<u8>,
    value: Seq<u8>,
)
    requires
        put_step(s0, s1, key, value),
        delete_step(s1, s2, key),
        reads_preserved(s2, s3),
    ensures
        s3.lookup(key) is None,
{
}

} // verus!
