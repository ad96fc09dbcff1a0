//! SSTables: immutable, sorted tables of one generation of data.
//!
//! An SSTable holds an already sorted, deduplicated entry sequence together
//! with its metadata: compaction level, generation id, and the exact first
//! and last keys, which prune lookups cheaply. Once written a table never
//! changes; only the engine's live set of tables does. A table at a higher
//! generation is always more recent than one at a lower generation,
//! regardless of level.

use vstd::prelude::*;
use crate::codec::u32_le;
use crate::codec::le_u32;
use crate::codec::lemma_le_u32_round;
use crate::codec::lemma_u32_le_round;
use crate::codec::write_u32_le;
use crate::codec::read_u32_le;
use crate::error::Error;
use crate::order::lemma_lex_lt_trans;
use crate::order::lex_lt;
use crate::order::bytes_eq;
use crate::wal::PUT_TAG;
use crate::wal::DELETE_TAG;
use crate::wal::WalEntryV;
use crate::wal::encode_body;
use crate::wal::entry_fits;
use crate::wal::MAX_ENTRY_SIZE;
use crate::entries::Entry;
use crate::entries::EntryValue;
use crate::entries::EntryV;
use crate::entries::sorted_by_key;
use crate::entries::kv_map;
use crate::entries::lemma_sorted_distinct;
use crate::entries::lemma_below_min_absent;
use crate::entries::lemma_above_max_absent;
use crate::entries::entries_get;
use crate::codec::copy_range;
use crate::order::lex_cmp;
use crate::order::KeyOrder;

verus! {

/// The result of consulting a sequence of tables, newest (highest index,
/// highest generation) first: the first table that knows the key decides.
pub open spec fn tables_lookup(ts: Seq<SSTable>, k: Seq<u8>) -> Option<EntryV>
    decreases ts.len(),
{
    if ts.len() == 0 {
        None
    } else if ts.last()@.contains_key(k) {
        Some(ts.last()@[k])
    } else {
        tables_lookup(ts.drop_last(), k)
    }
}

/// The combined content of a sequence of tables; on a shared key the table
/// at the higher index (the higher generation) wins.
pub open spec fn merged_kv(ts: Seq<SSTable>) -> Map<Seq<u8>, EntryV>
    decreases ts.len(),
{
    if ts.len() == 0 {
        Map::empty()
    } else {
        merged_kv(ts.drop_last()).union_prefer_right(ts.last()@)
    }
}

/// Consulting tables newest-first agrees with their combined content.
pub proof fn lemma_merged_lookup(ts: Seq<SSTable>, k: Seq<u8>)
    ensures
        tables_lookup(ts, k) == (if merged_kv(ts).contains_key(k) {
            Some(merged_kv(ts)[k])
        } else {
            None::<EntryV>
        }),
    decreases ts.len(),
{
    if ts.len() > 0 {
        lemma_merged_lookup(ts.drop_last(), k);
    }
}

/// One immutable sorted table plus its metadata.
#[derive(Clone)]
pub struct SSTable {
    level: u8,
    generation: u64,
    min_key: Vec<u8>,
    max_key: Vec<u8>,
    entries: Vec<Entry>,
}

impl View for SSTable {
    type V = Map<Seq<u8>, EntryV>;

    closed spec fn view(&self) -> Map<Seq<u8>, EntryV> {
        kv_map(self.entries@)
    }
}

impl SSTable {
    /// The table's sorted entry sequence.
    pub closed spec fn entry_seq(self) -> Seq<Entry> {
        self.entries@
    }

    /// The table's compaction level.
    pub closed spec fn spec_level(self) -> u8 {
        self.level
    }

    /// The table's generation id.
    pub closed spec fn spec_generation(self) -> u64 {
        self.generation
    }

    /// The smallest key held, meaningful only for a non-empty table.
    pub closed spec fn spec_min_key(self) -> Seq<u8> {
        self.min_key@
    }

    /// The largest key held, meaningful only for a non-empty table.
    pub closed spec fn spec_max_key(self) -> Seq<u8> {
        self.max_key@
    }

    /// Entries are sorted and the key bounds are exactly the first and last
    /// keys.
    pub closed spec fn wf(self) -> bool {
        &&& sorted_by_key(self.entries@)
        &&& self.entries@.len() > 0 ==> self.min_key@ == self.entries@[0].0@ && self.max_key@
            == self.entries@[self.entries@.len() - 1].0@
        &&& self.entries@.len() == 0 ==> self.min_key@ == Seq::<u8>::empty() && self.max_key@
            == Seq::<u8>::empty()
    }

    /// A table's content is the map of its entry sequence.
    pub proof fn lemma_view_is_entries(self)
        ensures
            self@ == kv_map(self.entry_seq()),
    {
    }

    /// Creates an empty table's metadata at the given level and generation.
    pub fn new(level: u8, generation: u64) -> (t: SSTable)
        ensures
            t.wf(),
            t@ == Map::<Seq<u8>, EntryV>::empty(),
            t.spec_level() == level,
            t.spec_generation() == generation,
            t.entry_seq() == Seq::<Entry>::empty(),
    {
        let t = SSTable {
            level,
            generation,
            min_key: Vec::new(),
            max_key: Vec::new(),
            entries: Vec::new(),
        };
        proof {
            assert(kv_map(t.entries@) =~= Map::<Seq<u8>, EntryV>::empty());
        }
        t
    }

    /// Seals a sorted, deduplicated entry sequence into an immutable table,
    /// computing its key bounds and metadata.
    pub fn write(level: u8, generation: u64, entries: Vec<Entry>) -> (t: SSTable)
        requires
            sorted_by_key(entries@),
        ensures
            t.wf(),
            t@ == kv_map(entries@),
            t.spec_level() == level,
            t.spec_generation() == generation,
            t.entry_seq() == entries@,
    {
        let n: usize = entries.len();
        let min_key: Vec<u8> = if n == 0 {
            Vec::new()
        } else {
            copy_range(&entries[0].0, 0, entries[0].0.len())
        };
        let max_key: Vec<u8> = if n == 0 {
            Vec::new()
        } else {
            copy_range(&entries[n - 1].0, 0, entries[n - 1].0.len())
        };
        proof {
            if n > 0 {
                assert(min_key@ =~= entries@[0].0@);
                assert(max_key@ =~= entries@[n - 1].0@);
            }
        }
        SSTable { level, generation, min_key, max_key, entries }
    }

    /// Looks `key` up: a live value, a tombstone, or absent (`None`).
    ///
    /// A key outside the table's `[min_key, max_key]` bounds is rejected
    /// without scanning the entries.
    pub fn get(&self, key: &[u8]) -> (r: Option<&EntryValue>)
        requires
            self.wf(),
        ensures
            match r {
                Some(v) => self@.contains_key(key@) && v@ == self@[key@],
                None => !self@.contains_key(key@),
            },
    {
        if self.entries.len() == 0 {
            proof {
                assert(kv_map(self.entries@) =~= Map::<Seq<u8>, EntryV>::empty());
            }
            return None;
        }
        let below = matches!(lex_cmp(key, self.min_key.as_slice()), KeyOrder::Less);
        if below {
            proof {
                lemma_below_min_absent(self.entries@, key@);
            }
            return None;
        }
        let above = matches!(lex_cmp(self.max_key.as_slice(), key), KeyOrder::Less);
        if above {
            proof {
                lemma_above_max_absent(self.entries@, key@);
            }
            return None;
        }
        proof {
            lemma_sorted_distinct(self.entries@);
        }
        entries_get(&self.entries, key)
    }

    /// The table's entries, for the merge path.
    pub fn entries(&self) -> (r: &Vec<Entry>)
        ensures
            r@ == self.entry_seq(),
    {
        &self.entries
    }

    /// The table's compaction level.
    pub fn level(&self) -> (r: u8)
        ensures
            r == self.spec_level(),
    {
        self.level
    }

    /// The table's generation id.
    pub fn generation(&self) -> (r: u64)
        ensures
            r == self.spec_generation(),
    {
        self.generation
    }

    /// The number of entries held.
    pub fn entry_count(&self) -> (r: usize)
        ensures
            r == self.entry_seq().len(),
    {
        self.entries.len()
    }
}

/// Version tag of the on-disk table format.
pub const SSTABLE_FORMAT_VERSION: u32 = 1;

/// The WAL-entry shape of a table entry: a live value encodes like a put, a
/// tombstone like a delete, so both formats share one record encoding.
pub open spec fn entry_to_wal(e: Entry) -> WalEntryV {
    match e.1 {
        EntryValue::Value(v) => WalEntryV::Put { key: e.0@, value: v@ },
        EntryValue::Tombstone => WalEntryV::Delete { key: e.0@ },
    }
}

/// The record region of a table file: each entry's body, in key order,
/// `[u8 tag][u32 key_len][key]` plus `[u32 value_len][value]` for a value.
pub open spec fn encode_entry_records(s: Seq<Entry>) -> Seq<u8>
    decreases s.len(),
{
    if s.len() == 0 {
        Seq::empty()
    } else {
        encode_entry_records(s.drop_last()) + encode_body(entry_to_wal(s.last()))
    }
}

/// The footer: min key, max key, entry count and format version, each
/// length-prefixed field first, with the footer's own length as the file's
/// last four bytes so metadata can be reloaded without scanning the records.
pub open spec fn encode_footer(min: Seq<u8>, max: Seq<u8>, count: u32) -> Seq<u8> {
    u32_le(min.len() as u32) + min + u32_le(max.len() as u32) + max + u32_le(count) + u32_le(
        SSTABLE_FORMAT_VERSION,
    ) + u32_le((16 + min.len() + max.len()) as u32)
}

/// A whole table file: the sorted records, then the footer.
pub open spec fn encode_table(t: SSTable) -> Seq<u8> {
    encode_entry_records(t.entry_seq()) + encode_footer(
        t.spec_min_key(),
        t.spec_max_key(),
        t.entry_seq().len() as u32,
    )
}

/// Every entry fits the WAL's record size bound and the count fits its
/// 32-bit footer field, so the encoding's length fields are exact.
pub open spec fn table_fits(t: SSTable) -> bool {
    &&& t.entry_seq().len() <= u32::MAX
    &&& forall|i: int|
        0 <= i < t.entry_seq().len() ==> entry_fits(entry_to_wal(#[trigger] t.entry_seq()[i]))
}

/// The abstract pair a record stands for: its key and its value-or-tombstone.
pub open spec fn wal_to_pair(w: WalEntryV) -> (Seq<u8>, EntryV) {
    match w {
        WalEntryV::Put { key, value } => (key, EntryV::Value(value)),
        WalEntryV::Delete { key } => (key, EntryV::Tombstone),
    }
}

/// The abstract pairs of an entry sequence.
pub open spec fn entry_pairs(s: Seq<Entry>) -> Seq<(Seq<u8>, EntryV)> {
    Seq::new(s.len(), |i: int| (s[i].0@, s[i].1@))
}

/// Abstract pairs in strictly ascending key order.
pub open spec fn pairs_sorted(es: Seq<(Seq<u8>, EntryV)>) -> bool {
    forall|i: int, j: int| 0 <= i < j < es.len() ==> lex_lt((#[trigger] es[i]).0, (#[trigger] es[j]).0)
}

/// Parses exactly `count` back-to-back records that together fill `s`:
/// each record is one `parse_body` worth of bytes.
pub open spec fn parse_record_seq(s: Seq<u8>, count: nat) -> Option<Seq<(Seq<u8>, EntryV)>>
    decreases count,
{
    if count == 0 {
        if s.len() == 0 {
            Some(Seq::empty())
        } else {
            None
        }
    } else {
        match crate::wal::parse_body(s) {
            Option::None => None,
            Option::Some(w) => {
                if crate::wal::body_size(w) > s.len() {
                    None
                } else {
                    match parse_record_seq(s.skip(crate::wal::body_size(w)), (count - 1) as nat) {
                        Option::None => None,
                        Option::Some(rest) => Some(seq![wal_to_pair(w)] + rest),
                    }
                }
            },
        }
    }
}

/// What it takes for a byte string to be a valid table file: a footer whose
/// fields delimit the file exactly, a record region that parses as exactly
/// the counted records, strictly ascending keys, and key bounds that are the
/// first and last keys. `SSTable::decode` succeeds on exactly these strings,
/// and `lemma_valid_table_parses` shows every well-formed table's encoding
/// is one.
pub open spec fn parse_table_ok(s: Seq<u8>) -> bool {
    &&& s.len() >= 4
    &&& {
        let flen = le_u32(s.subrange(s.len() - 4, s.len() as int));
        &&& flen >= 16
        &&& flen + 4 <= s.len()
        &&& {
            let fs = s.len() - 4 - flen;
            let mlen = le_u32(s.subrange(fs, fs + 4));
            &&& mlen + 16 <= flen
            &&& {
                let p2 = fs + 4 + mlen;
                let xlen = le_u32(s.subrange(p2, p2 + 4));
                &&& xlen == flen - 16 - mlen
                &&& {
                    let p3 = p2 + 4 + xlen;
                    let cnt = le_u32(s.subrange(p3, p3 + 4));
                    &&& le_u32(s.subrange(p3 + 4, p3 + 8)) == SSTABLE_FORMAT_VERSION
                    &&& match parse_record_seq(s.subrange(0, fs), cnt as nat) {
                        Option::Some(es) => {
                            &&& pairs_sorted(es)
                            &&& (es.len() == 0 ==> mlen == 0 && xlen == 0)
                            &&& (es.len() > 0 ==> s.subrange(fs + 4, p2) == es[0].0 && s.subrange(
                                p2 + 4,
                                p3,
                            ) == es[es.len() - 1].0)
                        },
                        Option::None => false,
                    }
                }
            }
        }
    }
}

/// The bytes from `pos` spell exactly one live-value record.
proof fn lemma_put_record_bytes(bytes: Seq<u8>, pos: int, key: Seq<u8>, value: Seq<u8>)
    requires
        0 <= pos,
        pos + 9 + key.len() + value.len() <= bytes.len(),
        bytes[pos] == PUT_TAG,
        bytes.subrange(pos + 1, pos + 5) == u32_le(key.len() as u32),
        bytes.subrange(pos + 5, pos + 5 + key.len()) == key,
        bytes.subrange(pos + 5 + key.len(), pos + 9 + key.len()) == u32_le(value.len() as u32),
        bytes.subrange(pos + 9 + key.len(), pos + 9 + key.len() + value.len()) == value,
    ensures
        bytes.subrange(pos, pos + 9 + key.len() + value.len()) == encode_body(
            WalEntryV::Put { key, value },
        ),
{
    assert(bytes.subrange(pos, pos + 9 + key.len() + value.len()) =~= encode_body(
        WalEntryV::Put { key, value },
    ));
}

/// The bytes from `pos` spell exactly one tombstone record.
proof fn lemma_delete_record_bytes(bytes: Seq<u8>, pos: int, key: Seq<u8>)
    requires
        0 <= pos,
        pos + 5 + key.len() <= bytes.len(),
        bytes[pos] == DELETE_TAG,
        bytes.subrange(pos + 1, pos + 5) == u32_le(key.len() as u32),
        bytes.subrange(pos + 5, pos + 5 + key.len()) == key,
    ensures
        bytes.subrange(pos, pos + 5 + key.len()) == encode_body(WalEntryV::Delete { key }),
{
    assert(bytes.subrange(pos, pos + 5 + key.len()) =~= encode_body(WalEntryV::Delete { key }));
}

/// A byte string whose pieces are a table's records and footer fields is
/// that table's encoding.
#[verifier::rlimit(100)]
proof fn lemma_assemble_table(bytes: Seq<u8>, t: SSTable, fs: int, p2: int, p3: int)
    requires
        0 <= fs,
        p2 == fs + 4 + t.spec_min_key().len(),
        p3 == p2 + 4 + t.spec_max_key().len(),
        bytes.len() == p3 + 12,
        bytes.subrange(0, fs) == encode_entry_records(t.entry_seq()),
        bytes.subrange(fs, fs + 4) == u32_le(t.spec_min_key().len() as u32),
        bytes.subrange(fs + 4, p2) == t.spec_min_key(),
        bytes.subrange(p2, p2 + 4) == u32_le(t.spec_max_key().len() as u32),
        bytes.subrange(p2 + 4, p3) == t.spec_max_key(),
        bytes.subrange(p3, p3 + 4) == u32_le(t.entry_seq().len() as u32),
        bytes.subrange(p3 + 4, p3 + 8) == u32_le(SSTABLE_FORMAT_VERSION),
        bytes.subrange(p3 + 8, p3 + 12) == u32_le(
            (16 + t.spec_min_key().len() + t.spec_max_key().len()) as u32,
        ),
        fs == encode_entry_records(t.entry_seq()).len(),
    ensures
        bytes == encode_table(t),
{
    assert(bytes =~= encode_table(t));
}

/// A record's body parses back to its entry, whatever follows it, as long
/// as its length fields are exact.
proof fn lemma_parse_body_prefix(w: WalEntryV, rest: Seq<u8>)
    requires
        match w {
            WalEntryV::Put { key, value } => key.len() <= u32::MAX && value.len() <= u32::MAX,
            WalEntryV::Delete { key } => key.len() <= u32::MAX,
        },
    ensures
        crate::wal::parse_body(encode_body(w) + rest) == Some(w),
{
    let s = encode_body(w) + rest;
    match w {
        WalEntryV::Put { key, value } => {
            let kl = key.len() as u32;
            let vl = value.len() as u32;
            lemma_u32_le_round(kl);
            lemma_u32_le_round(vl);
            assert(s[0] == crate::wal::PUT_TAG);
            assert(s.subrange(1, 5) =~= u32_le(kl));
            let klen = le_u32(s.subrange(1, 5));
            assert(klen == key.len());
            assert(s.subrange(5, 5 + klen) =~= key);
            assert(s.subrange(5 + klen, 9 + klen) =~= u32_le(vl));
            let vlen = le_u32(s.subrange(5 + klen, 9 + klen));
            assert(vlen == value.len());
            assert(s.subrange(9 + klen, 9 + klen + vlen) =~= value);
        },
        WalEntryV::Delete { key } => {
            let kl = key.len() as u32;
            lemma_u32_le_round(kl);
            assert(s[0] == crate::wal::DELETE_TAG);
            assert(s.subrange(1, 5) =~= u32_le(kl));
            let klen = le_u32(s.subrange(1, 5));
            assert(klen == key.len());
            assert(s.subrange(5, 5 + klen) =~= key);
        },
    }
}

/// The record region starts with the first entry's body.
proof fn lemma_encode_records_cons(s: Seq<Entry>)
    requires
        s.len() > 0,
    ensures
        encode_entry_records(s) == encode_body(entry_to_wal(s[0])) + encode_entry_records(
            s.skip(1),
        ),
    decreases s.len(),
{
    if s.len() == 1 {
        assert(s.drop_last() =~= Seq::<Entry>::empty());
        assert(s.skip(1) =~= Seq::<Entry>::empty());
        assert(s.last() == s[0]);
        assert(encode_entry_records(s) =~= encode_body(entry_to_wal(s[0]))
            + encode_entry_records(s.skip(1)));
    } else {
        let dl = s.drop_last();
        lemma_encode_records_cons(dl);
        assert(dl[0] == s[0]);
        assert(s.skip(1).drop_last() =~= dl.skip(1));
        assert(s.skip(1).last() == s.last());
        assert(encode_entry_records(s.skip(1)) == encode_entry_records(dl.skip(1)) + encode_body(
            entry_to_wal(s.last()),
        ));
        assert((encode_body(entry_to_wal(s[0])) + encode_entry_records(dl.skip(1))) + encode_body(
            entry_to_wal(s.last()),
        ) =~= encode_body(entry_to_wal(s[0])) + (encode_entry_records(dl.skip(1)) + encode_body(
            entry_to_wal(s.last()),
        )));
    }
}

/// The record region of a fitting entry sequence parses back to exactly its
/// abstract pairs.
proof fn lemma_parse_records_encode(s: Seq<Entry>)
    requires
        forall|i: int| 0 <= i < s.len() ==> entry_fits(entry_to_wal(#[trigger] s[i])),
    ensures
        parse_record_seq(encode_entry_records(s), s.len() as nat) == Some(entry_pairs(s)),
    decreases s.len(),
{
    if s.len() == 0 {
        assert(entry_pairs(s) =~= Seq::<(Seq<u8>, EntryV)>::empty());
    } else {
        let w0 = entry_to_wal(s[0]);
        assert(entry_fits(w0));
        lemma_encode_records_cons(s);
        let bytes = encode_entry_records(s);
        let tail = encode_entry_records(s.skip(1));
        lemma_parse_body_prefix(w0, tail);
        crate::wal::lemma_encode_body_len(w0);
        assert(bytes.skip(crate::wal::body_size(w0)) =~= tail);
        assert forall|i: int| 0 <= i < s.skip(1).len() implies entry_fits(
            entry_to_wal(#[trigger] s.skip(1)[i]),
        ) by {
            assert(s.skip(1)[i] == s[i + 1]);
        }
        lemma_parse_records_encode(s.skip(1));
        assert(wal_to_pair(w0) == (s[0].0@, s[0].1@));
        assert forall|i: int| 0 <= i < s.skip(1).len() implies entry_pairs(s.skip(1))[i]
            == entry_pairs(s)[i + 1] by {
            assert(s.skip(1)[i] == s[i + 1]);
        }
        assert(seq![wal_to_pair(w0)] + entry_pairs(s.skip(1)) =~= entry_pairs(s));
    }
}

/// Every well-formed, fitting table's encoding is a valid table file: the
/// completeness direction of `decode`, which rejects exactly the byte
/// strings that are no table's encoding.
#[verifier::rlimit(100)]
pub proof fn lemma_valid_table_parses(t: SSTable)
    requires
        t.wf(),
        table_fits(t),
    ensures
        parse_table_ok(encode_table(t)),
{
    let s = encode_table(t);
    let min = t.spec_min_key();
    let max = t.spec_max_key();
    let n = t.entry_seq().len();
    let rec = encode_entry_records(t.entry_seq());
    let foot = encode_footer(min, max, n as u32);
    assert(s == rec + foot);
    if n > 0 {
        assert(entry_fits(entry_to_wal(t.entry_seq()[0])));
        assert(entry_fits(entry_to_wal(t.entry_seq()[n - 1])));
    }
    assert(min.len() <= MAX_ENTRY_SIZE && max.len() <= MAX_ENTRY_SIZE);
    lemma_u32_le_round((16 + min.len() + max.len()) as u32);
    lemma_u32_le_round(min.len() as u32);
    lemma_u32_le_round(max.len() as u32);
    lemma_u32_le_round(n as u32);
    lemma_u32_le_round(SSTABLE_FORMAT_VERSION);
    let flen = 16 + min.len() + max.len();
    assert(foot.len() == flen + 4);
    assert(s.subrange(s.len() - 4, s.len() as int) =~= u32_le(flen as u32));
    assert(le_u32(s.subrange(s.len() - 4, s.len() as int)) == flen);
    let fs = s.len() - 4 - flen;
    assert(fs == rec.len());
    assert(s.subrange(fs, fs + 4) =~= u32_le(min.len() as u32));
    let p2 = fs + 4 + min.len();
    assert(s.subrange(fs + 4, p2) =~= min);
    assert(s.subrange(p2, p2 + 4) =~= u32_le(max.len() as u32));
    let p3 = p2 + 4 + max.len();
    assert(s.subrange(p2 + 4, p3) =~= max);
    assert(s.subrange(p3, p3 + 4) =~= u32_le(n as u32));
    assert(s.subrange(p3 + 4, p3 + 8) =~= u32_le(SSTABLE_FORMAT_VERSION));
    assert(s.subrange(0, fs) =~= rec);
    lemma_parse_records_encode(t.entry_seq());
    assert(parse_record_seq(s.subrange(0, fs), n as nat) == Some(entry_pairs(t.entry_seq())));
    let es = entry_pairs(t.entry_seq());
    assert forall|i: int, j: int| 0 <= i < j < es.len() implies lex_lt(
        (#[trigger] es[i]).0,
        (#[trigger] es[j]).0,
    ) by {
        assert(es[i].0 == t.entry_seq()[i].0@);
        assert(es[j].0 == t.entry_seq()[j].0@);
    }
    if n > 0 {
        assert(es[0].0 == t.entry_seq()[0].0@);
        assert(es[es.len() - 1].0 == t.entry_seq()[n - 1].0@);
    }
}

/// A record region that fails to parse, or parses out of order, is no valid
/// table file, whatever its footer says.
proof fn lemma_not_ok_from_parse(s: Seq<u8>, fs: int, mlen: int, xlen: int, cnt: nat)
    requires
        fs == s.len() - 4 - le_u32(s.subrange(s.len() - 4, s.len() as int)),
        0 <= fs,
        mlen == le_u32(s.subrange(fs, fs + 4)),
        xlen == le_u32(s.subrange(fs + 4 + mlen, fs + 8 + mlen)),
        cnt as int == le_u32(s.subrange(fs + 8 + mlen + xlen, fs + 12 + mlen + xlen)),
        (match parse_record_seq(s.subrange(0, fs), cnt) {
            Option::Some(es) => !pairs_sorted(es),
            Option::None => true,
        }),
    ensures
        !parse_table_ok(s),
{
}

/// One parsed record moves the parse frontier forward: the whole region's
/// parse equals the already-parsed entries plus whatever remains after it.
proof fn lemma_parse_step_maintain(
    recs: Seq<u8>,
    count: nat,
    k: nat,
    pos: int,
    newpos: int,
    prev: Seq<Entry>,
    cur: Seq<Entry>,
    e: Entry,
)
    requires
        k == prev.len(),
        k < count,
        cur == prev.push(e),
        0 <= pos <= newpos <= recs.len(),
        crate::wal::parse_body(recs.skip(pos)) == Some(entry_to_wal(e)),
        crate::wal::body_size(entry_to_wal(e)) == newpos - pos,
        (match parse_record_seq(recs.skip(pos), (count - k) as nat) {
            Option::Some(rest) => parse_record_seq(recs, count) == Option::Some(
                entry_pairs(prev) + rest,
            ),
            Option::None => parse_record_seq(recs, count) is None,
        }),
    ensures
        (match parse_record_seq(recs.skip(newpos), (count - k - 1) as nat) {
            Option::Some(rest) => parse_record_seq(recs, count) == Option::Some(
                entry_pairs(cur) + rest,
            ),
            Option::None => parse_record_seq(recs, count) is None,
        }),
{
    let w = entry_to_wal(e);
    assert(recs.skip(pos).skip(newpos - pos) =~= recs.skip(newpos));
    assert(wal_to_pair(w) == (e.0@, e.1@));
    assert forall|i: int| 0 <= i < prev.len() implies entry_pairs(cur)[i] == entry_pairs(
        prev,
    )[i] by {
        assert(cur[i] == prev[i]);
    }
    assert(entry_pairs(cur)[prev.len() as int] == (e.0@, e.1@));
    match parse_record_seq(recs.skip(newpos), (count - k - 1) as nat) {
        Option::Some(r2) => {
            assert(parse_record_seq(recs.skip(pos), (count - k) as nat) == Some(
                seq![wal_to_pair(w)] + r2,
            ));
            assert(entry_pairs(prev) + (seq![wal_to_pair(w)] + r2) =~= entry_pairs(cur) + r2);
        },
        Option::None => {
            assert(parse_record_seq(recs.skip(pos), (count - k) as nat) is None);
        },
    }
}

/// A record whose key does not ascend past the previous one makes the whole
/// region parse unsorted (or fail outright).
proof fn lemma_unsorted_rejects(
    recs: Seq<u8>,
    count: nat,
    k: nat,
    pos: int,
    newpos: int,
    prev: Seq<Entry>,
    w: WalEntryV,
    key: Seq<u8>,
)
    requires
        k == prev.len(),
        1 <= k < count,
        0 <= pos <= newpos <= recs.len(),
        crate::wal::parse_body(recs.skip(pos)) == Some(w),
        crate::wal::body_size(w) == newpos - pos,
        wal_to_pair(w).0 == key,
        !lex_lt(prev[k - 1].0@, key),
        (match parse_record_seq(recs.skip(pos), (count - k) as nat) {
            Option::Some(rest) => parse_record_seq(recs, count) == Option::Some(
                entry_pairs(prev) + rest,
            ),
            Option::None => parse_record_seq(recs, count) is None,
        }),
    ensures
        (match parse_record_seq(recs, count) {
            Option::Some(es) => !pairs_sorted(es),
            Option::None => true,
        }),
{
    assert(recs.skip(pos).skip(newpos - pos) =~= recs.skip(newpos));
    match parse_record_seq(recs.skip(newpos), (count - k - 1) as nat) {
        Option::Some(r2) => {
            assert(parse_record_seq(recs.skip(pos), (count - k) as nat) == Some(
                seq![wal_to_pair(w)] + r2,
            ));
            match parse_record_seq(recs, count) {
                Option::Some(es) => {
                    assert(es == entry_pairs(prev) + (seq![wal_to_pair(w)] + r2));
                    assert(entry_pairs(prev).len() == k);
                    assert(es[k - 1] == entry_pairs(prev)[k - 1]);
                    assert(es[k - 1].0 == prev[k - 1].0@);
                    assert(es[k as int] == wal_to_pair(w));
                    assert(!lex_lt(es[k - 1].0, es[k as int].0));
                    assert(!pairs_sorted(es));
                },
                Option::None => {},
            }
        },
        Option::None => {
            assert(parse_record_seq(recs.skip(pos), (count - k) as nat) is None);
        },
    }
}

/// Reads one record of the region `[pos, fs)`: the executable counterpart
/// of `parse_body` on that suffix, also yielding the record's exact bytes.
fn read_record(bytes: &Vec<u8>, pos: usize, fs: usize) -> (r: Result<(Entry, usize), Error>)
    requires
        pos <= fs <= bytes@.len(),
    ensures
        (match r {
            Ok(p) => {
                &&& pos < p.1 <= fs
                &&& crate::wal::parse_body(bytes@.subrange(pos as int, fs as int)) == Some(
                    entry_to_wal(p.0),
                )
                &&& crate::wal::body_size(entry_to_wal(p.0)) == p.1 - pos
                &&& bytes@.subrange(pos as int, p.1 as int) == encode_body(entry_to_wal(p.0))
            },
            Err(e) => e == Error::Corruption && crate::wal::parse_body(
                bytes@.subrange(pos as int, fs as int),
            ) is None,
        }),
{
    let ghost s = bytes@.subrange(pos as int, fs as int);
    let total: usize = bytes.len();
    proof {
        assert(fs <= total);
    }
    if fs - pos < 5 {
        proof {
            assert(s.len() < 5);
        }
        return Err(Error::Corruption);
    }
    let tag = bytes[pos];
    proof {
        assert(s[0] == bytes@[pos as int]);
    }
    let key_len_field = read_u32_le(bytes, pos + 1);
    proof {
        lemma_le_u32_round(bytes@.subrange(pos as int + 1, pos as int + 5));
        assert(s.subrange(1, 5) =~= bytes@.subrange(pos as int + 1, pos as int + 5));
    }
    let key_len = key_len_field as usize;
    if key_len > fs - pos - 5 {
        return Err(Error::Corruption);
    }
    let key = crate::codec::copy_range(bytes, pos + 5, pos + 5 + key_len);
    proof {
        assert(s.subrange(5, 5 + key_len as int) =~= bytes@.subrange(
            pos as int + 5,
            pos as int + 5 + key_len as int,
        ));
    }
    if tag == PUT_TAG {
        let vstart = pos + 5 + key_len;
        if fs - vstart < 4 {
            return Err(Error::Corruption);
        }
        let value_len_field = read_u32_le(bytes, vstart);
        proof {
            lemma_le_u32_round(bytes@.subrange(vstart as int, vstart as int + 4));
            assert(s.subrange(5 + key_len as int, 9 + key_len as int) =~= bytes@.subrange(
                vstart as int,
                vstart as int + 4,
            ));
        }
        let value_len = value_len_field as usize;
        if value_len > fs - vstart - 4 {
            return Err(Error::Corruption);
        }
        let value = crate::codec::copy_range(bytes, vstart + 4, vstart + 4 + value_len);
        let newpos = vstart + 4 + value_len;
        proof {
            assert(s.subrange(9 + key_len as int, 9 + key_len as int + value_len as int)
                =~= bytes@.subrange(vstart as int + 4, newpos as int));
            assert(bytes@.subrange(pos as int + 1, pos as int + 5) == u32_le(key@.len() as u32));
            assert(bytes@.subrange(vstart as int, vstart as int + 4) == u32_le(
                value@.len() as u32,
            ));
            lemma_put_record_bytes(bytes@, pos as int, key@, value@);
            assert(crate::wal::parse_body(s) == Some(
                WalEntryV::Put { key: key@, value: value@ },
            ));
        }
        Ok(((key, EntryValue::Value(value)), newpos))
    } else if tag == DELETE_TAG {
        let newpos = pos + 5 + key_len;
        proof {
            assert(bytes@.subrange(pos as int + 1, pos as int + 5) == u32_le(key@.len() as u32));
            lemma_delete_record_bytes(bytes@, pos as int, key@);
            assert(crate::wal::parse_body(s) == Some(WalEntryV::Delete { key: key@ }));
        }
        Ok(((key, EntryValue::Tombstone), newpos))
    } else {
        Err(Error::Corruption)
    }
}

impl SSTable {
    /// Serializes the table into the on-disk format: the sorted records
    /// followed by the footer.
    ///
    /// The caller writes the bytes to a temporary path and atomically
    /// renames them into place, so a crash mid-write never leaves a partial
    /// file visible as live.
    pub fn encode(&self) -> (b: Vec<u8>)
        requires
            self.wf(),
            table_fits(*self),
        ensures
            b@ == encode_table(*self),
    {
        let mut out: Vec<u8> = Vec::new();
        let n: usize = self.entries.len();
        let mut i: usize = 0;
        proof {
            assert(self.entries@.subrange(0, 0) =~= Seq::<Entry>::empty());
            assert(out@ =~= encode_entry_records(self.entries@.subrange(0, 0)));
        }
        while i < n
            invariant
                0 <= i <= n,
                n == self.entries@.len(),
                self.wf(),
                table_fits(*self),
                out@ == encode_entry_records(self.entries@.subrange(0, i as int)),
            decreases n - i,
        {
            let ghost pre = out@;
            proof {
                assert(entry_fits(entry_to_wal(self.entries@[i as int])));
            }
            let e = &self.entries[i];
            match &e.1 {
                EntryValue::Value(v) => {
                    out.push(PUT_TAG);
                    write_u32_le(&mut out, e.0.len() as u32);
                    out.extend_from_slice(e.0.as_slice());
                    write_u32_le(&mut out, v.len() as u32);
                    out.extend_from_slice(v.as_slice());
                },
                EntryValue::Tombstone => {
                    out.push(DELETE_TAG);
                    write_u32_le(&mut out, e.0.len() as u32);
                    out.extend_from_slice(e.0.as_slice());
                },
            }
            proof {
                assert(out@ =~= pre + encode_body(entry_to_wal(self.entries@[i as int])));
                assert(self.entries@.subrange(0, i as int + 1).drop_last() =~= self.entries@.subrange(
                    0,
                    i as int,
                ));
                assert(self.entries@.subrange(0, i as int + 1).last() == self.entries@[i as int]);
            }
            i = i + 1;
        }
        proof {
            assert(self.entries@.subrange(0, n as int) =~= self.entries@);
            if n > 0 {
                assert(entry_fits(entry_to_wal(self.entries@[0])));
                assert(entry_fits(entry_to_wal(self.entries@[n - 1])));
            }
        }
        write_u32_le(&mut out, self.min_key.len() as u32);
        out.extend_from_slice(self.min_key.as_slice());
        write_u32_le(&mut out, self.max_key.len() as u32);
        out.extend_from_slice(self.max_key.as_slice());
        write_u32_le(&mut out, n as u32);
        write_u32_le(&mut out, SSTABLE_FORMAT_VERSION);
        let footer_len: usize = 16 + self.min_key.len() + self.max_key.len();
        write_u32_le(&mut out, footer_len as u32);
        proof {
            assert(out@ =~= encode_table(*self));
        }
        out
    }

    /// Serializes the table after checking that its entries fit the format's
    /// 32-bit length fields; a table built from WAL-accepted entries always
    /// does. Returns `None`, touching nothing, where one does not.
    pub fn try_encode(&self) -> (r: Option<Vec<u8>>)
        requires
            self.wf(),
        ensures
            match r {
                Some(b) => table_fits(*self) && b@ == encode_table(*self),
                None => !table_fits(*self),
            },
    {
        let n: usize = self.entries.len();
        if n > u32::MAX as usize {
            return None;
        }
        let mut i: usize = 0;
        while i < n
            invariant
                0 <= i <= n,
                n == self.entries@.len(),
                n <= u32::MAX,
                self.wf(),
                forall|j: int|
                    0 <= j < i ==> entry_fits(entry_to_wal(#[trigger] self.entries@[j])),
            decreases n - i,
        {
            let e = &self.entries[i];
            let fits = match &e.1 {
                EntryValue::Value(v) => e.0.len() <= crate::wal::MAX_ENTRY_SIZE && v.len()
                    <= crate::wal::MAX_ENTRY_SIZE && 9 + e.0.len() + v.len()
                    <= crate::wal::MAX_ENTRY_SIZE,
                EntryValue::Tombstone => e.0.len() <= crate::wal::MAX_ENTRY_SIZE && 5 + e.0.len()
                    <= crate::wal::MAX_ENTRY_SIZE,
            };
            if !fits {
                proof {
                    assert(!entry_fits(entry_to_wal(self.entries@[i as int])));
                }
                return None;
            }
            i = i + 1;
        }
        Some(self.encode())
    }

    /// Reads a table file back, validating it completely: the footer must
    /// describe the records exactly, the records must be in strictly
    /// ascending key order, and the key bounds must be the first and last
    /// keys. Anything else is corruption. The level and generation are
    /// carried by the file's name, not its bytes.
    #[verifier::rlimit(100)]
    pub fn decode(bytes: &Vec<u8>, level: u8, generation: u64) -> (r: Result<SSTable, Error>)
        ensures
            match r {
                Ok(t) => {
                    &&& t.wf()
                    &&& t.spec_level() == level
                    &&& t.spec_generation() == generation
                    &&& bytes@ == encode_table(t)
                    &&& parse_table_ok(bytes@)
                },
                Err(e) => e == Error::Corruption && !parse_table_ok(bytes@),
            },
    {
        let len: usize = bytes.len();
        if len < 4 {
            proof {
                assert(!parse_table_ok(bytes@));
            }
            return Err(Error::Corruption);
        }
        let footer_len_field = read_u32_le(bytes, len - 4);
        proof {
            lemma_le_u32_round(bytes@.subrange(len - 4, len as int));
        }
        let footer_len = footer_len_field as usize;
        if footer_len < 16 || footer_len > len - 4 {
            proof {
                assert(!parse_table_ok(bytes@));
            }
            return Err(Error::Corruption);
        }
        let fs: usize = len - 4 - footer_len;
        let min_len_field = read_u32_le(bytes, fs);
        proof {
            lemma_le_u32_round(bytes@.subrange(fs as int, fs as int + 4));
        }
        let min_len = min_len_field as usize;
        if min_len > footer_len - 16 {
            proof {
                assert(!parse_table_ok(bytes@));
            }
            return Err(Error::Corruption);
        }
        let min_key = crate::codec::copy_range(bytes, fs + 4, fs + 4 + min_len);
        let p2: usize = fs + 4 + min_len;
        let max_len_field = read_u32_le(bytes, p2);
        proof {
            lemma_le_u32_round(bytes@.subrange(p2 as int, p2 as int + 4));
        }
        let max_len = max_len_field as usize;
        if max_len != footer_len - 16 - min_len {
            proof {
                assert(!parse_table_ok(bytes@));
            }
            return Err(Error::Corruption);
        }
        let max_key = crate::codec::copy_range(bytes, p2 + 4, p2 + 4 + max_len);
        let p3: usize = p2 + 4 + max_len;
        let count_field = read_u32_le(bytes, p3);
        proof {
            lemma_le_u32_round(bytes@.subrange(p3 as int, p3 as int + 4));
        }
        let count = count_field as usize;
        let version = read_u32_le(bytes, p3 + 4);
        proof {
            lemma_le_u32_round(bytes@.subrange(p3 as int + 4, p3 as int + 8));
        }
        if version != SSTABLE_FORMAT_VERSION {
            proof {
                assert(!parse_table_ok(bytes@));
            }
            return Err(Error::Corruption);
        }
        let mut entries: Vec<Entry> = Vec::new();
        let mut pos: usize = 0;
        let mut k: usize = 0;
        let ghost recs = bytes@.subrange(0, fs as int);
        proof {
            assert(bytes@.subrange(0, 0) =~= Seq::<u8>::empty());
            assert(bytes@.subrange(0, 0) =~= encode_entry_records(entries@));
            assert(recs.skip(0) =~= recs);
            assert(entry_pairs(entries@) =~= Seq::<(Seq<u8>, EntryV)>::empty());
            match parse_record_seq(recs, count as nat) {
                Option::Some(rest) => {
                    assert(entry_pairs(entries@) + rest =~= rest);
                },
                Option::None => {},
            }
        }
        while k < count
            invariant
                0 <= k <= count,
                entries@.len() == k,
                0 <= pos <= fs,
                fs <= bytes@.len(),
                len == bytes@.len(),
                len >= 4,
                sorted_by_key(entries@),
                bytes@.subrange(0, pos as int) == encode_entry_records(entries@),
                recs == bytes@.subrange(0, fs as int),
                footer_len == footer_len_field as usize,
                footer_len_field == le_u32(bytes@.subrange(len as int - 4, len as int)),
                16 <= footer_len <= len - 4,
                fs == len - 4 - footer_len,
                min_len_field == le_u32(bytes@.subrange(fs as int, fs as int + 4)),
                min_len == min_len_field as usize,
                min_len <= footer_len - 16,
                p2 == fs + 4 + min_len,
                max_len_field == le_u32(bytes@.subrange(p2 as int, p2 as int + 4)),
                max_len == max_len_field as usize,
                max_len == footer_len - 16 - min_len,
                p3 == p2 + 4 + max_len,
                count_field == le_u32(bytes@.subrange(p3 as int, p3 as int + 4)),
                count == count_field as usize,
                le_u32(bytes@.subrange(p3 as int + 4, p3 as int + 8)) == SSTABLE_FORMAT_VERSION,
                min_key@ == bytes@.subrange(fs as int + 4, p2 as int),
                max_key@ == bytes@.subrange(p2 as int + 4, p3 as int),
                (match parse_record_seq(recs.skip(pos as int), (count - k) as nat) {
                    Option::Some(rest) => parse_record_seq(recs, count as nat) == Option::Some(
                        entry_pairs(entries@) + rest,
                    ),
                    Option::None => parse_record_seq(recs, count as nat) is None,
                }),
            decreases count - k,
        {
            let parsed = match read_record(bytes, pos, fs) {
                Ok(p) => p,
                Err(err) => {
                    proof {
                        assert(recs.skip(pos as int) =~= bytes@.subrange(pos as int, fs as int));
                        assert(parse_record_seq(recs.skip(pos as int), (count - k) as nat)
                            is None);
                        assert(parse_record_seq(recs, count as nat) is None);
                        lemma_not_ok_from_parse(
                            bytes@,
                            fs as int,
                            min_len as int,
                            max_len as int,
                            count as nat,
                        );
                    }
                    return Err(err);
                },
            };
            let (entry, newpos) = parsed;
            let ghost w = entry_to_wal(entry);
            proof {
                assert(recs.skip(pos as int) =~= bytes@.subrange(pos as int, fs as int));
                assert(crate::wal::parse_body(recs.skip(pos as int)) == Some(w));
            }
            if entries.len() > 0 {
                let last_idx = entries.len() - 1;
                let in_order = matches!(
                    crate::order::lex_cmp(entries[last_idx].0.as_slice(), entry.0.as_slice()),
                    crate::order::KeyOrder::Less
                );
                if !in_order {
                    proof {
                        assert(wal_to_pair(w).0 == entry.0@);
                        lemma_unsorted_rejects(
                            recs,
                            count as nat,
                            k as nat,
                            pos as int,
                            newpos as int,
                            entries@,
                            w,
                            entry.0@,
                        );
                        lemma_not_ok_from_parse(
                            bytes@,
                            fs as int,
                            min_len as int,
                            max_len as int,
                            count as nat,
                        );
                    }
                    return Err(Error::Corruption);
                }
            }
            let ghost e: Entry = entry;
            let ghost pre_entries = entries@;
            let ghost pos0 = pos as int;
            proof {
                assert forall|j: int| 0 <= j < pre_entries.len() implies #[trigger] lex_lt(
                    pre_entries[j].0@,
                    e.0@,
                ) by {
                    if j < pre_entries.len() - 1 {
                        assert(lex_lt(
                            pre_entries[j].0@,
                            pre_entries[pre_entries.len() - 1].0@,
                        ));
                        lemma_lex_lt_trans(
                            pre_entries[j].0@,
                            pre_entries[pre_entries.len() - 1].0@,
                            e.0@,
                        );
                    }
                }
            }
            entries.push(entry);
            pos = newpos;
            proof {
                assert(entries@ =~= pre_entries.push(e));
                assert(entries@.drop_last() =~= pre_entries);
                assert(entries@.last() == e);
                assert(bytes@.subrange(0, pos as int) =~= bytes@.subrange(0, pos0)
                    + bytes@.subrange(pos0, pos as int));
                assert(encode_entry_records(entries@) == encode_entry_records(pre_entries)
                    + encode_body(w));
                assert forall|a: int, b: int|
                    0 <= a < b < entries@.len() implies #[trigger] lex_lt(
                    entries@[a].0@,
                    entries@[b].0@,
                ) by {
                    if b < entries@.len() - 1 {
                        assert(entries@[a] == pre_entries[a]);
                        assert(entries@[b] == pre_entries[b]);
                    } else {
                        assert(entries@[a] == pre_entries[a]);
                    }
                }
                lemma_parse_step_maintain(
                    recs,
                    count as nat,
                    k as nat,
                    pos0,
                    pos as int,
                    pre_entries,
                    entries@,
                    e,
                );
            }
            k = k + 1;
        }
        if pos != fs {
            proof {
                assert(recs.skip(pos as int).len() == fs - pos);
                assert(parse_record_seq(recs.skip(pos as int), (count - k) as nat) is None);
                assert(!parse_table_ok(bytes@));
            }
            return Err(Error::Corruption);
        }
        proof {
            assert(recs.skip(pos as int).len() == 0);
            assert(parse_record_seq(recs.skip(pos as int), (count - k) as nat) == Some(
                Seq::<(Seq<u8>, EntryV)>::empty(),
            ));
            assert(entry_pairs(entries@) + Seq::<(Seq<u8>, EntryV)>::empty() =~= entry_pairs(
                entries@,
            ));
            assert(parse_record_seq(recs, count as nat) == Some(entry_pairs(entries@)));
            assert(entry_pairs(entries@).len() == entries@.len());
        }
        if entries.len() == 0 {
            if min_len != 0 || max_len != 0 {
                proof {
                    assert(!parse_table_ok(bytes@));
                }
                return Err(Error::Corruption);
            }
        } else {
            if !bytes_eq(min_key.as_slice(), entries[0].0.as_slice()) {
                proof {
                    assert(entry_pairs(entries@)[0].0 == entries@[0].0@);
                    assert(!parse_table_ok(bytes@));
                }
                return Err(Error::Corruption);
            }
            let last_idx = entries.len() - 1;
            if !bytes_eq(max_key.as_slice(), entries[last_idx].0.as_slice()) {
                proof {
                    assert(entry_pairs(entries@)[entries@.len() - 1].0 == entries@[entries@.len()
                        - 1].0@);
                    assert(!parse_table_ok(bytes@));
                }
                return Err(Error::Corruption);
            }
        }
        let t = SSTable { level, generation, min_key, max_key, entries };
        proof {
            if t.entries@.len() == 0 {
                assert(t.min_key@ =~= Seq::<u8>::empty());
                assert(t.max_key@ =~= Seq::<u8>::empty());
            }
            assert(bytes@.subrange(0, fs as int) == encode_entry_records(t.entries@));
            assert(fs as int == encode_entry_records(t.entry_seq()).len());
            assert(t.min_key@.len() as u32 == min_len_field);
            assert(bytes@.subrange(fs as int, fs as int + 4) == u32_le(
                t.spec_min_key().len() as u32,
            ));
            assert(t.max_key@.len() as u32 == max_len_field);
            assert(bytes@.subrange(p2 as int, p2 as int + 4) == u32_le(
                t.spec_max_key().len() as u32,
            ));
            assert(t.entries@.len() as u32 == count_field);
            assert(bytes@.subrange(p3 as int, p3 as int + 4) == u32_le(
                t.entry_seq().len() as u32,
            ));
            assert(bytes@.subrange(p3 as int + 4, p3 as int + 8) == u32_le(
                SSTABLE_FORMAT_VERSION,
            ));
            assert((16 + t.min_key@.len() + t.max_key@.len()) as u32 == footer_len_field);
            assert(bytes@.subrange(p3 as int + 8, p3 as int + 12) == u32_le(
                (16 + t.spec_min_key().len() + t.spec_max_key().len()) as u32,
            ));
            lemma_assemble_table(bytes@, t, fs as int, p2 as int, p3 as int);
            assert forall|i2: int, j2: int|
                0 <= i2 < j2 < entry_pairs(t.entries@).len() implies lex_lt(
                (#[trigger] entry_pairs(t.entries@)[i2]).0,
                (#[trigger] entry_pairs(t.entries@)[j2]).0,
            ) by {
                assert(entry_pairs(t.entries@)[i2].0 == t.entries@[i2].0@);
                assert(entry_pairs(t.entries@)[j2].0 == t.entries@[j2].0@);
            }
            if t.entries@.len() > 0 {
                assert(entry_pairs(t.entries@)[0].0 == t.entries@[0].0@);
                assert(entry_pairs(t.entries@)[t.entries@.len() - 1].0 == t.entries@[t.entries@.len()
                    - 1].0@);
            }
            assert(parse_table_ok(bytes@));
        }
        Ok(t)
    }
}

} // verus!
