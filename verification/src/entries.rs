//! Sorted key/value entry sequences, shared by the memtable and the SSTables.
//!
//! Both structures hold a sequence of `(key, value-or-tombstone)` pairs whose
//! keys are unique and byte-lexicographically sorted. The abstract content of
//! such a sequence is the map from each key to its entry, and every contract
//! in the read and write paths is stated over that map.

use vstd::prelude::*;
use vstd::map::*;
use crate::order::lex_lt;
use crate::order::lex_cmp;
use crate::order::bytes_eq;
use crate::order::KeyOrder;
use crate::order::lemma_lex_lt_irrefl;
use crate::order::lemma_lex_lt_trans;

verus! {

/// A stored value: live bytes, or a tombstone marking the key deleted.
///
/// A tombstone is distinct from absence: it shadows older values for the same
/// key held in lower generations.
#[derive(Clone, Debug)]
pub enum EntryValue {
    Value(Vec<u8>),
    Tombstone,
}

/// The mathematical twin of `EntryValue`, over byte sequences.
pub enum EntryV {
    Value(Seq<u8>),
    Tombstone,
}

impl View for EntryValue {
    type V = EntryV;

    open spec fn view(&self) -> EntryV {
        match self {
            EntryValue::Value(v) => EntryV::Value(v@),
            EntryValue::Tombstone => EntryV::Tombstone,
        }
    }
}

/// An entry pairs a key with a value or tombstone.
pub type Entry = (Vec<u8>, EntryValue);

/// Keys appear in strictly ascending byte-lexicographic order.
pub open spec fn sorted_by_key(s: Seq<Entry>) -> bool {
    forall|i: int, j: int| 0 <= i < j < s.len() ==> #[trigger] lex_lt(s[i].0@, s[j].0@)
}

/// No key appears twice.
pub open spec fn distinct_keys(s: Seq<Entry>) -> bool {
    forall|i: int, j: int| 0 <= i < j < s.len() ==> (#[trigger] s[i]).0@ != (#[trigger] s[j]).0@
}

/// The abstract content of an entry sequence: the map from keys to entries.
/// When a key repeats, the later occurrence wins.
pub open spec fn kv_map(s: Seq<Entry>) -> Map<Seq<u8>, EntryV>
    decreases s.len(),
{
    if s.len() == 0 {
        Map::empty()
    } else {
        kv_map(s.drop_last()).insert(s.last().0@, s.last().1@)
    }
}

/// Strictly sorted keys are in particular unique.
pub proof fn lemma_sorted_distinct(s: Seq<Entry>)
    requires
        sorted_by_key(s),
    ensures
        distinct_keys(s),
{
    assert forall|i: int, j: int| 0 <= i < j < s.len() implies (#[trigger] s[i]).0@ != (
    #[trigger] s[j]).0@ by {
        assert(lex_lt(s[i].0@, s[j].0@));
        lemma_lex_lt_irrefl(s[i].0@);
    }
}

/// Over unique keys, the content map holds exactly the keys of the sequence,
/// each bound to its entry's value.
pub proof fn lemma_kv_map_props(s: Seq<Entry>)
    requires
        distinct_keys(s),
    ensures
        forall|i: int|
            0 <= i < s.len() ==> kv_map(s).contains_key((#[trigger] s[i]).0@) && kv_map(s)[s[i].0@]
                == s[i].1@,
        forall|k: Seq<u8>|
            kv_map(s).contains_key(k) ==> exists|i: int| 0 <= i < s.len() && (#[trigger] s[i]).0@
                == k,
    decreases s.len(),
{
    if s.len() > 0 {
        let dl = s.drop_last();
        assert forall|i: int, j: int| 0 <= i < j < dl.len() implies (#[trigger] dl[i]).0@ != (
        #[trigger] dl[j]).0@ by {
            assert(dl[i] == s[i]);
            assert(dl[j] == s[j]);
        }
        lemma_kv_map_props(dl);
        assert forall|i: int|
            0 <= i < s.len() implies kv_map(s).contains_key((#[trigger] s[i]).0@) && kv_map(
            s,
        )[s[i].0@] == s[i].1@ by {
            if i < s.len() - 1 {
                assert(dl[i] == s[i]);
                assert(s[i].0@ != s[s.len() - 1].0@);
                assert(s.last() == s[s.len() - 1]);
            }
        }
        assert forall|k: Seq<u8>| kv_map(s).contains_key(k) implies exists|i: int|
            0 <= i < s.len() && (#[trigger] s[i]).0@ == k by {
            if k == s.last().0@ {
                assert((s[s.len() - 1]).0@ == k);
            } else {
                assert(kv_map(dl).contains_key(k));
                let i = choose|i: int| 0 <= i < dl.len() && (#[trigger] dl[i]).0@ == k;
                assert((s[i]).0@ == k);
            }
        }
    }
}

/// Inserting an entry whose key is fresh adds exactly that binding to the map,
/// wherever in the sequence it is placed.
pub proof fn lemma_kv_map_insert_at(s: Seq<Entry>, i: int, e: Entry)
    requires
        0 <= i <= s.len(),
        forall|j: int| 0 <= j < s.len() ==> (#[trigger] s[j]).0@ != e.0@,
    ensures
        kv_map(s.insert(i, e)) == kv_map(s).insert(e.0@, e.1@),
    decreases s.len(),
{
    let s2 = s.insert(i, e);
    if i == s.len() {
        assert(s2.last() == e);
        assert(s2.drop_last() =~= s);
    } else {
        assert(s2.last() == s.last());
        assert(s2.drop_last() =~= s.drop_last().insert(i, e));
        let dl = s.drop_last();
        assert forall|j: int| 0 <= j < dl.len() implies (#[trigger] dl[j]).0@ != e.0@ by {
            assert(dl[j] == s[j]);
        }
        lemma_kv_map_insert_at(dl, i, e);
        assert(s[s.len() - 1].0@ != e.0@);
        assert(kv_map(s2) == kv_map(dl).insert(e.0@, e.1@).insert(s.last().0@, s.last().1@));
        assert_maps_equal!(
            kv_map(dl).insert(e.0@, e.1@).insert(s.last().0@, s.last().1@),
            kv_map(dl).insert(s.last().0@, s.last().1@).insert(e.0@, e.1@),
        );
    }
}

/// Replacing the entry at a key's position rebinds exactly that key.
pub proof fn lemma_kv_map_update(s: Seq<Entry>, i: int, e: Entry)
    requires
        distinct_keys(s),
        0 <= i < s.len(),
        s[i].0@ == e.0@,
    ensures
        kv_map(s.update(i, e)) == kv_map(s).insert(e.0@, e.1@),
    decreases s.len(),
{
    let s2 = s.update(i, e);
    let dl = s.drop_last();
    if i == s.len() - 1 {
        assert(s2.last() == e);
        assert(s2.drop_last() =~= dl);
        assert_maps_equal!(
            kv_map(dl).insert(e.0@, e.1@),
            kv_map(dl).insert(s.last().0@, s.last().1@).insert(e.0@, e.1@),
        );
    } else {
        assert(s2.last() == s.last());
        assert(s2.drop_last() =~= dl.update(i, e));
        assert forall|p: int, q: int| 0 <= p < q < dl.len() implies (#[trigger] dl[p]).0@ != (
        #[trigger] dl[q]).0@ by {
            assert(dl[p] == s[p]);
            assert(dl[q] == s[q]);
        }
        assert(dl[i] == s[i]);
        lemma_kv_map_update(dl, i, e);
        assert(kv_map(s2) == kv_map(dl).insert(e.0@, e.1@).insert(s.last().0@, s.last().1@));
        assert(s[s.len() - 1].0@ != s[i].0@);
        assert_maps_equal!(
            kv_map(dl).insert(e.0@, e.1@).insert(s.last().0@, s.last().1@),
            kv_map(dl).insert(s.last().0@, s.last().1@).insert(e.0@, e.1@),
        );
    }
}

/// A key below the first key of a sorted sequence is absent from it.
pub proof fn lemma_below_min_absent(s: Seq<Entry>, k: Seq<u8>)
    requires
        sorted_by_key(s),
        s.len() > 0,
        lex_lt(k, s[0].0@),
    ensures
        !kv_map(s).contains_key(k),
{
    lemma_sorted_distinct(s);
    lemma_kv_map_props(s);
    if kv_map(s).contains_key(k) {
        let i = choose|i: int| 0 <= i < s.len() && (#[trigger] s[i]).0@ == k;
        if i > 0 {
            assert(lex_lt(s[0].0@, s[i].0@));
            lemma_lex_lt_trans(k, s[0].0@, s[i].0@);
        }
        lemma_lex_lt_irrefl(k);
    }
}

/// A key above the last key of a sorted sequence is absent from it.
pub proof fn lemma_above_max_absent(s: Seq<Entry>, k: Seq<u8>)
    requires
        sorted_by_key(s),
        s.len() > 0,
        lex_lt(s[s.len() - 1].0@, k),
    ensures
        !kv_map(s).contains_key(k),
{
    lemma_sorted_distinct(s);
    lemma_kv_map_props(s);
    if kv_map(s).contains_key(k) {
        let i = choose|i: int| 0 <= i < s.len() && (#[trigger] s[i]).0@ == k;
        if i < s.len() - 1 {
            assert(lex_lt(s[i].0@, s[s.len() - 1].0@));
            lemma_lex_lt_trans(s[i].0@, s[s.len() - 1].0@, k);
        }
        lemma_lex_lt_irrefl(k);
    }
}

/// Looks a key up in an entry sequence with unique keys.
///
/// Returns the entry bound to `key` in the sequence's content map, or `None`
/// when the key is absent.
pub fn entries_get<'a>(entries: &'a Vec<Entry>, key: &[u8]) -> (r: Option<&'a EntryValue>)
    requires
        distinct_keys(entries@),
    ensures
        match r {
            Some(v) => kv_map(entries@).contains_key(key@) && v@ == kv_map(entries@)[key@],
            None => !kv_map(entries@).contains_key(key@),
        },
{
    proof {
        lemma_kv_map_props(entries@);
    }
    let n: usize = entries.len();
    let mut i: usize = 0;
    while i < n
        invariant
            n == entries@.len(),
            0 <= i <= n,
            distinct_keys(entries@),
            forall|j: int| 0 <= j < i ==> (#[trigger] entries@[j]).0@ != key@,
        decreases n - i,
    {
        if bytes_eq(entries[i].0.as_slice(), key) {
            proof {
                lemma_kv_map_props(entries@);
            }
            return Some(&entries[i].1);
        }
        i = i + 1;
    }
    proof {
        if kv_map(entries@).contains_key(key@) {
            let j = choose|j: int| 0 <= j < entries@.len() && (#[trigger] entries@[j]).0@ == key@;
        }
    }
    None
}

/// Inserts or replaces an entry in a sorted sequence, keeping it sorted.
///
/// The content map afterwards is the old map with `key` bound to `value`;
/// nothing else changes (last-write-wins within one table).
pub fn sorted_upsert(entries: &mut Vec<Entry>, key: Vec<u8>, value: EntryValue)
    requires
        sorted_by_key(old(entries)@),
    ensures
        sorted_by_key(final(entries)@),
        kv_map(final(entries)@) == kv_map(old(entries)@).insert(key@, value@),
        final(entries)@.len() <= old(entries)@.len() + 1,
{
    let ghost s0 = entries@;
    let n: usize = entries.len();
    let mut i: usize = 0;
    while i < n
        invariant
            n == entries@.len(),
            0 <= i <= n,
            entries@ == s0,
            s0 == old(entries)@,
            sorted_by_key(s0),
            forall|j: int| 0 <= j < i ==> lex_lt((#[trigger] s0[j]).0@, key@),
        decreases n - i,
    {
        let c = lex_cmp(entries[i].0.as_slice(), key.as_slice());
        match c {
            KeyOrder::Equal => {
                proof {
                    lemma_sorted_distinct(s0);
                }
                let slot = &mut entries[i].1;
                *slot = value;
                proof {
                    assert(entries@ =~= s0.update(i as int, (s0[i as int].0, entries@[i as int].1)));
                    lemma_kv_map_update(
                        s0,
                        i as int,
                        (s0[i as int].0, entries@[i as int].1),
                    );
                    assert forall|p: int, q: int|
                        0 <= p < q < entries@.len() implies #[trigger] lex_lt(
                        entries@[p].0@,
                        entries@[q].0@,
                    ) by {
                        assert(entries@[p].0@ == s0[p].0@);
                        assert(entries@[q].0@ == s0[q].0@);
                    }
                }
                return ;
            },
            KeyOrder::Greater => {
                proof {
                    lemma_sorted_distinct(s0);
                    assert forall|j: int| 0 <= j < s0.len() implies (#[trigger] s0[j]).0@ != key@
                    by {
                        if j < i {
                            lemma_lex_lt_irrefl(key@);
                            crate::order::lemma_lex_lt_asym(s0[j].0@, key@);
                        } else if j > i {
                            assert(lex_lt(s0[i as int].0@, s0[j].0@));
                            lemma_lex_lt_trans(key@, s0[i as int].0@, s0[j].0@);
                            lemma_lex_lt_irrefl(key@);
                        } else {
                            lemma_lex_lt_irrefl(key@);
                        }
                    }
                    assert forall|j: int| i <= j < s0.len() implies lex_lt(
                        key@,
                        (#[trigger] s0[j]).0@,
                    ) by {
                        if j > i {
                            assert(lex_lt(s0[i as int].0@, s0[j].0@));
                            lemma_lex_lt_trans(key@, s0[i as int].0@, s0[j].0@);
                        }
                    }
                    lemma_kv_map_insert_at(s0, i as int, (key, value));
                }
                let ghost e: Entry = (key, value);
                entries.insert(i, (key, value));
                proof {
                    assert(entries@ =~= s0.insert(i as int, e));
                    assert forall|p: int, q: int|
                        0 <= p < q < entries@.len() implies #[trigger] lex_lt(
                        entries@[p].0@,
                        entries@[q].0@,
                    ) by {
                        lemma_upsert_sorted_insert(s0, i as int, e, p, q, key@);
                    }
                }
                return ;
            },
            KeyOrder::Less => {
                i = i + 1;
            },
        }
    }
    proof {
        lemma_sorted_distinct(s0);
        assert forall|j: int| 0 <= j < s0.len() implies (#[trigger] s0[j]).0@ != key@ by {
            lemma_lex_lt_irrefl(key@);
            crate::order::lemma_lex_lt_asym(s0[j].0@, key@);
        }
        lemma_kv_map_insert_at(s0, s0.len() as int, (key, value));
    }
    let ghost e: Entry = (key, value);
    entries.push((key, value));
    proof {
        assert(entries@ =~= s0.insert(s0.len() as int, e));
        assert forall|p: int, q: int|
            0 <= p < q < entries@.len() implies #[trigger] lex_lt(
            entries@[p].0@,
            entries@[q].0@,
        ) by {
            lemma_upsert_sorted_insert(s0, s0.len() as int, e, p, q, key@);
        }
    }
}

/// The map with its tombstone bindings removed; only live values remain.
pub open spec fn without_tombstones(m: Map<Seq<u8>, EntryV>) -> Map<Seq<u8>, EntryV> {
    Map::new(|k: Seq<u8>| m.contains_key(k) && m[k] is Value, |k: Seq<u8>| m[k])
}

/// The live values of the map: tombstones and absences both mean "no value".
pub open spec fn live_part(m: Map<Seq<u8>, EntryV>) -> Map<Seq<u8>, Seq<u8>> {
    Map::new(
        |k: Seq<u8>| m.contains_key(k) && m[k] is Value,
        |k: Seq<u8>|
            match m[k] {
                EntryV::Value(v) => v,
                EntryV::Tombstone => Seq::empty(),
            },
    )
}

/// Copies an entry value, preserving its content.
pub fn clone_entry_value(v: &EntryValue) -> (r: EntryValue)
    ensures
        r@ == v@,
{
    match v {
        EntryValue::Value(b) => {
            let c = crate::codec::copy_range(b, 0, b.len());
            proof {
                assert(c@ =~= b@);
            }
            EntryValue::Value(c)
        },
        EntryValue::Tombstone => EntryValue::Tombstone,
    }
}

/// Copies a key, preserving its content.
pub fn clone_key(k: &Vec<u8>) -> (r: Vec<u8>)
    ensures
        r@ == k@,
{
    let c = crate::codec::copy_range(k, 0, k.len());
    proof {
        assert(c@ =~= k@);
    }
    c
}

/// After inserting `e` at position `i`, where everything before `i` is below
/// `e`'s key and everything from `i` on is above it, any two positions of the
/// new sequence are still in order.
proof fn lemma_upsert_sorted_insert(s: Seq<Entry>, i: int, e: Entry, p: int, q: int, k: Seq<u8>)
    requires
        sorted_by_key(s),
        0 <= i <= s.len(),
        e.0@ == k,
        forall|j: int| 0 <= j < i ==> lex_lt((#[trigger] s[j]).0@, k),
        forall|j: int| i <= j < s.len() ==> lex_lt(k, (#[trigger] s[j]).0@),
        0 <= p < q < s.insert(i, e).len(),
    ensures
        lex_lt(s.insert(i, e)[p].0@, s.insert(i, e)[q].0@),
{
    let s2 = s.insert(i, e);
    if p < i {
        assert(s2[p] == s[p]);
    } else if p == i {
        assert(s2[p] == e);
    } else {
        assert(s2[p] == s[p - 1]);
    }
    if q < i {
        assert(s2[q] == s[q]);
    } else if q == i {
        assert(s2[q] == e);
    } else {
        assert(s2[q] == s[q - 1]);
    }
}

} // verus!
