//! The compactor: merges several SSTables into one larger table.
//!
//! Inputs are handed over in ascending generation order; on a shared key the
//! entry from the highest generation survives, so the merged table's content
//! is `merged_kv` of the inputs. When the merge subsumes all data that its
//! tombstones could be shadowing — the caller merges every table holding
//! older data in the same pass — tombstones are dropped as well; otherwise
//! they survive, since dropping one could resurrect a stale value from an
//! older table outside the pass.

use vstd::prelude::*;
use vstd::map::*;
use crate::entries::Entry;
use crate::entries::EntryValue;
use crate::entries::EntryV;
use crate::entries::sorted_by_key;
use crate::entries::kv_map;
use crate::entries::without_tombstones;
use crate::entries::lemma_sorted_distinct;
use crate::entries::lemma_kv_map_props;
use crate::entries::clone_entry_value;
use crate::entries::clone_key;
use crate::entries::sorted_upsert;
use crate::order::lex_lt;
use crate::sstable::SSTable;
use crate::sstable::merged_kv;

verus! {

/// Filters a sorted entry sequence down to its live values.
fn strip_tombstones(entries: &Vec<Entry>) -> (r: Vec<Entry>)
    requires
        sorted_by_key(entries@),
    ensures
        sorted_by_key(r@),
        kv_map(r@) == without_tombstones(kv_map(entries@)),
{
    let n: usize = entries.len();
    let mut r: Vec<Entry> = Vec::new();
    let mut i: usize = 0;
    proof {
        lemma_sorted_distinct(entries@);
        assert(entries@.subrange(0, 0) =~= Seq::<Entry>::empty());
        assert(kv_map(r@) =~= Map::<Seq<u8>, EntryV>::empty());
        assert_maps_equal!(
            without_tombstones(kv_map(entries@.subrange(0, 0))),
            Map::<Seq<u8>, EntryV>::empty(),
        );
    }
    while i < n
        invariant
            0 <= i <= n,
            n == entries@.len(),
            sorted_by_key(entries@),
            crate::entries::distinct_keys(entries@),
            sorted_by_key(r@),
            kv_map(r@) == without_tombstones(kv_map(entries@.subrange(0, i as int))),
            forall|a: int, b: int|
                0 <= a < r@.len() && i <= b < n ==> lex_lt(
                    (#[trigger] r@[a]).0@,
                    (#[trigger] entries@[b]).0@,
                ),
        decreases n - i,
    {
        let ghost pre = entries@.subrange(0, i as int);
        let ghost post = entries@.subrange(0, i as int + 1);
        proof {
            assert(post.drop_last() =~= pre);
            assert(post.last() == entries@[i as int]);
            lemma_kv_map_props(pre);
            assert forall|j: int| 0 <= j < pre.len() implies (#[trigger] pre[j]).0@
                != entries@[i as int].0@ by {
                assert(pre[j] == entries@[j]);
            }
        }
        let is_value = matches!(&entries[i].1, EntryValue::Value(_));
        if is_value {
            let key = clone_key(&entries[i].0);
            let val = clone_entry_value(&entries[i].1);
            let ghost r0 = r@;
            r.push((key, val));
            proof {
                assert(r@ =~= r0.push((key, val)));
                assert(r@.drop_last() =~= r0);
                assert(r@.last().0@ == entries@[i as int].0@);
                assert(r@.last().1@ == entries@[i as int].1@);
                assert forall|a: int, b: int|
                    0 <= a < b < r@.len() implies #[trigger] lex_lt(r@[a].0@, r@[b].0@) by {
                    if b < r@.len() - 1 {
                        assert(r@[a] == r0[a]);
                        assert(r@[b] == r0[b]);
                    } else {
                        assert(r@[a] == r0[a]);
                    }
                }
                assert(kv_map(r@) == kv_map(r0).insert(entries@[i as int].0@, entries@[i as int].1@));
                assert(kv_map(post) == kv_map(pre).insert(
                    entries@[i as int].0@,
                    entries@[i as int].1@,
                ));
                assert(entries@[i as int].1@ is Value);
                assert_maps_equal!(
                    without_tombstones(kv_map(pre).insert(entries@[i as int].0@, entries@[i as int].1@)),
                    without_tombstones(kv_map(pre)).insert(entries@[i as int].0@, entries@[i as int].1@),
                );
                assert forall|a: int, b: int|
                    0 <= a < r@.len() && i + 1 <= b < n implies lex_lt(
                        (#[trigger] r@[a]).0@,
                        (#[trigger] entries@[b]).0@,
                    ) by {
                    if a < r@.len() - 1 {
                        assert(r@[a] == r0[a]);
                    } else {
                        assert(r@[a].0@ == entries@[i as int].0@);
                        assert(lex_lt(entries@[i as int].0@, entries@[b].0@));
                    }
                }
            }
        } else {
            proof {
                assert(kv_map(post) == kv_map(pre).insert(
                    entries@[i as int].0@,
                    entries@[i as int].1@,
                ));
                assert(entries@[i as int].1@ is Tombstone);
                assert(!kv_map(pre).contains_key(entries@[i as int].0@));
                assert_maps_equal!(
                    without_tombstones(kv_map(pre).insert(entries@[i as int].0@, entries@[i as int].1@)),
                    without_tombstones(kv_map(pre)),
                );
            }
        }
        i = i + 1;
    }
    proof {
        assert(entries@.subrange(0, n as int) =~= entries@);
    }
    r
}

/// Merges the given tables into a single new table.
///
/// `inputs` must come in ascending generation order: on a shared key the
/// entry of the latest table wins. With `drop_tombstones` the caller asserts
/// that this pass subsumes all older data its tombstones could shadow, and
/// the merged table keeps only live values; without it every surviving
/// tombstone is carried over.
pub fn merge(inputs: &Vec<SSTable>, level: u8, generation: u64, drop_tombstones: bool) -> (t:
    SSTable)
    requires
        forall|i: int| 0 <= i < inputs@.len() ==> (#[trigger] inputs@[i]).wf(),
    ensures
        t.wf(),
        t.spec_level() == level,
        t.spec_generation() == generation,
        !drop_tombstones ==> t@ == merged_kv(inputs@),
        drop_tombstones ==> t@ == without_tombstones(merged_kv(inputs@)),
{
    let n: usize = inputs.len();
    let mut out: Vec<Entry> = Vec::new();
    let mut i: usize = 0;
    proof {
        assert(inputs@.subrange(0, 0) =~= Seq::<SSTable>::empty());
        assert(kv_map(out@) =~= Map::<Seq<u8>, EntryV>::empty());
        assert(merged_kv(inputs@.subrange(0, 0)) =~= Map::<Seq<u8>, EntryV>::empty());
    }
    while i < n
        invariant
            0 <= i <= n,
            n == inputs@.len(),
            forall|p: int| 0 <= p < inputs@.len() ==> (#[trigger] inputs@[p]).wf(),
            sorted_by_key(out@),
            kv_map(out@) == merged_kv(inputs@.subrange(0, i as int)),
        decreases n - i,
    {
        let table = &inputs[i];
        let tes = table.entries();
        let m: usize = tes.len();
        let mut j: usize = 0;
        proof {
            assert(tes@.subrange(0, 0) =~= Seq::<Entry>::empty());
            assert(kv_map(tes@.subrange(0, 0)) =~= Map::<Seq<u8>, EntryV>::empty());
            assert_maps_equal!(
                merged_kv(inputs@.subrange(0, i as int))
                    .union_prefer_right(Map::<Seq<u8>, EntryV>::empty()),
                merged_kv(inputs@.subrange(0, i as int)),
            );
        }
        while j < m
            invariant
                0 <= j <= m,
                0 <= i < n,
                n == inputs@.len(),
                m == tes@.len(),
                tes@ == inputs@[i as int].entry_seq(),
                forall|p: int| 0 <= p < inputs@.len() ==> (#[trigger] inputs@[p]).wf(),
                sorted_by_key(out@),
                kv_map(out@) == merged_kv(inputs@.subrange(0, i as int)).union_prefer_right(
                    kv_map(tes@.subrange(0, j as int)),
                ),
            decreases m - j,
        {
            let key = clone_key(&tes[j].0);
            let val = clone_entry_value(&tes[j].1);
            let ghost out0 = out@;
            let ghost k = tes@[j as int].0@;
            let ghost v = tes@[j as int].1@;
            sorted_upsert(&mut out, key, val);
            proof {
                assert(kv_map(out@) == kv_map(out0).insert(k, v));
                assert(tes@.subrange(0, j as int + 1).drop_last() =~= tes@.subrange(0, j as int));
                assert(tes@.subrange(0, j as int + 1).last() == tes@[j as int]);
                assert(kv_map(tes@.subrange(0, j as int + 1)) == kv_map(
                    tes@.subrange(0, j as int),
                ).insert(k, v));
                assert_maps_equal!(
                    merged_kv(inputs@.subrange(0, i as int))
                        .union_prefer_right(kv_map(tes@.subrange(0, j as int)).insert(k, v)),
                    merged_kv(inputs@.subrange(0, i as int))
                        .union_prefer_right(kv_map(tes@.subrange(0, j as int))).insert(k, v),
                );
            }
            j = j + 1;
        }
        proof {
            assert(tes@.subrange(0, m as int) =~= tes@);
            inputs@[i as int].lemma_view_is_entries();
            assert(kv_map(tes@) == inputs@[i as int]@);
            assert(inputs@.subrange(0, i as int + 1).drop_last() =~= inputs@.subrange(0, i as int));
            assert(inputs@.subrange(0, i as int + 1).last() == inputs@[i as int]);
            assert(merged_kv(inputs@.subrange(0, i as int + 1)) == merged_kv(
                inputs@.subrange(0, i as int),
            ).union_prefer_right(inputs@[i as int]@));
        }
        i = i + 1;
    }
    proof {
        assert(inputs@.subrange(0, n as int) =~= inputs@);
    }
    if drop_tombstones {
        let live = strip_tombstones(&out);
        SSTable::write(level, generation, live)
    } else {
        SSTable::write(level, generation, out)
    }
}

} // verus!
