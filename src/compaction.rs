//! Level-0 compaction: when level 0 holds enough tables, its two oldest are
//! merged into one level-1 table, the newer table winning on equal keys.

use vstd::prelude::*;
use crate::manifest::{in_level, tables_view, Manifest, SSTableBasicInfo};
use crate::memtable::{entries_map, entries_view, keys_unique, lemma_entries_map_place, EntryView, MemTable};

verus! {

/// The map that results from writing the entries of `s` in order into `m`.
pub open spec fn apply_entries(m: Map<Seq<char>, Option<Seq<char>>>, s: Seq<EntryView>) -> Map<Seq<char>, Option<Seq<char>>>
    decreases s.len(),
{
    if s.len() == 0 {
        m
    } else {
        apply_entries(m, s.drop_last()).insert(s.last().0, s.last().1)
    }
}

/// Writing entries with distinct keys overlays their map.
pub proof fn lemma_apply_entries(m: Map<Seq<char>, Option<Seq<char>>>, s: Seq<EntryView>)
    requires
        keys_unique(s),
    ensures
        apply_entries(m, s) == m.union_prefer_right(entries_map(s)),
    decreases s.len(),
{
    if s.len() == 0 {
        assert(entries_map(s) =~= Map::<Seq<char>, Option<Seq<char>>>::empty());
        assert(m.union_prefer_right(entries_map(s)) =~= m);
    } else {
        let t = s.drop_last();
        assert(keys_unique(t));
        lemma_apply_entries(m, t);
        assert forall|i: int| 0 <= i < t.len() implies t[i].0 != s.last().0 by {
            assert(t[i] == s[i]);
        }
        lemma_entries_map_place(t, t.len() as int, s.last(), false);
        assert(t.insert(t.len() as int, s.last()) =~= s);
        assert(apply_entries(m, s) =~= m.union_prefer_right(entries_map(s)));
    }
}

/// Merging two tables with distinct keys each: the merged table has the keys
/// of both, and on a key they share, the value of the newer one.
pub proof fn lemma_merge_newer_wins(older: Seq<EntryView>, newer: Seq<EntryView>)
    requires
        keys_unique(older),
        keys_unique(newer),
    ensures
        apply_entries(apply_entries(Map::empty(), older), newer) == entries_map(older).union_prefer_right(entries_map(newer)),
        apply_entries(apply_entries(Map::empty(), older), newer).dom() == entries_map(older).dom() + entries_map(newer).dom(),
        forall|k: Seq<char>| #[trigger] entries_map(newer).contains_key(k) ==> apply_entries(apply_entries(Map::empty(), older), newer)[k] == entries_map(newer)[k],
{
    lemma_apply_entries(Map::empty(), older);
    lemma_apply_entries(apply_entries(Map::empty(), older), newer);
    assert(Map::<Seq<char>, Option<Seq<char>>>::empty().union_prefer_right(entries_map(older)) =~= entries_map(older));
}

/// A memtable holding the entries of `older` overlaid by those of `newer`:
/// the older table's entries are written first, so that on equal keys the
/// newer one's stays. Tombstones are carried over.
pub fn merge(older: &Vec<(String, Option<String>)>, newer: &Vec<(String, Option<String>)>, filter_size: usize) -> (r: MemTable)
    requires
        filter_size > 0,
    ensures
        r.wf(),
        r.map() == apply_entries(apply_entries(Map::empty(), entries_view(older@)), entries_view(newer@)),
{
    let mut result = MemTable::new(filter_size);
    let ghost a = entries_view(older@);
    let ghost b = entries_view(newer@);
    let mut i: usize = 0;
    assert(a.take(0) =~= Seq::<EntryView>::empty());
    while i < older.len()
        invariant
            a == entries_view(older@),
            i <= older@.len(),
            result.wf(),
            result.map() == apply_entries(Map::empty(), a.take(i as int)),
        decreases older@.len() - i,
    {
        add_entry(&mut result, &older[i]);
        proof {
            assert(a.take(i + 1).drop_last() =~= a.take(i as int));
            assert(a.take(i + 1).last() == a[i as int]);
        }
        i = i + 1;
    }
    assert(a.take(i as int) =~= a);
    let mut j: usize = 0;
    assert(b.take(0) =~= Seq::<EntryView>::empty());
    while j < newer.len()
        invariant
            a == entries_view(older@),
            b == entries_view(newer@),
            j <= newer@.len(),
            result.wf(),
            result.map() == apply_entries(apply_entries(Map::empty(), a), b.take(j as int)),
        decreases newer@.len() - j,
    {
        add_entry(&mut result, &newer[j]);
        proof {
            assert(b.take(j + 1).drop_last() =~= b.take(j as int));
            assert(b.take(j + 1).last() == b[j as int]);
        }
        j = j + 1;
    }
    assert(b.take(j as int) =~= b);
    result
}

/// Writes one entry, value or tombstone, into `res`.
fn add_entry(res: &mut MemTable, entry: &(String, Option<String>))
    requires
        old(res).wf(),
    ensures
        final(res).wf(),
        final(res).map() == old(res).map().insert(entry.0@, crate::memtable::value_view(entry.1)),
{
    match &entry.1 {
        Some(value) => res.add(entry.0.as_str(), value.as_str()),
        None => res.delete(entry.0.as_str()),
    }
}

pub struct CompactionManager {
    l0_file_count_limit: usize,
}

impl CompactionManager {
    pub closed spec fn limit(&self) -> usize {
        self.l0_file_count_limit
    }

    pub fn new(l0_file_count_limit: usize) -> (r: Self)
        ensures
            r.limit() == l0_file_count_limit,
    {
        CompactionManager { l0_file_count_limit }
    }

    /// The two level-0 tables to merge now: the two oldest, once level 0
    /// holds at least the limit (and at least two); otherwise none.
    pub fn monitor_l0(&self, manifest: &Manifest) -> (r: Vec<SSTableBasicInfo>)
        ensures
            ({
                let l0 = in_level(manifest.tables(), 0);
                if l0.len() >= self.limit() && l0.len() >= 2 {
                    tables_view(r@) == l0.take(2)
                } else {
                    r@.len() == 0
                }
            }),
    {
        let l0 = manifest.ss_tables_in_level(0);
        if l0.len() >= self.l0_file_count_limit && l0.len() >= 2 {
            manifest.compaction_nominees(0)
        } else {
            Vec::new()
        }
    }
}

} // verus!
