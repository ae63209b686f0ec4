//! Per-table metadata kept in memory: each live table's membership filter
//! and block index, keyed by the table's path.

use vstd::prelude::*;
use crate::bloom_filter::{admits, BloomFilter};
use crate::order::{compare_keys, key_lt, lemma_key_lt_asymmetric, lemma_key_lt_irreflexive};
use crate::ss_table::{record_view, records_view, IndexRecord, RecordView};

verus! {

/// Filter bits and index of one table.
pub type TableMeta = (Seq<bool>, Seq<RecordView>);

/// Record of `recs` whose key range holds `k`: the first with
/// `start <= k <= end`.
pub open spec fn locate(recs: Seq<RecordView>, k: Seq<char>) -> Option<(u64, u64)>
    decreases recs.len(),
{
    if recs.len() == 0 {
        None
    } else if !key_lt(k, recs[0].0) && !key_lt(recs[0].1, k) {
        Some((recs[0].2, recs[0].3))
    } else {
        locate(recs.drop_first(), k)
    }
}

/// `p` is one of the strings of `v`.
pub open spec fn listed(v: Seq<String>, p: Seq<char>) -> bool {
    exists|j: int| 0 <= j < v.len() && #[trigger] v[j]@ == p
}

struct CachedTable {
    path: String,
    filter: BloomFilter,
    index: Vec<IndexRecord>,
}

impl CachedTable {
    spec fn view(&self) -> (Seq<char>, TableMeta) {
        (self.path@, (self.filter.bits(), records_view(self.index@)))
    }
}

spec fn cached_view(v: Seq<CachedTable>) -> Seq<(Seq<char>, TableMeta)> {
    v.map_values(|t: CachedTable| t.view())
}

spec fn paths_unique(s: Seq<(Seq<char>, TableMeta)>) -> bool {
    forall|i: int, j: int| 0 <= i < s.len() && 0 <= j < s.len() && i != j ==> #[trigger] s[i].0 != #[trigger] s[j].0
}

spec fn meta_map(s: Seq<(Seq<char>, TableMeta)>) -> Map<Seq<char>, TableMeta> {
    Map::new(
        |p: Seq<char>| exists|i: int| 0 <= i < s.len() && s[i].0 == p,
        |p: Seq<char>| s[choose|i: int| 0 <= i < s.len() && s[i].0 == p].1,
    )
}

proof fn lemma_meta_map_at(s: Seq<(Seq<char>, TableMeta)>, i: int)
    requires
        paths_unique(s),
        0 <= i < s.len(),
    ensures
        meta_map(s).contains_key(s[i].0),
        meta_map(s)[s[i].0] == s[i].1,
{
    let p = s[i].0;
    assert(exists|j: int| 0 <= j < s.len() && s[j].0 == p);
    let j = choose|j: int| 0 <= j < s.len() && s[j].0 == p;
    assert(i == j);
}

proof fn lemma_paths_facts(c: &Cache)
    requires
        c.wf(),
    ensures
        c.paths().no_duplicates(),
        forall|p: Seq<char>| #[trigger] c.paths().contains(p) <==> c.view().contains_key(p),
{
    let s = cached_view(c.tables@);
    assert forall|p: Seq<char>| #[trigger] c.paths().contains(p) <==> c.view().contains_key(p) by {
        if c.paths().contains(p) {
            let j = choose|j: int| 0 <= j < c.paths().len() && c.paths()[j] == p;
            assert(s[j].0 == p);
        }
        if c.view().contains_key(p) {
            let j = choose|j: int| 0 <= j < s.len() && s[j].0 == p;
            assert(c.paths()[j] == p);
        }
    }
}

/// Every element kept by a filter comes from the filtered sequence.
proof fn lemma_filter_from(ps: Seq<Seq<char>>, pred: spec_fn(Seq<char>) -> bool, k: int)
    requires
        0 <= k < ps.filter(pred).len(),
    ensures
        ps.contains(ps.filter(pred)[k]),
    decreases ps.len(),
{
    reveal(Seq::filter);
    let rest = ps.drop_last();
    let rf = rest.filter(pred);
    if k < rf.len() {
        lemma_filter_from(rest, pred, k);
        let j = choose|j: int| 0 <= j < rest.len() && rest[j] == rf[k];
        assert(ps[j] == rest[j]);
    } else {
        assert(ps[ps.len() - 1] == ps.last());
    }
}

/// A filtered sequence without duplicates has none.
proof fn lemma_filter_no_dup(ps: Seq<Seq<char>>, pred: spec_fn(Seq<char>) -> bool, a: int, b: int)
    requires
        ps.no_duplicates(),
        0 <= a < ps.filter(pred).len(),
        0 <= b < ps.filter(pred).len(),
        a != b,
    ensures
        ps.filter(pred)[a] != ps.filter(pred)[b],
    decreases ps.len(),
{
    reveal(Seq::filter);
    let f = ps.filter(pred);
    let rest = ps.drop_last();
    assert(rest.no_duplicates());
    if ps.len() > 0 && pred(ps.last()) {
        let rf = rest.filter(pred);
        if a < rf.len() && b < rf.len() {
            lemma_filter_no_dup(rest, pred, a, b);
        } else {
            let k = if a < rf.len() { a } else { b };
            lemma_filter_from(rest, pred, k);
            let j = choose|j: int| 0 <= j < rest.len() && rest[j] == rf[k];
            assert(ps[j] == rest[j]);
            assert(ps[ps.len() - 1] == ps.last());
        }
    } else if ps.len() > 0 {
        lemma_filter_no_dup(rest, pred, a, b);
    }
}

pub struct Cache {
    tables: Vec<CachedTable>,
}

pub open spec fn strings_view(v: Seq<String>) -> Seq<Seq<char>> {
    v.map_values(|x: String| x@)
}

/// The filter cached for path `p` in `v` admits `key`.
pub open spec fn admitted_by(v: Map<Seq<char>, TableMeta>, key: Seq<char>) -> spec_fn(Seq<char>) -> bool {
    |p: Seq<char>| admits(v[p].0, key)
}

impl Cache {
    /// Paths of the cached tables, in the order they were first added.
    pub closed spec fn paths(&self) -> Seq<Seq<char>> {
        cached_view(self.tables@).map_values(|t: (Seq<char>, TableMeta)| t.0)
    }

    /// Path of each cached table to its filter bits and index.
    pub closed spec fn view(&self) -> Map<Seq<char>, TableMeta> {
        meta_map(cached_view(self.tables@))
    }

    pub closed spec fn wf(&self) -> bool {
        &&& paths_unique(cached_view(self.tables@))
        &&& forall|i: int| 0 <= i < self.tables@.len() ==> (#[trigger] self.tables@[i]).filter.wf()
    }

    pub fn new() -> (r: Self)
        ensures
            r.wf(),
            r.view() == Map::<Seq<char>, TableMeta>::empty(),
            r.paths() == Seq::<Seq<char>>::empty(),
    {
        let r = Cache { tables: Vec::new() };
        assert(r.view() =~= Map::<Seq<char>, TableMeta>::empty());
        assert(r.paths() =~= Seq::<Seq<char>>::empty());
        r
    }

    fn find(&self, file_name: &str) -> (r: Option<usize>)
        requires
            self.wf(),
        ensures
            r matches Some(i) ==> i < self.tables@.len() && self.tables@[i as int].path@ == file_name@,
            r is None ==> forall|i: int| 0 <= i < self.tables@.len() ==> #[trigger] self.tables@[i].path@ != file_name@,
    {
        let mut i: usize = 0;
        while i < self.tables.len()
            invariant
                i <= self.tables@.len(),
                forall|j: int| 0 <= j < i ==> #[trigger] self.tables@[j].path@ != file_name@,
            decreases self.tables@.len() - i,
        {
            if compare_keys(self.tables[i].path.as_str(), file_name) == 0 {
                return Some(i);
            }
            i = i + 1;
        }
        None
    }

    /// Caches the filter and index of the table at `file_name`, replacing
    /// what was cached for it.
    pub fn add(&mut self, file_name: &str, bloom_filter: BloomFilter, index_vector: Vec<IndexRecord>)
        requires
            old(self).wf(),
            bloom_filter.wf(),
        ensures
            final(self).wf(),
            final(self).view() == old(self).view().insert(file_name@, (bloom_filter.bits(), records_view(index_vector@))),
            old(self).view().contains_key(file_name@) ==> final(self).paths() == old(self).paths(),
            !old(self).view().contains_key(file_name@) ==> final(self).paths() == old(self).paths().push(file_name@),
    {
        let ghost s = cached_view(self.tables@);
        let ghost meta = (bloom_filter.bits(), records_view(index_vector@));
        let entry = CachedTable { path: file_name.to_owned(), filter: bloom_filter, index: index_vector };
        let found = self.find(file_name);
        match found {
            Some(i) => {
                self.tables.set(i, entry);
                proof {
                    let t = cached_view(self.tables@);
                    assert(t =~= s.update(i as int, (file_name@, meta)));
                    assert(s[i as int].0 == file_name@);
                    assert(self.paths() =~= old(self).paths());
                    lemma_meta_map_at(s, i as int);
                    assert forall|j: int| 0 <= j < t.len() implies #[trigger] t[j].0 == s[j].0 by {}
                    assert(paths_unique(t));
                    assert forall|p: Seq<char>| #[trigger] meta_map(t).contains_key(p) <==> meta_map(s).insert(file_name@, meta).contains_key(p) by {
                        if meta_map(t).contains_key(p) && p != file_name@ {
                            let j = choose|j: int| 0 <= j < t.len() && t[j].0 == p;
                            assert(s[j].0 == p);
                        }
                        if meta_map(s).contains_key(p) {
                            let j = choose|j: int| 0 <= j < s.len() && s[j].0 == p;
                            assert(t[j].0 == p);
                        }
                        if p == file_name@ {
                            assert(t[i as int].0 == p);
                        }
                    }
                    assert forall|p: Seq<char>| #[trigger] meta_map(t).contains_key(p) implies meta_map(t)[p] == meta_map(s).insert(file_name@, meta)[p] by {
                        let j = choose|j: int| 0 <= j < t.len() && t[j].0 == p;
                        lemma_meta_map_at(t, j);
                        if p != file_name@ {
                            lemma_meta_map_at(s, j);
                        }
                    }
                    assert(meta_map(t) =~= meta_map(s).insert(file_name@, meta));
                }
            },
            None => {
                self.tables.push(entry);
                proof {
                    let t = cached_view(self.tables@);
                    assert(t =~= s.push((file_name@, meta)));
                    assert(self.paths() =~= old(self).paths().push(file_name@));
                    assert(!meta_map(s).contains_key(file_name@)) by {
                        if meta_map(s).contains_key(file_name@) {
                            let j = choose|j: int| 0 <= j < s.len() && s[j].0 == file_name@;
                            assert(old(self).tables@[j].path@ == file_name@);
                        }
                    }
                    assert(paths_unique(t));
                    assert forall|p: Seq<char>| #[trigger] meta_map(t).contains_key(p) <==> meta_map(s).insert(file_name@, meta).contains_key(p) by {
                        if meta_map(t).contains_key(p) && p != file_name@ {
                            let j = choose|j: int| 0 <= j < t.len() && t[j].0 == p;
                            assert(s[j].0 == p);
                        }
                        if meta_map(s).contains_key(p) {
                            let j = choose|j: int| 0 <= j < s.len() && s[j].0 == p;
                            assert(t[j].0 == p);
                        }
                        if p == file_name@ {
                            assert(t[s.len() as int].0 == p);
                        }
                    }
                    assert forall|p: Seq<char>| #[trigger] meta_map(t).contains_key(p) implies meta_map(t)[p] == meta_map(s).insert(file_name@, meta)[p] by {
                        let j = choose|j: int| 0 <= j < t.len() && t[j].0 == p;
                        lemma_meta_map_at(t, j);
                        if p != file_name@ {
                            lemma_meta_map_at(s, j);
                        }
                    }
                    assert(meta_map(t) =~= meta_map(s).insert(file_name@, meta));
                }
            },
        }
    }

    /// Forgets the table at `file_name`.
    pub fn remove(&mut self, file_name: &str)
        requires
            old(self).wf(),
        ensures
            final(self).wf(),
            final(self).view() == old(self).view().remove(file_name@),
            !old(self).view().contains_key(file_name@) ==> final(self).paths() == old(self).paths(),
            old(self).view().contains_key(file_name@) ==> exists|i: int| 0 <= i < old(self).paths().len()
                && old(self).paths()[i] == file_name@ && final(self).paths() == old(self).paths().remove(i),
    {
        let ghost s = cached_view(self.tables@);
        match self.find(file_name) {
            Some(i) => {
                self.tables.remove(i);
                proof {
                    let t = cached_view(self.tables@);
                    assert(t =~= s.remove(i as int));
                    assert(s[i as int].0 == file_name@);
                    assert(self.paths() =~= old(self).paths().remove(i as int));
                    assert(old(self).paths()[i as int] == file_name@);
                    assert(paths_unique(t)) by {
                        assert forall|a: int, b: int| 0 <= a < t.len() && 0 <= b < t.len() && a != b implies #[trigger] t[a].0 != #[trigger] t[b].0 by {
                            let oa = if a < i { a } else { a + 1 };
                            let ob = if b < i { b } else { b + 1 };
                            assert(t[a] == s[oa]);
                            assert(t[b] == s[ob]);
                        }
                    }
                    assert forall|j: int| 0 <= j < self.tables@.len() implies (#[trigger] self.tables@[j]).filter.wf() by {
                        let oj = if j < i { j } else { j + 1 };
                        assert(self.tables@[j] == old(self).tables@[oj]);
                    }
                    let m = meta_map(s).remove(file_name@);
                    assert forall|p: Seq<char>| #[trigger] meta_map(t).contains_key(p) <==> m.contains_key(p) by {
                        if meta_map(t).contains_key(p) {
                            let j = choose|j: int| 0 <= j < t.len() && t[j].0 == p;
                            let oj = if j < i { j } else { j + 1 };
                            assert(s[oj].0 == p);
                            assert(oj != i);
                            assert(p != file_name@);
                        }
                        if m.contains_key(p) {
                            let j = choose|j: int| 0 <= j < s.len() && s[j].0 == p;
                            assert(j != i);
                            if j < i {
                                assert(t[j].0 == p);
                            } else {
                                assert(t[j - 1].0 == p);
                            }
                        }
                    }
                    assert forall|p: Seq<char>| #[trigger] meta_map(t).contains_key(p) implies meta_map(t)[p] == m[p] by {
                        let j = choose|j: int| 0 <= j < t.len() && t[j].0 == p;
                        let oj = if j < i { j } else { j + 1 };
                        lemma_meta_map_at(t, j);
                        lemma_meta_map_at(s, oj);
                    }
                    assert(meta_map(t) =~= m);
                }
            },
            None => {
                proof {
                    assert(!meta_map(s).contains_key(file_name@));
                    assert(meta_map(s).remove(file_name@) =~= meta_map(s));
                }
            },
        }
    }

    /// Whether the table at `file_name` is cached and its filter admits `key`.
    pub fn admits(&self, file_name: &str, key: &str) -> (r: bool)
        requires
            self.wf(),
        ensures
            r == (self.view().contains_key(file_name@) && admits(self.view()[file_name@].0, key@)),
    {
        let ghost s = cached_view(self.tables@);
        match self.find(file_name) {
            Some(i) => {
                proof {
                    lemma_meta_map_at(s, i as int);
                }
                self.tables[i].filter.contains(key)
            },
            None => {
                proof {
                    if meta_map(s).contains_key(file_name@) {
                        let j = choose|j: int| 0 <= j < s.len() && s[j].0 == file_name@;
                        assert(self.tables@[j].path@ == file_name@);
                    }
                }
                false
            },
        }
    }

    /// Paths of the cached tables whose filter admits `key`, each once, in
    /// the order of `paths`.
    pub fn get(&self, key: &str) -> (r: Vec<String>)
        requires
            self.wf(),
        ensures
            strings_view(r@) == self.paths().filter(admitted_by(self.view(), key@)),
            strings_view(r@).no_duplicates(),
            forall|p: Seq<char>| #[trigger] listed(r@, p) <==> (self.view().contains_key(p) && admits(self.view()[p].0, key@)),
    {
        let ghost s = cached_view(self.tables@);
        let ghost ps = self.paths();
        let ghost pred = admitted_by(self.view(), key@);
        let mut out: Vec<String> = Vec::new();
        let mut i: usize = 0;
        proof {
            reveal(Seq::filter);
            assert(ps.take(0).filter(pred) =~= Seq::<Seq<char>>::empty());
            assert(strings_view(out@) =~= Seq::<Seq<char>>::empty());
        }
        while i < self.tables.len()
            invariant
                s == cached_view(self.tables@),
                ps == self.paths(),
                pred == admitted_by(self.view(), key@),
                self.wf(),
                i <= s.len(),
                strings_view(out@) == ps.take(i as int).filter(pred),
            decreases s.len() - i,
        {
            let ghost before = out@;
            let hit = self.tables[i].filter.contains(key);
            if hit {
                out.push(self.tables[i].path.clone());
            }
            proof {
                reveal(Seq::filter);
                lemma_meta_map_at(s, i as int);
                assert(ps[i as int] == s[i as int].0);
                assert(ps.take(i + 1).drop_last() =~= ps.take(i as int));
                assert(ps.take(i + 1).last() == ps[i as int]);
                assert(hit == pred(ps[i as int]));
                if hit {
                    assert(strings_view(out@) =~= strings_view(before).push(ps[i as int]));
                } else {
                    assert(strings_view(out@) =~= strings_view(before));
                }
            }
            i = i + 1;
        }
        proof {
            assert(ps.take(i as int) =~= ps);
            lemma_paths_facts(self);
            let f = ps.filter(pred);
            f.filter_lemma(pred);
            ps.lemma_filter_len(pred);
            assert forall|a: int, b: int| 0 <= a < f.len() && 0 <= b < f.len() && a != b implies f[a] != f[b] by {
                lemma_filter_no_dup(ps, pred, a, b);
            }
            assert forall|p: Seq<char>| #[trigger] listed(out@, p) <==> (self.view().contains_key(p) && admits(self.view()[p].0, key@)) by {
                if listed(out@, p) {
                    let j = choose|j: int| 0 <= j < out@.len() && #[trigger] out@[j]@ == p;
                    assert(strings_view(out@)[j] == p);
                    lemma_filter_from(ps, pred, j);
                    assert(ps.contains(p));
                }
                if self.view().contains_key(p) && admits(self.view()[p].0, key@) {
                    let j = choose|j: int| 0 <= j < s.len() && s[j].0 == p;
                    assert(ps[j] == p);
                    assert(pred(p));
                    f.filter_lemma(pred);
                    ps.lemma_filter_contains_rev(pred, p);
                    assert(f.contains(p));
                    let k = choose|k: int| 0 <= k < f.len() && f[k] == p;
                    assert(out@[k]@ == p);
                }
            }
        }
        out
    }

    /// Offset and size of the block of table `file_name` whose key range
    /// holds `key`: the first such record of its index.
    pub fn seek_position(&self, file_name: &str, key: &str) -> (r: Option<(u64, u64)>)
        requires
            self.wf(),
        ensures
            r == (if self.view().contains_key(file_name@) {
                locate(self.view()[file_name@].1, key@)
            } else {
                None
            }),
    {
        let ghost s = cached_view(self.tables@);
        let i = match self.find(file_name) {
            Some(i) => i,
            None => {
                proof {
                    if meta_map(s).contains_key(file_name@) {
                        let j = choose|j: int| 0 <= j < s.len() && s[j].0 == file_name@;
                        assert(self.tables@[j].path@ == file_name@);
                    }
                }
                return None;
            },
        };
        proof {
            lemma_meta_map_at(s, i as int);
        }
        let index = &self.tables[i].index;
        let ghost recs = records_view(index@);
        assert(s[i as int].0 == file_name@);
        assert(s[i as int].1.1 == recs);
        let mut k: usize = 0;
        assert(recs.skip(0) =~= recs);
        while k < index.len()
            invariant
                recs == records_view(index@),
                self.view().contains_key(file_name@),
                self.view()[file_name@].1 == recs,
                k <= index@.len(),
                locate(recs, key@) == locate(recs.skip(k as int), key@),
            decreases index@.len() - k,
        {
            assert(recs.skip(k as int)[0] == record_view(index@[k as int]));
            let lo = compare_keys(index[k].start.as_str(), key);
            let hi = compare_keys(index[k].end.as_str(), key);
            if lo <= 0 && hi >= 0 {
                proof {
                    lemma_key_lt_asymmetric(index@[k as int].start@, key@);
                    lemma_key_lt_asymmetric(key@, index@[k as int].end@);
                    lemma_key_lt_irreflexive(key@);
                    assert(recs.skip(k as int).len() > 0);
                    assert(locate(recs.skip(k as int), key@) == Some((index@[k as int].offset, index@[k as int].size)));
                }
                return Some((index[k].offset, index[k].size));
            }
            assert(recs.skip(k as int).drop_first() =~= recs.skip(k + 1));
            k = k + 1;
        }
        None
    }
}

} // verus!
