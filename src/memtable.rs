//! Memtable: an ordered map from key to value or tombstone, with the
//! membership filter of every key that was put into it.

use vstd::prelude::*;
use crate::bloom_filter::{admits, covers, BloomFilter};
use crate::order::{compare_keys, key_lt, lemma_key_lt_irreflexive, lemma_key_lt_total, lemma_key_lt_transitive};

verus! {

/// A key and its value, `None` for a tombstone, as mathematical strings.
pub type EntryView = (Seq<char>, Option<Seq<char>>);

pub open spec fn value_view(v: Option<String>) -> Option<Seq<char>> {
    match v {
        Some(s) => Some(s@),
        None => None,
    }
}

pub open spec fn entry_view(e: (String, Option<String>)) -> EntryView {
    (e.0@, value_view(e.1))
}

pub open spec fn entries_view(v: Seq<(String, Option<String>)>) -> Seq<EntryView> {
    v.map_values(|e: (String, Option<String>)| entry_view(e))
}

/// Keys strictly increase along the sequence.
pub open spec fn sorted(s: Seq<EntryView>) -> bool {
    forall|i: int, j: int| 0 <= i < j < s.len() ==> key_lt(#[trigger] s[i].0, #[trigger] s[j].0)
}

/// No key occurs twice.
pub open spec fn keys_unique(s: Seq<EntryView>) -> bool {
    forall|i: int, j: int| 0 <= i < s.len() && 0 <= j < s.len() && i != j ==> #[trigger] s[i].0 != #[trigger] s[j].0
}

/// The map that a sequence of entries with unique keys stands for.
pub open spec fn entries_map(s: Seq<EntryView>) -> Map<Seq<char>, Option<Seq<char>>> {
    Map::new(
        |k: Seq<char>| exists|i: int| 0 <= i < s.len() && s[i].0 == k,
        |k: Seq<char>| s[choose|i: int| 0 <= i < s.len() && s[i].0 == k].1,
    )
}

/// What a lookup of `k` in map `m` finds: `None` if absent, `Some(None)` for
/// a tombstone, `Some(Some(v))` for a value.
pub open spec fn lookup_of(m: Map<Seq<char>, Option<Seq<char>>>, k: Seq<char>) -> Option<Option<Seq<char>>> {
    if m.contains_key(k) {
        Some(m[k])
    } else {
        None
    }
}

pub proof fn lemma_sorted_unique(s: Seq<EntryView>)
    requires
        sorted(s),
    ensures
        keys_unique(s),
{
    assert forall|i: int, j: int| 0 <= i < s.len() && 0 <= j < s.len() && i != j implies #[trigger] s[i].0 != #[trigger] s[j].0 by {
        lemma_key_lt_irreflexive(s[i].0);
    }
}

pub proof fn lemma_entries_map_at(s: Seq<EntryView>, i: int)
    requires
        keys_unique(s),
        0 <= i < s.len(),
    ensures
        entries_map(s).contains_key(s[i].0),
        entries_map(s)[s[i].0] == s[i].1,
{
    let k = s[i].0;
    assert(exists|j: int| 0 <= j < s.len() && s[j].0 == k);
    let j = choose|j: int| 0 <= j < s.len() && s[j].0 == k;
    assert(i == j);
}

/// Writing entry `e` at its place in a sorted sequence: replacing the entry
/// of the same key, or inserting before the first greater key.
pub proof fn lemma_entries_map_place(s: Seq<EntryView>, p: int, e: EntryView, replace: bool)
    requires
        keys_unique(s),
        0 <= p <= s.len(),
        replace ==> p < s.len() && s[p].0 == e.0,
        !replace ==> forall|i: int| 0 <= i < s.len() ==> s[i].0 != e.0,
    ensures
        ({
            let t = if replace { s.update(p, e) } else { s.insert(p, e) };
            keys_unique(t) && entries_map(t) == entries_map(s).insert(e.0, e.1)
        }),
{
    let t = if replace { s.update(p, e) } else { s.insert(p, e) };
    assert(keys_unique(t));
    let m = entries_map(s).insert(e.0, e.1);
    assert forall|k: Seq<char>| #[trigger] entries_map(t).contains_key(k) <==> m.contains_key(k) by {
        if entries_map(t).contains_key(k) {
            let j = choose|j: int| 0 <= j < t.len() && t[j].0 == k;
            if k != e.0 {
                if replace {
                    assert(s[j].0 == k);
                } else {
                    if j < p {
                        assert(s[j].0 == k);
                    } else {
                        assert(s[j - 1].0 == k);
                    }
                }
            }
        }
        if m.contains_key(k) {
            if k == e.0 {
                assert(t[p].0 == k);
            } else {
                let j = choose|j: int| 0 <= j < s.len() && s[j].0 == k;
                if replace {
                    assert(t[j].0 == k);
                } else if j < p {
                    assert(t[j].0 == k);
                } else {
                    assert(t[j + 1].0 == k);
                }
            }
        }
    }
    assert forall|k: Seq<char>| #[trigger] entries_map(t).contains_key(k) implies entries_map(t)[k] == m[k] by {
        let j = choose|j: int| 0 <= j < t.len() && t[j].0 == k;
        lemma_entries_map_at(t, j);
        if k != e.0 {
            if replace {
                lemma_entries_map_at(s, j);
            } else if j < p {
                lemma_entries_map_at(s, j);
            } else {
                lemma_entries_map_at(s, j - 1);
            }
        }
    }
    assert(entries_map(t) =~= m);
}

/// Outcome of a memtable lookup.
#[derive(Debug, PartialEq, Eq)]
pub enum Lookup {
    Missing,
    Present(String),
    Tombstoned,
}

impl View for Lookup {
    type V = Option<Option<Seq<char>>>;

    open spec fn view(&self) -> Option<Option<Seq<char>>> {
        match self {
            Lookup::Missing => None,
            Lookup::Present(v) => Some(Some(v@)),
            Lookup::Tombstoned => Some(None),
        }
    }
}

pub struct MemTable {
    tree: Vec<(String, Option<String>)>,
    bloom_filter: BloomFilter,
    inserted: Ghost<Set<Seq<char>>>,
}

impl MemTable {
    /// Entries in key order.
    pub closed spec fn entries(&self) -> Seq<EntryView> {
        entries_view(self.tree@)
    }

    /// Key to value (`None`: tombstone).
    pub open spec fn map(&self) -> Map<Seq<char>, Option<Seq<char>>> {
        entries_map(self.entries())
    }

    /// Bits of the membership filter.
    pub closed spec fn filter_bits(&self) -> Seq<bool> {
        self.bloom_filter.bits()
    }

    /// Every key that was ever put (not deleted) into this memtable.
    pub closed spec fn ever_put(&self) -> Set<Seq<char>> {
        self.inserted@
    }

    pub closed spec fn wf(&self) -> bool {
        &&& sorted(self.entries())
        &&& self.bloom_filter.wf()
        &&& forall|k: Seq<char>| #[trigger] self.inserted@.contains(k) ==> admits(self.bloom_filter.bits(), k)
        &&& forall|k: Seq<char>| #[trigger] self.map().contains_key(k) && self.map()[k] is Some ==> self.inserted@.contains(k)
    }

    pub proof fn lemma_wf(&self)
        requires
            self.wf(),
        ensures
            sorted(self.entries()),
            keys_unique(self.entries()),
            self.filter_bits().len() > 0,
            forall|k: Seq<char>| #[trigger] self.ever_put().contains(k) ==> admits(self.filter_bits(), k),
            forall|k: Seq<char>| #[trigger] self.map().contains_key(k) && self.map()[k] is Some ==> self.ever_put().contains(k),
    {
        lemma_sorted_unique(self.entries());
    }

    /// The filter admits every key ever put into the memtable, deleted
    /// since or not, and so every key that holds a value.
    pub proof fn lemma_filter_admits_put_keys(&self, k: Seq<char>)
        requires
            self.wf(),
            self.ever_put().contains(k) || (self.map().contains_key(k) && self.map()[k] is Some),
        ensures
            admits(self.filter_bits(), k),
    {
    }

    /// An empty memtable whose filter has `filter_size` bits.
    pub fn new(filter_size: usize) -> (r: Self)
        requires
            filter_size > 0,
        ensures
            r.wf(),
            r.entries() == Seq::<EntryView>::empty(),
            r.map() == Map::<Seq<char>, Option<Seq<char>>>::empty(),
            r.ever_put() == Set::<Seq<char>>::empty(),
            r.filter_bits() == Seq::new(filter_size as nat, |i: int| false),
    {
        let r = MemTable { tree: Vec::new(), bloom_filter: BloomFilter::new(filter_size), inserted: Ghost(Set::empty()) };
        assert(r.entries() =~= Seq::<EntryView>::empty());
        assert(r.map() =~= Map::<Seq<char>, Option<Seq<char>>>::empty());
        r
    }

    /// Index of the first entry whose key is not below `key`.
    fn seek(&self, key: &str) -> (p: usize)
        requires
            self.wf(),
        ensures
            p <= self.entries().len(),
            forall|i: int| 0 <= i < p ==> key_lt(#[trigger] self.entries()[i].0, key@),
            forall|i: int| p <= i < self.entries().len() ==> !key_lt(#[trigger] self.entries()[i].0, key@),
    {
        let ghost s = self.entries();
        let mut lo: usize = 0;
        let mut hi: usize = self.tree.len();
        while lo < hi
            invariant
                s == self.entries(),
                sorted(s),
                s.len() == self.tree@.len(),
                lo <= hi <= s.len(),
                forall|i: int| 0 <= i < lo ==> key_lt(#[trigger] s[i].0, key@),
                forall|i: int| hi <= i < s.len() ==> !key_lt(#[trigger] s[i].0, key@),
            decreases hi - lo,
        {
            let mid = lo + (hi - lo) / 2;
            let c = compare_keys(self.tree[mid].0.as_str(), key);
            assert(s[mid as int].0 == self.tree@[mid as int].0@);
            if c < 0 {
                assert forall|i: int| 0 <= i < mid + 1 implies key_lt(#[trigger] s[i].0, key@) by {
                    if i < mid {
                        lemma_key_lt_transitive(s[i].0, s[mid as int].0, key@);
                    }
                }
                lo = mid + 1;
            } else {
                assert forall|i: int| mid <= i < s.len() implies !key_lt(#[trigger] s[i].0, key@) by {
                    if i > mid {
                        lemma_key_lt_transitive(s[mid as int].0, s[i].0, key@);
                    }
                }
                hi = mid;
            }
        }
        lo
    }

    fn place(&mut self, key: &str, value: Option<String>)
        requires
            old(self).wf(),
            value is Some ==> old(self).ever_put().contains(key@),
        ensures
            final(self).wf(),
            final(self).map() == old(self).map().insert(key@, value_view(value)),
            final(self).filter_bits() == old(self).filter_bits(),
            final(self).ever_put() == old(self).ever_put(),
    {
        let ghost s = self.entries();
        let ghost e: EntryView = (key@, value_view(value));
        proof {
            lemma_sorted_unique(s);
        }
        let p = self.seek(key);
        let replace = p < self.tree.len() && compare_keys(self.tree[p].0.as_str(), key) == 0;
        let k = key.to_owned();
        if replace {
            self.tree.set(p, (k, value));
            assert(self.entries() =~= s.update(p as int, e));
            assert(forall|i: int| 0 <= i < s.len() ==> #[trigger] self.entries()[i].0 == s[i].0);
        } else {
            proof {
                assert forall|i: int| 0 <= i < s.len() implies s[i].0 != key@ by {
                    if i < p {
                        lemma_key_lt_irreflexive(key@);
                    } else if i > p {
                        assert(key_lt(s[p as int].0, s[i].0));
                    }
                }
                if p < s.len() {
                    lemma_key_lt_total(s[p as int].0, key@);
                }
            }
            self.tree.insert(p, (k, value));
            assert(self.entries() =~= s.insert(p as int, e));
            proof {
                let t = self.entries();
                assert forall|i: int, j: int| 0 <= i < j < t.len() implies key_lt(#[trigger] t[i].0, #[trigger] t[j].0) by {
                    if j < p {
                    } else if j == p {
                    } else if i == p {
                        if j - 1 > p {
                            lemma_key_lt_transitive(key@, s[p as int].0, s[j - 1].0);
                        }
                    } else if i < p {
                        lemma_key_lt_transitive(s[i].0, key@, s[j - 1].0);
                        if j - 1 > p {
                            lemma_key_lt_transitive(key@, s[p as int].0, s[j - 1].0);
                        }
                    }
                }
            }
        }
        proof {
            lemma_entries_map_place(s, p as int, e, replace);
        }
    }

    /// Sets `key` to `value` and adds `key` to the filter.
    pub fn add(&mut self, key: &str, value: &str)
        requires
            old(self).wf(),
        ensures
            final(self).wf(),
            final(self).map() == old(self).map().insert(key@, Some(value@)),
            final(self).ever_put() == old(self).ever_put().insert(key@),
            covers(final(self).filter_bits(), old(self).filter_bits()),
            admits(final(self).filter_bits(), key@),
    {
        let ghost before = self.bloom_filter.bits();
        self.bloom_filter.update(key);
        self.inserted = Ghost(self.inserted@.insert(key@));
        assert forall|k: Seq<char>| #[trigger] self.inserted@.contains(k) implies admits(self.bloom_filter.bits(), k) by {
            if k != key@ {
                assert(admits(before, k));
            }
        }
        self.place(key, Some(value.to_owned()));
    }

    /// Sets `key` to a tombstone; the filter is left as it is.
    pub fn delete(&mut self, key: &str)
        requires
            old(self).wf(),
        ensures
            final(self).wf(),
            final(self).map() == old(self).map().insert(key@, None),
            final(self).ever_put() == old(self).ever_put(),
            final(self).filter_bits() == old(self).filter_bits(),
    {
        self.place(key, None);
    }

    /// Number of entries, tombstones included.
    pub fn len(&self) -> (r: usize)
        requires
            self.wf(),
        ensures
            r == self.entries().len(),
            r == self.map().len(),
    {
        proof {
            self.lemma_map_len();
        }
        self.tree.len()
    }

    proof fn lemma_map_len(&self)
        requires
            self.wf(),
        ensures
            self.map().len() == self.entries().len(),
    {
        let s = self.entries();
        lemma_sorted_unique(s);
        let f = |i: int| s[i].0;
        assert forall|k: Seq<char>| #[trigger] self.map().dom().contains(k) <==> Set::new(|i: int| 0 <= i < s.len()).map(f).contains(k) by {
            if self.map().dom().contains(k) {
                let j = choose|j: int| 0 <= j < s.len() && s[j].0 == k;
                assert(Set::new(|i: int| 0 <= i < s.len()).contains(j));
            }
        }
        assert(self.map().dom() =~= Set::new(|i: int| 0 <= i < s.len()).map(f));
        let idx = Set::new(|i: int| 0 <= i < s.len());
        assert(idx =~= vstd::set_lib::set_int_range(0, s.len() as int));
        vstd::set_lib::lemma_int_range(0, s.len() as int);
        assert forall|i: int, j: int| idx.contains(i) && idx.contains(j) && #[trigger] f(i) == #[trigger] f(j) implies i == j by {}
        vstd::set_lib::lemma_map_size(idx, idx.map(f), f);
    }

    /// What the memtable holds for `key`.
    pub fn get(&self, key: &str) -> (r: Lookup)
        requires
            self.wf(),
        ensures
            r@ == lookup_of(self.map(), key@),
    {
        let ghost s = self.entries();
        proof {
            lemma_sorted_unique(s);
        }
        let p = self.seek(key);
        if p < self.tree.len() && compare_keys(self.tree[p].0.as_str(), key) == 0 {
            proof {
                lemma_entries_map_at(s, p as int);
            }
            match &self.tree[p].1 {
                Some(v) => Lookup::Present(v.clone()),
                None => Lookup::Tombstoned,
            }
        } else {
            proof {
                assert forall|i: int| 0 <= i < s.len() implies s[i].0 != key@ by {
                    lemma_key_lt_irreflexive(key@);
                    if p < s.len() && i > p {
                        lemma_key_lt_total(s[p as int].0, key@);
                        lemma_key_lt_transitive(key@, s[p as int].0, s[i].0);
                    }
                }
            }
            Lookup::Missing
        }
    }

    /// The entries, in key order.
    pub fn tree(&self) -> (r: &Vec<(String, Option<String>)>)
        ensures
            entries_view(r@) == self.entries(),
    {
        &self.tree
    }

    /// The membership filter.
    pub fn filter(&self) -> (r: &BloomFilter)
        ensures
            r.bits() == self.filter_bits(),
    {
        &self.bloom_filter
    }
}

} // verus!
