//! Table catalog: the live tables with their level and key range, and the
//! issuing of table ids, which only ever grow.

use vstd::prelude::*;
use vstd::utf8::*;
use crate::text::{all_ascii, decimal, decimal_padded, lemma_ascii_valid_utf8, lemma_decimal_digits, lemma_decimal_padded_digits, push_decimal_padded, string_from_bytes};
use crate::codec::append_bytes;

verus! {

broadcast use vstd::utf8::group_utf8_lib;

/// Catalog entry of one table.
#[derive(Debug, Clone, PartialEq, Eq)]
pub struct SSTableBasicInfo {
    pub id: u64,
    pub path: String,
    pub level: u64,
    pub min_key: String,
    pub max_key: String,
}

/// Id, path, level, least and greatest key.
pub type TableView = (u64, Seq<char>, u64, Seq<char>, Seq<char>);

impl SSTableBasicInfo {
    pub open spec fn view(&self) -> TableView {
        (self.id, self.path@, self.level, self.min_key@, self.max_key@)
    }

    pub fn new(id: u64, path: String, level: u64, min_key: String, max_key: String) -> (r: Self)
        ensures
            r.view() == (id, path@, level, min_key@, max_key@),
    {
        SSTableBasicInfo { id, path, level, min_key, max_key }
    }

    /// A copy with the same fields.
    pub fn duplicate(&self) -> (r: Self)
        ensures
            r.view() == self.view(),
    {
        SSTableBasicInfo {
            id: self.id,
            path: self.path.clone(),
            level: self.level,
            min_key: self.min_key.clone(),
            max_key: self.max_key.clone(),
        }
    }
}

pub open spec fn tables_view(v: Seq<SSTableBasicInfo>) -> Seq<TableView> {
    v.map_values(|t: SSTableBasicInfo| t.view())
}

/// Ids strictly increase along the sequence.
pub open spec fn ids_increasing(s: Seq<TableView>) -> bool {
    forall|i: int, j: int| 0 <= i < j < s.len() ==> (#[trigger] s[i]).0 < (#[trigger] s[j]).0
}

/// Name of a table file: `L{level}_{id, ten digits}.sst`.
pub open spec fn table_file_name(level: u64, id: u64) -> Seq<u8> {
    seq![47u8, 76u8] + decimal(level as nat) + seq![95u8] + decimal_padded(id as nat, 10) + seq![46u8, 115u8, 115u8, 116u8]
}

pub open spec fn of_level(level: u64) -> spec_fn(TableView) -> bool {
    |t: TableView| t.2 == level
}

/// The tables of `level`, in the order of `s`.
pub open spec fn in_level(s: Seq<TableView>, level: u64) -> Seq<TableView> {
    s.filter(of_level(level))
}

pub struct Manifest {
    version: u64,
    next_id: u64,
    ss_tables: Vec<SSTableBasicInfo>,
    pending: Vec<u64>,
    table_dir: String,
}

impl Manifest {
    /// Live tables, by increasing id.
    pub closed spec fn tables(&self) -> Seq<TableView> {
        tables_view(self.ss_tables@)
    }

    /// The id the next table gets.
    pub closed spec fn next(&self) -> u64 {
        self.next_id
    }

    /// Ids handed out whose table is not registered yet.
    pub closed spec fn pending_ids(&self) -> Seq<u64> {
        self.pending@
    }

    pub closed spec fn dir(&self) -> Seq<char> {
        self.table_dir@
    }

    pub open spec fn is_live(&self, id: u64) -> bool {
        exists|i: int| 0 <= i < self.tables().len() && self.tables()[i].0 == id
    }

    /// `id` is live or handed out.
    pub open spec fn knows(&self, id: u64) -> bool {
        self.is_live(id) || self.pending_ids().contains(id)
    }

    pub open spec fn wf(&self) -> bool {
        &&& ids_increasing(self.tables())
        &&& forall|i: int| 0 <= i < self.tables().len() ==> (#[trigger] self.tables()[i]).0 < self.next()
        &&& forall|i: int| 0 <= i < self.pending_ids().len() ==> #[trigger] self.pending_ids()[i] < self.next()
        &&& self.pending_ids().no_duplicates()
        &&& forall|i: int| 0 <= i < self.pending_ids().len() ==> !self.is_live(#[trigger] self.pending_ids()[i])
    }

    /// An id below the next one that is neither live nor handed out stays so:
    /// a retired table never comes back.
    pub open spec fn retired_stay_out(old: &Self, new: &Self) -> bool {
        &&& new.next() >= old.next()
        &&& forall|id: u64| id < old.next() && !old.knows(id) ==> !#[trigger] new.knows(id)
    }

    pub fn new(table_dir: &str) -> (r: Self)
        ensures
            r.wf(),
            r.tables() == Seq::<TableView>::empty(),
            r.next() == 1,
            r.pending_ids() == Seq::<u64>::empty(),
            r.dir() == table_dir@,
    {
        let r = Manifest { version: 1, next_id: 1, ss_tables: Vec::new(), pending: Vec::new(), table_dir: table_dir.to_owned() };
        assert(r.tables() =~= Seq::<TableView>::empty());
        r
    }

    /// A catalog as it was stored; `None` unless the ids strictly increase
    /// and lie below `next_id`.
    pub fn from_parts(version: u64, next_id: u64, tables: Vec<SSTableBasicInfo>, table_dir: &str) -> (r: Option<Self>)
        ensures
            r is Some <==> (ids_increasing(tables_view(tables@)) && forall|i: int| 0 <= i < tables@.len() ==> (#[trigger] tables@[i]).id < next_id),
            r matches Some(m) ==> m.wf() && m.tables() == tables_view(tables@) && m.next() == next_id
                && m.pending_ids() == Seq::<u64>::empty() && m.dir() == table_dir@ && m.version() == version,
    {
        let ghost s = tables_view(tables@);
        let mut i: usize = 0;
        while i < tables.len()
            invariant
                s == tables_view(tables@),
                i <= tables@.len(),
                forall|a: int, b: int| 0 <= a < b < i ==> (#[trigger] s[a]).0 < (#[trigger] s[b]).0,
                forall|a: int| 0 <= a < i ==> (#[trigger] tables@[a]).id < next_id,
            decreases tables@.len() - i,
        {
            if tables[i].id >= next_id {
                return None;
            }
            if i > 0 && tables[i - 1].id >= tables[i].id {
                assert(s[i - 1].0 >= s[i as int].0);
                return None;
            }
            proof {
                assert forall|a: int, b: int| 0 <= a < b < i + 1 implies (#[trigger] s[a]).0 < (#[trigger] s[b]).0 by {
                    if b == i && a < i - 1 {
                        assert(s[a].0 < s[i - 1].0);
                    }
                }
            }
            i = i + 1;
        }
        let m = Manifest { version, next_id, ss_tables: tables, pending: Vec::new(), table_dir: table_dir.to_owned() };
        assert(m.pending_ids() =~= Seq::<u64>::empty());
        Some(m)
    }

    pub closed spec fn version(&self) -> u64 {
        self.version
    }

    pub fn get_version(&self) -> (r: u64)
        ensures
            r == self.version(),
    {
        self.version
    }

    pub fn next_id(&self) -> (r: u64)
        ensures
            r == self.next(),
    {
        self.next_id
    }

    pub fn ss_tables(&self) -> (r: &Vec<SSTableBasicInfo>)
        ensures
            tables_view(r@) == self.tables(),
    {
        &self.ss_tables
    }

    /// Hands out the next id and the path of a table of `level` with that id;
    /// `None` once ids are exhausted.
    pub fn create_filename(&mut self, level: u64) -> (r: Option<(String, u64)>)
        requires
            old(self).wf(),
        ensures
            final(self).wf(),
            r is None <==> old(self).next() == u64::MAX,
            r is None ==> *final(self) == *old(self),
            r matches Some((path, id)) ==> {
                &&& id == old(self).next()
                &&& final(self).next() == old(self).next() + 1
                &&& !old(self).knows(id)
                &&& final(self).pending_ids() == old(self).pending_ids().push(id)
                &&& final(self).tables() == old(self).tables()
                &&& encode_utf8(path@) == encode_utf8(old(self).dir()) + table_file_name(level, id)
            },
            final(self).dir() == old(self).dir(),
            Self::retired_stay_out(old(self), final(self)),
    {
        if self.next_id == u64::MAX {
            return None;
        }
        let id = self.next_id;
        let mut bytes: Vec<u8> = Vec::new();
        append_bytes(&mut bytes, self.table_dir.as_str().as_bytes());
        let ghost dir_bytes = bytes@;
        bytes.push(47);
        bytes.push(76);
        push_decimal_padded(&mut bytes, level, 0);
        bytes.push(95);
        push_decimal_padded(&mut bytes, id, 10);
        bytes.push(46);
        bytes.push(115);
        bytes.push(115);
        bytes.push(116);
        proof {
            let name = table_file_name(level, id);
            lemma_decimal_digits(level as nat);
            lemma_decimal_padded_digits(id as nat, 10);
            assert(decimal_padded(level as nat, 0) == decimal(level as nat));
            assert(bytes@ =~= dir_bytes + name);
            assert(all_ascii(name)) by {
                assert forall|i: int| 0 <= i < name.len() implies #[trigger] name[i] < 128 by {
                    let d = decimal(level as nat);
                    let p = decimal_padded(id as nat, 10);
                    if 2 <= i < 2 + d.len() {
                        assert(name[i] == d[i - 2]);
                    } else if 3 + d.len() <= i < 3 + d.len() + p.len() {
                        assert(name[i] == p[i - 3 - d.len()]);
                    }
                }
            }
            lemma_ascii_valid_utf8(name);
        }
        let path = match string_from_bytes(bytes) {
            Some(p) => p,
            None => String::new(),
        };
        proof {
            assert forall|i: int| 0 <= i < self.pending@.len() implies #[trigger] self.pending@[i] != id by {}
            assert(!self.is_live(id));
        }
        self.next_id = self.next_id + 1;
        self.pending.push(id);
        proof {
            assert(self.pending@.no_duplicates());
            assert forall|x: u64| x < old(self).next() && !old(self).knows(x) implies !#[trigger] self.knows(x) by {
                if self.pending_ids().contains(x) {
                    let k = choose|k: int| 0 <= k < self.pending@.len() && self.pending@[k] == x;
                    if k < old(self).pending@.len() {
                        assert(old(self).pending_ids().contains(x));
                    }
                }
            }
        }
        Some((path, id))
    }

    /// Registers a table whose id was handed out by `create_filename` and is
    /// not registered yet; returns whether it was.
    pub fn add(&mut self, ss_table: SSTableBasicInfo) -> (r: bool)
        requires
            old(self).wf(),
        ensures
            final(self).wf(),
            r == old(self).pending_ids().contains(ss_table.id),
            !r ==> *final(self) == *old(self),
            r ==> {
                &&& forall|t: TableView| #[trigger] final(self).tables().contains(t) <==> (old(self).tables().contains(t) || t == ss_table.view())
                &&& final(self).tables().len() == old(self).tables().len() + 1
                &&& forall|x: u64| #[trigger] final(self).pending_ids().contains(x) <==> (old(self).pending_ids().contains(x) && x != ss_table.id)
                &&& final(self).is_live(ss_table.id)
            },
            final(self).next() == old(self).next(),
            final(self).dir() == old(self).dir(),
            Self::retired_stay_out(old(self), final(self)),
    {
        let id = ss_table.id;
        let mut k: usize = 0;
        while k < self.pending.len() && self.pending[k] != id
            invariant
                k <= self.pending@.len(),
                forall|j: int| 0 <= j < k ==> self.pending@[j] != id,
            decreases self.pending@.len() - k,
        {
            k = k + 1;
        }
        if k == self.pending.len() {
            proof {
                assert(!self.pending@.contains(id));
            }
            return false;
        }
        assert(self.pending@[k as int] == id);
        let ghost old_pending = self.pending@;
        self.pending.remove(k);
        let ghost s = self.tables();
        let mut p: usize = 0;
        proof {
            assert(!old(self).is_live(old_pending[k as int]));
        }
        while p < self.ss_tables.len() && self.ss_tables[p].id < id
            invariant
                s == self.tables(),
                s == old(self).tables(),
                !old(self).is_live(id),
                p <= s.len(),
                forall|j: int| 0 <= j < p ==> (#[trigger] s[j]).0 < id,
            decreases s.len() - p,
        {
            p = p + 1;
        }
        proof {
            if p < s.len() {
                assert(s[p as int].0 != id);
                assert(s[p as int].0 > id);
            }
        }
        let ghost v = ss_table.view();
        self.ss_tables.insert(p, ss_table);
        proof {
            let t = self.tables();
            assert(t =~= s.insert(p as int, v));
            assert forall|a: int, b: int| 0 <= a < b < t.len() implies (#[trigger] t[a]).0 < (#[trigger] t[b]).0 by {
                if b < p {
                } else if b == p {
                } else if a <= p {
                    assert(t[b] == s[b - 1]);
                    if b - 1 > p {
                        assert(s[p as int].0 < s[b - 1].0);
                    }
                    assert(id < s[b - 1].0);
                    if a < p {
                        assert(t[a] == s[a]);
                    }
                } else {
                    assert(t[a] == s[a - 1]);
                    assert(t[b] == s[b - 1]);
                }
            }
            assert(self.pending@ =~= old_pending.remove(k as int));
            assert forall|x: u64| #[trigger] self.pending_ids().contains(x) <==> (old_pending.contains(x) && x != id) by {
                if old_pending.contains(x) && x != id {
                    let j = choose|j: int| 0 <= j < old_pending.len() && old_pending[j] == x;
                    if j < k {
                        assert(self.pending@[j] == x);
                    } else {
                        assert(self.pending@[j - 1] == x);
                    }
                }
                if self.pending_ids().contains(x) {
                    let j = choose|j: int| 0 <= j < self.pending@.len() && self.pending@[j] == x;
                    if j < k {
                        assert(old_pending[j] == x);
                    } else {
                        assert(old_pending[j + 1] == x);
                    }
                }
            }
            assert forall|tv: TableView| #[trigger] t.contains(tv) <==> (s.contains(tv) || tv == v) by {
                if t.contains(tv) {
                    let j = choose|j: int| 0 <= j < t.len() && t[j] == tv;
                    if j < p {
                        assert(s[j] == tv);
                    } else if j > p {
                        assert(s[j - 1] == tv);
                    }
                }
                if s.contains(tv) {
                    let j = choose|j: int| 0 <= j < s.len() && s[j] == tv;
                    if j < p {
                        assert(t[j] == tv);
                    } else {
                        assert(t[j + 1] == tv);
                    }
                }
                if tv == v {
                    assert(t[p as int] == tv);
                }
            }
            assert(t[p as int].0 == id);
            assert forall|i: int| 0 <= i < self.pending_ids().len() implies !self.is_live(#[trigger] self.pending_ids()[i]) by {
                let x = self.pending_ids()[i];
                assert(self.pending_ids().contains(x));
                assert(old_pending.contains(x));
                let oi = choose|oi: int| 0 <= oi < old_pending.len() && old_pending[oi] == x;
                assert(!old(self).is_live(x));
                if self.is_live(x) {
                    let j = choose|j: int| 0 <= j < t.len() && t[j].0 == x;
                    if j < p {
                        assert(s[j].0 == x);
                    } else if j > p {
                        assert(s[j - 1].0 == x);
                    }
                }
            }
            assert forall|i: int| 0 <= i < t.len() implies (#[trigger] t[i]).0 < self.next() by {
                if i < p {
                    assert(t[i] == s[i]);
                } else if i > p {
                    assert(t[i] == s[i - 1]);
                } else {
                    assert(old_pending[k as int] < old(self).next());
                }
            }
            assert forall|i: int| 0 <= i < self.pending@.len() implies #[trigger] self.pending@[i] < self.next() by {
                if i < k {
                    assert(self.pending@[i] == old_pending[i]);
                } else {
                    assert(self.pending@[i] == old_pending[i + 1]);
                }
            }
            assert forall|x: u64| x < old(self).next() && !old(self).knows(x) implies !#[trigger] self.knows(x) by {
                if self.is_live(x) {
                    let j = choose|j: int| 0 <= j < t.len() && t[j].0 == x;
                    if j < p {
                        assert(s[j].0 == x);
                    } else if j > p {
                        assert(s[j - 1].0 == x);
                    } else {
                        assert(old_pending.contains(x));
                    }
                }
            }
        }
        true
    }

    /// Drops the table with the id of `table` from the catalog.
    pub fn remove(&mut self, table: &SSTableBasicInfo)
        requires
            old(self).wf(),
        ensures
            final(self).wf(),
            !final(self).is_live(table.id),
            forall|t: TableView| #[trigger] final(self).tables().contains(t) <==> (old(self).tables().contains(t) && t.0 != table.id),
            final(self).pending_ids() == old(self).pending_ids(),
            final(self).next() == old(self).next(),
            final(self).dir() == old(self).dir(),
            Self::retired_stay_out(old(self), final(self)),
    {
        let ghost s = self.tables();
        let mut p: usize = 0;
        while p < self.ss_tables.len() && self.ss_tables[p].id != table.id
            invariant
                s == self.tables(),
                p <= s.len(),
                forall|j: int| 0 <= j < p ==> (#[trigger] s[j]).0 != table.id,
            decreases s.len() - p,
        {
            p = p + 1;
        }
        if p < self.ss_tables.len() {
            self.ss_tables.remove(p);
            proof {
                let t = self.tables();
                assert(t =~= s.remove(p as int));
                assert forall|a: int, b: int| 0 <= a < b < t.len() implies (#[trigger] t[a]).0 < (#[trigger] t[b]).0 by {
                    let oa = if a < p { a } else { a + 1 };
                    let ob = if b < p { b } else { b + 1 };
                    assert(t[a] == s[oa]);
                    assert(t[b] == s[ob]);
                }
                assert(s[p as int].0 == table.id);
                assert forall|j: int| 0 <= j < s.len() && j != p implies (#[trigger] s[j]).0 != table.id by {
                    if j < p {
                    } else {
                        assert(s[p as int].0 < s[j].0);
                    }
                }
                assert forall|tv: TableView| #[trigger] t.contains(tv) <==> (s.contains(tv) && tv.0 != table.id) by {
                    if t.contains(tv) {
                        let j = choose|j: int| 0 <= j < t.len() && t[j] == tv;
                        let oj = if j < p { j } else { j + 1 };
                        assert(s[oj] == tv);
                    }
                    if s.contains(tv) && tv.0 != table.id {
                        let j = choose|j: int| 0 <= j < s.len() && s[j] == tv;
                        assert(j != p);
                        if j < p {
                            assert(t[j] == tv);
                        } else {
                            assert(t[j - 1] == tv);
                        }
                    }
                }
                assert forall|x: u64| #[trigger] self.is_live(x) implies old(self).is_live(x) && x != table.id by {
                    let j = choose|j: int| 0 <= j < t.len() && t[j].0 == x;
                    let oj = if j < p { j } else { j + 1 };
                    assert(s[oj].0 == x);
                }
                assert forall|i: int| 0 <= i < t.len() implies (#[trigger] t[i]).0 < self.next() by {
                    let oi = if i < p { i } else { i + 1 };
                    assert(t[i] == s[oi]);
                }
            }
        } else {
            proof {
                assert forall|tv: TableView| #[trigger] s.contains(tv) implies tv.0 != table.id by {
                    let j = choose|j: int| 0 <= j < s.len() && s[j] == tv;
                }
            }
        }
    }

    /// The tables of `level`, by increasing id.
    pub fn ss_tables_in_level(&self, level: u64) -> (r: Vec<SSTableBasicInfo>)
        ensures
            tables_view(r@) == in_level(self.tables(), level),
    {
        let ghost s = self.tables();
        let ghost pred = of_level(level);
        let mut out: Vec<SSTableBasicInfo> = Vec::new();
        let mut i: usize = 0;
        proof {
            reveal(Seq::filter);
            assert(s.take(0).filter(pred) =~= Seq::<TableView>::empty());
            assert(tables_view(out@) =~= Seq::<TableView>::empty());
        }
        while i < self.ss_tables.len()
            invariant
                s == self.tables(),
                pred == of_level(level),
                i <= s.len(),
                tables_view(out@) == s.take(i as int).filter(pred),
            decreases s.len() - i,
        {
            let ghost before = tables_view(out@);
            if self.ss_tables[i].level == level {
                out.push(self.ss_tables[i].duplicate());
            }
            proof {
                reveal(Seq::filter);
                assert(s.take(i + 1).drop_last() =~= s.take(i as int));
                assert(s.take(i + 1).last() == s[i as int]);
                assert(tables_view(out@) =~= s.take(i + 1).filter(pred));
            }
            i = i + 1;
        }
        assert(s.take(i as int) =~= s);
        out
    }

    /// The two oldest tables (lowest ids) of `level`, or fewer if it has fewer.
    pub fn compaction_nominees(&self, level: u64) -> (r: Vec<SSTableBasicInfo>)
        ensures
            tables_view(r@) == in_level(self.tables(), level).take(
                if in_level(self.tables(), level).len() < 2 { in_level(self.tables(), level).len() as int } else { 2 },
            ),
    {
        let all = self.ss_tables_in_level(level);
        let mut out: Vec<SSTableBasicInfo> = Vec::new();
        let mut i: usize = 0;
        while i < all.len() && i < 2
            invariant
                i <= all@.len(),
                i <= 2,
                tables_view(out@) == tables_view(all@).take(i as int),
            decreases all@.len() - i,
        {
            let ghost before = out@;
            let d = all[i].duplicate();
            out.push(d);
            proof {
                assert(tables_view(all@)[i as int] == all@[i as int].view());
                assert(out@ == before.push(d));
                assert(tables_view(out@) =~= tables_view(before).push(d.view()));
                assert(tables_view(all@).take(i + 1) =~= tables_view(all@).take(i as int).push(all@[i as int].view()));
            }
            i = i + 1;
        }
        out
    }
}

} // verus!
