//! The engine: the active memtable, the memtable being flushed, the table
//! catalog and the metadata cache, and the rules that tie them together.
//! File work (appending to the log, writing and reading tables) is done by
//! the caller, which hands the engine plain bytes and outcomes.

use vstd::prelude::*;
use crate::bloom_filter::{admits, BloomFilter};
use crate::compaction::{apply_entries, merge};
use crate::memtable::{entries_map, entries_view};
use crate::ss_table::{flatten, read_table, records_view, table_image_of, table_layout, RecordView, SSTableFooter};
use crate::manifest::table_file_name;
use crate::memtable::{sorted, EntryView};
use vstd::utf8::encode_utf8;
use crate::cache::{locate, Cache};
use crate::codec::starts_at;
use crate::order::key_lt;
use crate::config::Config;
use crate::error::LsmError;
use crate::manifest::{Manifest, SSTableBasicInfo, TableView};
use crate::memtable::{lookup_of, Lookup, MemTable};
use crate::codec::enc_block;
use crate::ss_table::{build_table, find_entry, search_block, TableImage};
use crate::wal::{apply_ops, enc_wal_record, wal_op, Operations, WalOp, WriteAheadLogger};

verus! {

pub type KvMap = Map<Seq<char>, Option<Seq<char>>>;

/// What the memtables show: the flushing one overlaid by the active one.
pub open spec fn overlay(flushing: Option<KvMap>, active: KvMap) -> KvMap {
    match flushing {
        Some(f) => f.union_prefer_right(active),
        None => active,
    }
}

/// What an encoded block holds for `key`; `None` when it holds nothing for
/// it or is not a block.
pub open spec fn block_says(b: Seq<u8>, key: Seq<char>) -> Option<Option<Seq<char>>> {
    if exists|s: Seq<crate::memtable::EntryView>| enc_block(s) == b {
        find_entry(choose|s: Seq<crate::memtable::EntryView>| enc_block(s) == b, key)
    } else {
        None
    }
}

/// The first of `blocks` that holds something for `key`.
pub open spec fn blocks_say(blocks: Seq<Seq<u8>>, key: Seq<char>) -> Option<Option<Seq<char>>>
    decreases blocks.len(),
{
    if blocks.len() == 0 {
        None
    } else if block_says(blocks[0], key) is Some {
        block_says(blocks[0], key)
    } else {
        blocks_say(blocks.drop_first(), key)
    }
}

/// Answer of a lookup of `key`: memory first, then the blocks newest first;
/// a tombstone answers "absent".
pub open spec fn get_result(memory: KvMap, blocks: Seq<Seq<u8>>, key: Seq<char>) -> Option<Seq<char>> {
    let found = if memory.contains_key(key) {
        Some(memory[key])
    } else {
        blocks_say(blocks, key)
    };
    match found {
        Some(Some(v)) => Some(v),
        _ => None,
    }
}

/// Blocks to read for `key`, newest table first: each table of `tables`
/// whose cached filter admits `key` and whose index has a block for it.
pub open spec fn plan_of(tables: Seq<TableView>, cache: Map<Seq<char>, crate::cache::TableMeta>, key: Seq<char>) -> Seq<(Seq<char>, u64, u64)>
    decreases tables.len(),
{
    if tables.len() == 0 {
        Seq::empty()
    } else {
        let t = tables.last();
        let rest = plan_of(tables.drop_last(), cache, key);
        if cache.contains_key(t.1) && admits(cache[t.1].0, key) && locate(cache[t.1].1, key) is Some {
            let loc = locate(cache[t.1].1, key)->Some_0;
            seq![(t.1, loc.0, loc.1)] + rest
        } else {
            rest
        }
    }
}

/// Level 0 (`top`) or the levels below it.
pub open spec fn in_part(top: bool) -> spec_fn(TableView) -> bool {
    |t: TableView| (t.2 == 0) == top
}

pub open spec fn plans_view(v: Seq<(String, u64, u64)>) -> Seq<(Seq<char>, u64, u64)> {
    v.map_values(|p: (String, u64, u64)| (p.0@, p.1, p.2))
}

pub open spec fn blocks_view(v: Seq<Vec<u8>>) -> Seq<Seq<u8>> {
    v.map_values(|b: Vec<u8>| b@)
}

/// A table file to write: its path and bytes, and what registers it.
pub struct FlushJob {
    pub path: String,
    pub id: u64,
    pub level: u64,
    pub image: TableImage,
    pub min_key: String,
    pub max_key: String,
    pub filter: BloomFilter,
}

/// Catalog entry that registers the table of `job`.
pub open spec fn job_desc(job: FlushJob) -> TableView {
    (job.id, job.path@, job.level, job.min_key@, job.max_key@)
}

/// `job` writes entries `s` with filter bits `bits` as a table of `level`
/// under directory `dir`, in blocks of `m` entries, named by its id.
pub open spec fn job_for_entries(job: FlushJob, s: Seq<EntryView>, bits: Seq<bool>, dir: Seq<char>, level: u64, m: nat) -> bool {
    &&& table_image_of(job.image.bytes@, job.image.footer, records_view(job.image.index@), job.image.blocks@, s, bits, m)
    &&& job.filter.bits() == bits
    &&& job.level == level
    &&& encode_utf8(job.path@) == encode_utf8(dir) + table_file_name(level, job.id)
    &&& (s.len() > 0 ==> job.min_key@ == s[0].0 && job.max_key@ == s.last().0)
    &&& (s.len() == 0 ==> job.min_key@.len() == 0 && job.max_key@.len() == 0)
}

/// `job` writes memtable `m` as a table of `level`.
pub open spec fn job_for(job: FlushJob, m: MemTable, dir: Seq<char>, level: u64, index_size: nat) -> bool {
    job_for_entries(job, m.entries(), m.filter_bits(), dir, level, index_size)
}

/// One of the first `n` retired tables has id `id`.
pub open spec fn retires_id(retired: Seq<SSTableBasicInfo>, n: int, id: u64) -> bool {
    exists|j: int| 0 <= j < n && #[trigger] retired[j].id == id
}

/// One of the first `n` retired tables has path `p`.
pub open spec fn retires_path(retired: Seq<SSTableBasicInfo>, n: int, p: Seq<char>) -> bool {
    exists|j: int| 0 <= j < n && #[trigger] retired[j].path@ == p
}

/// `new` is `old` after handing out table id `id`.
pub open spec fn issued(old: Manifest, new: Manifest, id: u64) -> bool {
    &&& new.wf()
    &&& id == old.next()
    &&& !old.knows(id)
    &&& new.next() == old.next() + 1
    &&& new.pending_ids() == old.pending_ids().push(id)
    &&& new.tables() == old.tables()
    &&& new.dir() == old.dir()
}

pub struct Lsm {
    memtable: MemTable,
    immutable_memtable: Option<MemTable>,
    cache: Cache,
    manifest: Manifest,
    wal: WriteAheadLogger,
    config: Config,
}

impl Lsm {
    /// The active memtable.
    pub closed spec fn active_table(&self) -> MemTable {
        self.memtable
    }

    /// The memtable being flushed, if any.
    pub closed spec fn frozen(&self) -> Option<MemTable> {
        self.immutable_memtable
    }

    pub open spec fn active(&self) -> KvMap {
        self.active_table().map()
    }

    pub open spec fn flushing(&self) -> Option<KvMap> {
        match self.frozen() {
            Some(m) => Some(m.map()),
            None => None,
        }
    }

    /// The active memtable is full and can be frozen now: none is being
    /// flushed, and a segment index and a table id are left.
    pub open spec fn must_rotate(&self) -> bool {
        &&& self.frozen() is None
        &&& self.active_table().entries().len() >= self.settings().memtable.max_entries
        &&& self.segment() < u64::MAX
        &&& self.catalog().next() < u64::MAX
    }

    /// Everything the memtables hold.
    pub open spec fn memory(&self) -> KvMap {
        overlay(self.flushing(), self.active())
    }

    pub closed spec fn catalog(&self) -> Manifest {
        self.manifest
    }

    pub closed spec fn metadata(&self) -> Cache {
        self.cache
    }

    pub closed spec fn segment(&self) -> u64 {
        self.wal.segment()
    }

    pub closed spec fn settings(&self) -> Config {
        self.config
    }

    pub closed spec fn wf(&self) -> bool {
        &&& self.memtable.wf()
        &&& (self.immutable_memtable matches Some(m) ==> m.wf())
        &&& self.cache.wf()
        &&& self.manifest.wf()
        &&& self.config.valid()
        &&& self.wal.dir() == self.config.directory.wal@
        &&& self.wal.version() == self.config.wal.version
    }

    /// An engine over a replayed memtable and the catalog and cache read at
    /// startup, writing to log segment `wal_index`.
    pub fn new(config: Config, memtable: MemTable, manifest: Manifest, cache: Cache, wal_index: u64) -> (r: Self)
        requires
            config.valid(),
            memtable.wf(),
            manifest.wf(),
            cache.wf(),
        ensures
            r.wf(),
            r.active() == memtable.map(),
            r.flushing() is None,
            r.catalog() == manifest,
            r.metadata() == cache,
            r.segment() == wal_index,
            r.settings() == config,
    {
        let wal = WriteAheadLogger::new(config.directory.wal.as_str(), wal_index, config.wal.version);
        Lsm { memtable, immutable_memtable: None, cache, manifest, wal, config }
    }

    pub fn config(&self) -> (r: &Config)
        ensures
            *r == self.settings(),
    {
        &self.config
    }

    pub fn manifest(&self) -> (r: &Manifest)
        ensures
            *r == self.catalog(),
    {
        &self.manifest
    }

    pub fn cache(&self) -> (r: &Cache)
        ensures
            *r == self.metadata(),
    {
        &self.cache
    }

    /// Index of the log segment that takes the next records.
    pub fn wal_index(&self) -> (r: u64)
        ensures
            r == self.segment(),
    {
        self.wal.index()
    }

    /// Whether a memtable is being flushed.
    pub fn is_flushing(&self) -> (r: bool)
        ensures
            r == self.flushing() is Some,
    {
        self.immutable_memtable.is_some()
    }

    /// Path of the log segment that takes the next records.
    pub fn wal_path(&self) -> (r: String)
        requires
            self.wf(),
        ensures
            vstd::utf8::encode_utf8(r@) == vstd::utf8::encode_utf8(self.settings().directory.wal@) + crate::wal::segment_name(self.segment()),
    {
        self.wal.wal_file_path()
    }

    /// Whether the active memtable is due to be frozen by the next write.
    pub fn rotation_due(&self) -> (r: bool)
        requires
            self.wf(),
        ensures
            r == self.must_rotate(),
    {
        self.immutable_memtable.is_none() && self.memtable.len() >= self.config.memtable.max_entries
            && self.wal.index() < u64::MAX && self.manifest.next_id() < u64::MAX
    }

    /// Path of the log segment that takes the next write: the next segment
    /// when that write freezes the active memtable.
    pub fn write_path(&self) -> (r: String)
        requires
            self.wf(),
        ensures
            encode_utf8(r@) == encode_utf8(self.settings().directory.wal@) + crate::wal::segment_name(
                if self.must_rotate() { (self.segment() + 1) as u64 } else { self.segment() },
            ),
    {
        let index = if self.rotation_due() { self.wal.index() + 1 } else { self.wal.index() };
        crate::wal::wal_file_path(self.config.directory.wal.as_str(), index)
    }

    /// The log record to append before applying an operation.
    pub fn wal_record(&self, operation: Operations, key: &str, value: &str) -> (r: Vec<u8>)
        requires
            self.wf(),
        ensures
            r@ == enc_wal_record(wal_op(self.settings().wal.version, operation, key@, value@)),
    {
        self.wal.record(operation, key, value)
    }

    /// A table file for the memtable being flushed, under a newly issued id;
    /// `None` when nothing is being flushed or ids are exhausted.
    pub fn flush_job(&mut self) -> (r: Option<FlushJob>)
        requires
            old(self).wf(),
        ensures
            final(self).wf(),
            r is Some <==> (old(self).frozen() is Some && old(self).catalog().next() < u64::MAX),
            r is None ==> *final(self) == *old(self),
            r matches Some(job) ==> {
                &&& job_for(job, old(self).frozen()->Some_0, old(self).catalog().dir(), 0, old(self).settings().cache.index_size as nat)
                &&& issued(old(self).catalog(), final(self).catalog(), job.id)
                &&& final(self).active_table() == old(self).active_table()
                &&& final(self).frozen() == old(self).frozen()
                &&& final(self).metadata() == old(self).metadata()
                &&& final(self).settings() == old(self).settings()
                &&& final(self).segment() == old(self).segment()
            },
    {
        match &self.immutable_memtable {
            None => None,
            Some(m) => {
                let (path, id) = match self.manifest.create_filename(0) {
                    Some(x) => x,
                    None => return None,
                };
                let image = build_table(m, self.config.cache.index_size);
                let (min_key, max_key) = key_range(m);
                proof {
                    assert(self.manifest.pending_ids().last() == id);
                    m.lemma_wf();
                }
                let filter = m.filter().duplicate();
                let job = FlushJob { path, id, level: 0, image, min_key, max_key, filter };
                Some(job)
            },
        }
    }

    /// Turns a full active memtable into the one being flushed, when none
    /// is, starting a new log segment, and returns the table to write for
    /// it. Called before a write is logged, it makes that write's record
    /// land in the segment of the memtable that takes it.
    pub fn rotate(&mut self) -> (r: Option<FlushJob>)
        requires
            old(self).wf(),
        ensures
            final(self).wf(),
            final(self).memory() == old(self).memory(),
            r is Some <==> old(self).must_rotate(),
            r is None ==> *final(self) == *old(self),
            r matches Some(job) ==> {
                &&& final(self).frozen() == Some(old(self).active_table())
                &&& final(self).active_table().entries() == Seq::<EntryView>::empty()
                &&& final(self).active() == Map::<Seq<char>, Option<Seq<char>>>::empty()
                &&& final(self).segment() == old(self).segment() + 1
                &&& job_for(job, old(self).active_table(), old(self).catalog().dir(), 0, old(self).settings().cache.index_size as nat)
                &&& issued(old(self).catalog(), final(self).catalog(), job.id)
                &&& final(self).metadata() == old(self).metadata()
                &&& final(self).settings() == old(self).settings()
            },
    {
        if self.immutable_memtable.is_some() || self.memtable.len() < self.config.memtable.max_entries
            || self.wal.index() == u64::MAX || self.manifest.next_id() == u64::MAX {
            return None;
        }
        let mut frozen = MemTable::new(self.config.cache.bloom_filter_size);
        std::mem::swap(&mut frozen, &mut self.memtable);
        self.immutable_memtable = Some(frozen);
        let _ = self.wal.increment_index();
        proof {
            assert(self.flushing() == Some(old(self).active()));
            assert(self.memory() =~= old(self).memory());
        }
        self.flush_job()
    }

    /// Sets `key` to `value`; the caller has appended the log record. When
    /// the active memtable was full and none is being flushed, it is frozen
    /// first and the table to write for it is returned. Keys are never empty.
    pub fn add(&mut self, key: &str, value: &str) -> (r: Option<FlushJob>)
        requires
            old(self).wf(),
            key@.len() > 0,
        ensures
            final(self).wf(),
            final(self).memory() == old(self).memory().insert(key@, Some(value@)),
            r is Some <==> old(self).must_rotate(),
            r matches Some(job) ==> {
                &&& final(self).frozen() == Some(old(self).active_table())
                &&& final(self).active() == Map::<Seq<char>, Option<Seq<char>>>::empty().insert(key@, Some(value@))
                &&& final(self).segment() == old(self).segment() + 1
                &&& job_for(job, old(self).active_table(), old(self).catalog().dir(), 0, old(self).settings().cache.index_size as nat)
                &&& issued(old(self).catalog(), final(self).catalog(), job.id)
            },
            r is None ==> {
                &&& final(self).active() == old(self).active().insert(key@, Some(value@))
                &&& final(self).frozen() == old(self).frozen()
                &&& final(self).catalog() == old(self).catalog()
                &&& final(self).segment() == old(self).segment()
            },
            final(self).metadata() == old(self).metadata(),
            final(self).settings() == old(self).settings(),
    {
        let job = self.rotate();
        self.memtable.add(key, value);
        proof {
            assert(self.memory() =~= old(self).memory().insert(key@, Some(value@)));
            if job is Some {
                assert(self.active() =~= Map::<Seq<char>, Option<Seq<char>>>::empty().insert(key@, Some(value@)));
            }
        }
        job
    }

    /// Sets a tombstone for `key`; the caller has appended the log record.
    /// Freezes a full active memtable as `add` does. Keys are never empty.
    pub fn delete(&mut self, key: &str) -> (r: Option<FlushJob>)
        requires
            old(self).wf(),
            key@.len() > 0,
        ensures
            final(self).wf(),
            final(self).memory() == old(self).memory().insert(key@, None),
            r is Some <==> old(self).must_rotate(),
            r matches Some(job) ==> {
                &&& final(self).frozen() == Some(old(self).active_table())
                &&& final(self).active() == Map::<Seq<char>, Option<Seq<char>>>::empty().insert(key@, None)
                &&& final(self).segment() == old(self).segment() + 1
                &&& job_for(job, old(self).active_table(), old(self).catalog().dir(), 0, old(self).settings().cache.index_size as nat)
                &&& issued(old(self).catalog(), final(self).catalog(), job.id)
            },
            r is None ==> {
                &&& final(self).active() == old(self).active().insert(key@, None)
                &&& final(self).frozen() == old(self).frozen()
                &&& final(self).catalog() == old(self).catalog()
                &&& final(self).segment() == old(self).segment()
            },
            final(self).metadata() == old(self).metadata(),
            final(self).settings() == old(self).settings(),
    {
        let job = self.rotate();
        self.memtable.delete(key);
        proof {
            assert(self.memory() =~= old(self).memory().insert(key@, None));
            if job is Some {
                assert(self.active() =~= Map::<Seq<char>, Option<Seq<char>>>::empty().insert(key@, None));
            }
        }
        job
    }

    /// Registers the written table of `job` and drops the memtable it was
    /// made from. Fails, changing nothing, when nothing is being flushed or
    /// the catalog did not issue the job's id.
    pub fn finish_flush(&mut self, job: FlushJob) -> (r: Result<(), LsmError>)
        requires
            old(self).wf(),
        ensures
            final(self).wf(),
            r is Ok <==> (old(self).flushing() is Some && old(self).catalog().pending_ids().contains(job.id) && job.filter.wf()),
            r is Ok ==> {
                &&& final(self).frozen() is None
                &&& final(self).active_table() == old(self).active_table()
                &&& final(self).catalog().is_live(job.id)
                &&& forall|t: TableView| #[trigger] final(self).catalog().tables().contains(t) <==> (old(self).catalog().tables().contains(t) || t == job_desc(job))
                &&& forall|x: u64| #[trigger] final(self).catalog().pending_ids().contains(x) <==> (old(self).catalog().pending_ids().contains(x) && x != job.id)
                &&& final(self).catalog().next() == old(self).catalog().next()
                &&& final(self).catalog().dir() == old(self).catalog().dir()
                &&& final(self).metadata().view() == old(self).metadata().view().insert(job.path@, (job.filter.bits(), records_view(job.image.index@)))
            },
            r is Err ==> *final(self) == *old(self),
            final(self).segment() == old(self).segment(),
            final(self).settings() == old(self).settings(),
    {
        if self.immutable_memtable.is_none() {
            return Err(LsmError::SsTableError("no memtable is being flushed".to_owned()));
        }
        if job.filter.size() == 0 {
            return Err(LsmError::SsTableError("table filter has no bits".to_owned()));
        }
        let filter = job.filter;
        let info = SSTableBasicInfo::new(job.id, job.path, job.level, job.min_key, job.max_key);
        let path = info.path.clone();
        if !self.manifest.add(info) {
            return Err(LsmError::SsTableError("table id was not issued".to_owned()));
        }
        self.cache.add(path.as_str(), filter, job.image.index);
        self.immutable_memtable = None;
        Ok(())
    }

    /// Merges two tables, `older` then `newer`, whose files hold
    /// `older_file` and `newer_file`, into a table one level further down,
    /// under a newly issued id. Fails when a file cannot be read back as a
    /// table, or ids or levels are exhausted.
    pub fn compact(&mut self, older: &SSTableBasicInfo, older_file: &[u8], newer_file: &[u8]) -> (r: Result<FlushJob, LsmError>)
        requires
            old(self).wf(),
        ensures
            final(self).wf(),
            final(self).memory() == old(self).memory(),
            final(self).active() == old(self).active(),
            final(self).flushing() == old(self).flushing(),
            final(self).segment() == old(self).segment(),
            r is Err ==> *final(self) == *old(self),
            final(self).active_table() == old(self).active_table(),
            final(self).frozen() == old(self).frozen(),
            final(self).metadata() == old(self).metadata(),
            final(self).settings() == old(self).settings(),
            r matches Ok(job) ==> {
                &&& job.level == older.level + 1
                &&& issued(old(self).catalog(), final(self).catalog(), job.id)
                &&& job_for_entries(job, flatten(job.image.blocks@), job.filter.bits(), old(self).catalog().dir(), job.level, old(self).settings().cache.index_size as nat)
                &&& sorted(flatten(job.image.blocks@))
                &&& job.filter.wf()
                &&& forall|k: Seq<char>| #[trigger] entries_map(flatten(job.image.blocks@)).contains_key(k) && entries_map(flatten(job.image.blocks@))[k] is Some
                    ==> admits(job.filter.bits(), k)
                &&& forall|fa: SSTableFooter, ra: Seq<RecordView>, ba: Seq<Seq<crate::memtable::EntryView>>, fb: SSTableFooter, rb: Seq<RecordView>, bb: Seq<Seq<crate::memtable::EntryView>>|
                    #[trigger] table_layout(older_file@, fa, ra, ba) && #[trigger] table_layout(newer_file@, fb, rb, bb)
                    ==> entries_map(flatten(job.image.blocks@)) == apply_entries(apply_entries(Map::empty(), flatten(ba)), flatten(bb))
            },
            (exists|fa: SSTableFooter, ra: Seq<RecordView>, ba: Seq<Seq<crate::memtable::EntryView>>| #[trigger] table_layout(older_file@, fa, ra, ba))
                && (exists|fb: SSTableFooter, rb: Seq<RecordView>, bb: Seq<Seq<crate::memtable::EntryView>>| #[trigger] table_layout(newer_file@, fb, rb, bb))
                && older.level < u64::MAX && old(self).catalog().next() < u64::MAX ==> r is Ok,
    {
        let a = match read_table(older_file) {
            Some(v) => v,
            None => return Err(LsmError::SsTableError("unreadable table".to_owned())),
        };
        let b = match read_table(newer_file) {
            Some(v) => v,
            None => return Err(LsmError::SsTableError("unreadable table".to_owned())),
        };
        if older.level == u64::MAX {
            return Err(LsmError::SsTableError("no level below".to_owned()));
        }
        let level = older.level + 1;
        let merged = merge(&a, &b, self.config.cache.bloom_filter_size);
        let (path, id) = match self.manifest.create_filename(level) {
            Some(x) => x,
            None => return Err(LsmError::SsTableError("table ids are exhausted".to_owned())),
        };
        let image = build_table(&merged, self.config.cache.index_size);
        let (min_key, max_key) = key_range(&merged);
        proof {
            assert(self.manifest.pending_ids().last() == id);
            merged.lemma_wf();
        }
        let filter = merged.filter().duplicate();
        let job = FlushJob { path, id, level, image, min_key, max_key, filter };
        proof {
            assert(job_for(job, merged, old(self).catalog().dir(), level, self.config.cache.index_size as nat));
            assert forall|k: Seq<char>| #[trigger] entries_map(flatten(job.image.blocks@)).contains_key(k) && entries_map(flatten(job.image.blocks@))[k] is Some
                implies admits(job.filter.bits(), k) by {
                merged.lemma_filter_admits_put_keys(k);
            }
        }
        Ok(job)
    }

    /// Registers the merged table of `job`, then retires the tables it was
    /// merged from, in catalog and cache. Their files can be deleted after.
    /// Fails, changing nothing, when the catalog did not issue the job's id.
    pub fn finish_compaction(&mut self, job: FlushJob, retired: &Vec<SSTableBasicInfo>) -> (r: Result<(), LsmError>)
        requires
            old(self).wf(),
        ensures
            final(self).wf(),
            final(self).active_table() == old(self).active_table(),
            final(self).frozen() == old(self).frozen(),
            final(self).segment() == old(self).segment(),
            final(self).settings() == old(self).settings(),
            r is Ok <==> (old(self).catalog().pending_ids().contains(job.id) && job.filter.wf()),
            r is Err ==> *final(self) == *old(self),
            r is Ok ==> {
                &&& forall|t: TableView| #[trigger] final(self).catalog().tables().contains(t)
                    <==> ((old(self).catalog().tables().contains(t) || t == job_desc(job)) && !retires_id(retired@, retired@.len() as int, t.0))
                &&& forall|x: u64| #[trigger] final(self).catalog().pending_ids().contains(x) <==> (old(self).catalog().pending_ids().contains(x) && x != job.id)
                &&& final(self).catalog().next() == old(self).catalog().next()
                &&& forall|p: Seq<char>| #[trigger] final(self).metadata().view().contains_key(p)
                    <==> (old(self).metadata().view().insert(job.path@, (job.filter.bits(), records_view(job.image.index@))).contains_key(p)
                        && !retires_path(retired@, retired@.len() as int, p))
                &&& forall|p: Seq<char>| #[trigger] final(self).metadata().view().contains_key(p)
                    ==> final(self).metadata().view()[p] == old(self).metadata().view().insert(job.path@, (job.filter.bits(), records_view(job.image.index@)))[p]
            },
    {
        if job.filter.size() == 0 {
            return Err(LsmError::SsTableError("table filter has no bits".to_owned()));
        }
        let ghost desc = job_desc(job);
        let ghost meta = (job.filter.bits(), records_view(job.image.index@));
        let ghost jpath = job.path@;
        let ghost jid = job.id;
        let info = SSTableBasicInfo::new(job.id, job.path, job.level, job.min_key, job.max_key);
        let path = info.path.clone();
        if !self.manifest.add(info) {
            return Err(LsmError::SsTableError("table id was not issued".to_owned()));
        }
        self.cache.add(path.as_str(), job.filter, job.image.index);
        let ghost base_tables = self.manifest;
        let ghost base_cache = self.cache.view();
        assert(base_cache == old(self).metadata().view().insert(jpath, meta));
        let mut i: usize = 0;
        while i < retired.len()
            invariant
                i <= retired@.len(),
                self.manifest.wf(),
                self.cache.wf(),
                self.memtable == old(self).memtable,
                self.immutable_memtable == old(self).immutable_memtable,
                self.wal == old(self).wal,
                self.config == old(self).config,
                self.manifest.next() == base_tables.next(),
                self.manifest.pending_ids() == base_tables.pending_ids(),
                self.manifest.dir() == base_tables.dir(),
                forall|t: TableView| #[trigger] self.manifest.tables().contains(t)
                    <==> (base_tables.tables().contains(t) && !retires_id(retired@, i as int, t.0)),
                forall|p: Seq<char>| #[trigger] self.cache.view().contains_key(p)
                    <==> (base_cache.contains_key(p) && !retires_path(retired@, i as int, p)),
                forall|p: Seq<char>| #[trigger] self.cache.view().contains_key(p) ==> self.cache.view()[p] == base_cache[p],
            decreases retired@.len() - i,
        {
            let ghost before = self.manifest;
            let ghost before_cache = self.cache.view();
            self.manifest.remove(&retired[i]);
            self.cache.remove(retired[i].path.as_str());
            proof {
                assert forall|x: u64| #[trigger] retires_id(retired@, i + 1, x) <==> (retires_id(retired@, i as int, x) || retired@[i as int].id == x) by {
                    if retires_id(retired@, i + 1, x) {
                        let j = choose|j: int| 0 <= j < i + 1 && #[trigger] retired@[j].id == x;
                        if j < i {
                            assert(retires_id(retired@, i as int, x));
                        }
                    }
                    if retired@[i as int].id == x {
                        assert(0 <= i < i + 1 && retired@[i as int].id == x);
                    }
                    if retires_id(retired@, i as int, x) {
                        let j = choose|j: int| 0 <= j < i && #[trigger] retired@[j].id == x;
                        assert(0 <= j < i + 1 && retired@[j].id == x);
                    }
                }
                assert forall|p: Seq<char>| #[trigger] retires_path(retired@, i + 1, p) <==> (retires_path(retired@, i as int, p) || retired@[i as int].path@ == p) by {
                    if retires_path(retired@, i + 1, p) {
                        let j = choose|j: int| 0 <= j < i + 1 && #[trigger] retired@[j].path@ == p;
                        if j < i {
                            assert(retires_path(retired@, i as int, p));
                        }
                    }
                    if retired@[i as int].path@ == p {
                        assert(0 <= i < i + 1 && retired@[i as int].path@ == p);
                    }
                    if retires_path(retired@, i as int, p) {
                        let j = choose|j: int| 0 <= j < i && #[trigger] retired@[j].path@ == p;
                        assert(0 <= j < i + 1 && retired@[j].path@ == p);
                    }
                }
            }
            i = i + 1;
        }
        proof {
            assert forall|t: TableView| #[trigger] base_tables.tables().contains(t) <==> (old(self).catalog().tables().contains(t) || t == desc) by {}
        }
        Ok(())
    }

    /// What the memtables hold for `key`: the active one first.
    pub fn get_in_memory(&self, key: &str) -> (r: Lookup)
        requires
            self.wf(),
        ensures
            r@ == lookup_of(self.memory(), key@),
    {
        match self.memtable.get(key) {
            Lookup::Missing => match &self.immutable_memtable {
                Some(m) => m.get(key),
                None => Lookup::Missing,
            },
            found => found,
        }
    }

    /// Path, offset and size of each block to read for `key`, newest data
    /// first: the level-0 tables by decreasing id, then the deeper tables
    /// by decreasing id (a merged table holds data older than every level-0
    /// table left beside it).
    pub fn read_plan(&self, key: &str) -> (r: Vec<(String, u64, u64)>)
        requires
            self.wf(),
        ensures
            plans_view(r@) == plan_of(self.catalog().tables().filter(in_part(true)), self.metadata().view(), key@)
                + plan_of(self.catalog().tables().filter(in_part(false)), self.metadata().view(), key@),
    {
        let mut out: Vec<(String, u64, u64)> = Vec::new();
        assert(plans_view(out@) =~= Seq::<(Seq<char>, u64, u64)>::empty());
        self.plan_part(key, &mut out, true);
        self.plan_part(key, &mut out, false);
        out
    }

    fn plan_part(&self, key: &str, out: &mut Vec<(String, u64, u64)>, top: bool)
        requires
            self.wf(),
        ensures
            plans_view(final(out)@) == plans_view(old(out)@) + plan_of(self.catalog().tables().filter(in_part(top)), self.metadata().view(), key@),
    {
        let tables = self.manifest.ss_tables();
        let ghost ts = self.manifest.tables();
        let ghost cv = self.cache.view();
        let ghost p = in_part(top);
        let mut i: usize = tables.len();
        proof {
            assert(ts.take(ts.len() as int) =~= ts);
        }
        while i > 0
            invariant
                ts == crate::manifest::tables_view(tables@),
                cv == self.cache.view(),
                p == in_part(top),
                self.cache.wf(),
                i <= ts.len(),
                plans_view(old(out)@) + plan_of(ts.filter(p), cv, key@) == plans_view(out@) + plan_of(ts.take(i as int).filter(p), cv, key@),
            decreases i,
        {
            i = i - 1;
            let ghost before = out@;
            let level_ok = (tables[i].level == 0) == top;
            if level_ok {
                let path = &tables[i].path;
                if self.cache.admits(path.as_str(), key) {
                    match self.cache.seek_position(path.as_str(), key) {
                        Some((off, size)) => {
                            out.push((path.clone(), off, size));
                        },
                        None => {},
                    }
                }
            }
            proof {
                let t = ts[i as int];
                reveal(Seq::filter);
                assert(ts.take(i + 1).drop_last() =~= ts.take(i as int));
                assert(ts.take(i + 1).last() == t);
                assert(t.1 == tables@[i as int].path@);
                assert(t.2 == tables@[i as int].level);
                let f = ts.take(i as int).filter(p);
                if level_ok {
                    assert(ts.take(i + 1).filter(p) == f.push(t));
                    assert(f.push(t).drop_last() =~= f);
                    if cv.contains_key(t.1) && admits(cv[t.1].0, key@) && locate(cv[t.1].1, key@) is Some {
                        assert(plans_view(out@) =~= plans_view(before).push((t.1, locate(cv[t.1].1, key@)->Some_0.0, locate(cv[t.1].1, key@)->Some_0.1)));
                    } else {
                        assert(plans_view(out@) =~= plans_view(before));
                    }
                } else {
                    assert(ts.take(i + 1).filter(p) == f);
                    assert(plans_view(out@) =~= plans_view(before));
                }
                assert(plans_view(old(out)@) + plan_of(ts.filter(p), cv, key@) =~= plans_view(out@) + plan_of(ts.take(i as int).filter(p), cv, key@));
            }
        }
        proof {
            reveal(Seq::filter);
            assert(ts.take(0) =~= Seq::<TableView>::empty());
            assert(ts.take(0).filter(p) =~= Seq::<TableView>::empty());
            assert(plans_view(out@) =~= plans_view(old(out)@) + plan_of(ts.filter(p), cv, key@));
        }
    }

    /// The value of `key`: from the memtables, else from `blocks`, the
    /// encoded blocks of `read_plan(key)` in its order. A tombstone, or no
    /// entry anywhere, gives `None`.
    pub fn get(&self, key: &str, blocks: &Vec<Vec<u8>>) -> (r: Option<String>)
        requires
            self.wf(),
        ensures
            match r {
                Some(v) => get_result(self.memory(), blocks_view(blocks@), key@) == Some(v@),
                None => get_result(self.memory(), blocks_view(blocks@), key@) is None,
            },
    {
        match self.get_in_memory(key) {
            Lookup::Present(v) => return Some(v),
            Lookup::Tombstoned => return None,
            Lookup::Missing => {},
        }
        let ghost bv = blocks_view(blocks@);
        let mut i: usize = 0;
        assert(bv.skip(0) =~= bv);
        while i < blocks.len()
            invariant
                bv == blocks_view(blocks@),
                i <= bv.len(),
                !self.memory().contains_key(key@),
                blocks_say(bv, key@) == blocks_say(bv.skip(i as int), key@),
            decreases bv.len() - i,
        {
            let found = search_block(blocks[i].as_slice(), key);
            proof {
                assert(bv.skip(i as int)[0] == blocks@[i as int]@);
                assert(bv.skip(i as int).drop_first() =~= bv.skip(i + 1));
                if exists|s: Seq<crate::memtable::EntryView>| enc_block(s) == blocks@[i as int]@ {
                    let s = choose|s: Seq<crate::memtable::EntryView>| enc_block(s) == blocks@[i as int]@;
                    assert(enc_block(s) == blocks@[i as int]@);
                    assert(found matches Some(l) && l@ == find_entry(s, key@));
                    assert(block_says(bv.skip(i as int)[0], key@) == find_entry(s, key@));
                } else {
                    assert(found is None);
                }
            }
            match found {
                Some(Lookup::Present(v)) => return Some(v),
                Some(Lookup::Tombstoned) => return None,
                _ => {},
            }
            i = i + 1;
        }
        None
    }
}

/// First and last key of a memtable, empty strings when it is empty.
fn key_range(m: &MemTable) -> (r: (String, String))
    requires
        m.wf(),
    ensures
        m.entries().len() > 0 ==> r.0@ == m.entries()[0].0 && r.1@ == m.entries().last().0,
        m.entries().len() == 0 ==> r.0@.len() == 0 && r.1@.len() == 0,
{
    let t = m.tree();
    if t.len() == 0 {
        (String::new(), String::new())
    } else {
        (t[0].0.clone(), t[t.len() - 1].0.clone())
    }
}

/// A write is seen by the next lookup of its key, whatever the tables hold:
/// after a put the lookup gives its value, after a delete it gives nothing.
pub proof fn lemma_last_write_observed(memory: KvMap, blocks: Seq<Seq<u8>>, key: Seq<char>, value: Seq<char>)
    ensures
        get_result(memory.insert(key, Some(value)), blocks, key) == Some(value),
        get_result(memory.insert(key, None), blocks, key) is None,
{
}

/// The last of `ops` on key `k`: `Some(Some(v))` for a put of `v`,
/// `Some(None)` for a delete, `None` when no operation touches `k`.
pub open spec fn last_write(ops: Seq<WalOp>, k: Seq<char>) -> Option<Option<Seq<char>>>
    decreases ops.len(),
{
    if ops.len() == 0 {
        None
    } else if ops.last().2 == k {
        Some(if ops.last().1 { Some(ops.last().3) } else { None })
    } else {
        last_write(ops.drop_last(), k)
    }
}

/// After a sequence of puts and deletes applied to the memtables, a lookup
/// of any key the sequence touched gives the value of its last put, or
/// nothing if its last operation was a delete, whatever the tables hold.
/// Replaying a log segment applies its operations to an empty memtable, so
/// the same holds after recovery for every key written in that segment.
pub proof fn lemma_last_write_wins(memory: KvMap, ops: Seq<WalOp>, blocks: Seq<Seq<u8>>, k: Seq<char>)
    requires
        last_write(ops, k) is Some,
    ensures
        get_result(apply_ops(memory, ops), blocks, k) == match last_write(ops, k) {
            Some(Some(v)) => Some(v),
            _ => None::<Seq<char>>,
        },
    decreases ops.len(),
{
    if ops.last().2 != k {
        lemma_last_write_wins(memory, ops.drop_last(), blocks, k);
    }
}

/// Where block `i` begins among the entries of all blocks.
pub open spec fn block_start(blocks: Seq<Seq<EntryView>>, i: int) -> int {
    flatten(blocks.take(i)).len() as int
}

proof fn lemma_flatten_at(blocks: Seq<Seq<EntryView>>, i: int, t: int)
    requires
        0 <= i < blocks.len(),
        0 <= t < blocks[i].len(),
    ensures
        block_start(blocks, i) + blocks[i].len() <= flatten(blocks).len(),
        flatten(blocks)[block_start(blocks, i) + t] == blocks[i][t],
    decreases blocks.len(),
{
    let d = blocks.drop_last();
    if i == blocks.len() - 1 {
        assert(blocks.take(i) =~= d);
    } else {
        lemma_flatten_at(d, i, t);
        assert(d.take(i) =~= blocks.take(i));
    }
}

proof fn lemma_block_start_grows(blocks: Seq<Seq<EntryView>>, i: int, j: int)
    requires
        0 <= i < j <= blocks.len(),
    ensures
        block_start(blocks, i) + blocks[i].len() <= block_start(blocks, j),
    decreases j - i,
{
    assert(blocks.take(i + 1).drop_last() =~= blocks.take(i));
    if j > i + 1 {
        lemma_block_start_grows(blocks, i + 1, j);
        assert(blocks.take(j).drop_last() =~= blocks.take(j - 1));
        lemma_block_start_grows_step(blocks, i + 1, j);
    }
}

proof fn lemma_block_start_grows_step(blocks: Seq<Seq<EntryView>>, i: int, j: int)
    requires
        0 <= i <= j <= blocks.len(),
    ensures
        block_start(blocks, i) <= block_start(blocks, j),
    decreases j - i,
{
    if i < j {
        assert(blocks.take(j).drop_last() =~= blocks.take(j - 1));
        lemma_block_start_grows_step(blocks, i, j - 1);
    }
}

/// Entry `q` of all blocks stands in some block.
proof fn lemma_flatten_locate(blocks: Seq<Seq<EntryView>>, q: int) -> (r: (int, int))
    requires
        0 <= q < flatten(blocks).len(),
    ensures
        0 <= r.0 < blocks.len(),
        0 <= r.1 < blocks[r.0].len(),
        block_start(blocks, r.0) + r.1 == q,
    decreases blocks.len(),
{
    let d = blocks.drop_last();
    if q >= flatten(d).len() {
        assert(blocks.take(blocks.len() - 1) =~= d);
        (blocks.len() - 1, q - flatten(d).len())
    } else {
        let r = lemma_flatten_locate(d, q);
        assert(d.take(r.0) =~= blocks.take(r.0));
        r
    }
}

/// `locate` picks record `j` when every earlier record ends below `k`
/// and record `j` spans it.
proof fn lemma_locate_at(recs: Seq<RecordView>, k: Seq<char>, j: int)
    requires
        0 <= j < recs.len(),
        forall|i: int| 0 <= i < j ==> key_lt(#[trigger] recs[i].1, k),
        !key_lt(k, recs[j].0),
        !key_lt(recs[j].1, k),
    ensures
        locate(recs, k) == Some((recs[j].2, recs[j].3)),
    decreases j,
{
    if j > 0 {
        crate::order::lemma_key_lt_asymmetric(recs[0].1, k);
        assert forall|i: int| 0 <= i < j - 1 implies key_lt(#[trigger] recs.drop_first()[i].1, k) by {
            assert(recs.drop_first()[i] == recs[i + 1]);
        }
        lemma_locate_at(recs.drop_first(), k, j - 1);
    }
}

proof fn lemma_find_entry_at(c: Seq<EntryView>, t: int)
    requires
        0 <= t < c.len(),
        forall|u: int| 0 <= u < t ==> #[trigger] c[u].0 != c[t].0,
    ensures
        find_entry(c, c[t].0) == Some(c[t].1),
    decreases t,
{
    if t > 0 {
        assert forall|u: int| 0 <= u < t - 1 implies #[trigger] c.drop_first()[u].0 != c.drop_first()[t - 1].0 by {
            assert(c.drop_first()[u] == c[u + 1]);
        }
        lemma_find_entry_at(c.drop_first(), t - 1);
    }
}

/// A key that holds a value in the entries of a table file reads back from
/// that file: its index locates a block, and that block holds the value.
/// With the filter, which admits every key put into the memtable, this is
/// what a lookup after a flush or a compaction goes through.
pub proof fn lemma_table_value_reads_back(
    bytes: Seq<u8>,
    footer: SSTableFooter,
    recs: Seq<RecordView>,
    blocks: Seq<Seq<EntryView>>,
    s: Seq<EntryView>,
    bits: Seq<bool>,
    m: nat,
    k: Seq<char>,
    v: Seq<char>,
)
    requires
        table_image_of(bytes, footer, recs, blocks, s, bits, m),
        sorted(s),
        entries_map(s).contains_key(k),
        entries_map(s)[k] == Some(v),
    ensures
        locate(recs, k) matches Some((off, size)) && block_says(bytes.subrange(off as int, off + size), k) == Some(Some(v)),
{
    crate::memtable::lemma_sorted_unique(s);
    let q = choose|q: int| 0 <= q < s.len() && s[q].0 == k;
    crate::memtable::lemma_entries_map_at(s, q);
    let (j, t) = lemma_flatten_locate(blocks, q);
    let b = blocks[j];
    let st = block_start(blocks, j);
    lemma_flatten_at(blocks, j, t);
    assert(b[t] == s[q]);
    assert forall|i: int| 0 <= i < j implies key_lt(#[trigger] recs[i].1, k) by {
        let bi = blocks[i];
        lemma_flatten_at(blocks, i, bi.len() - 1);
        lemma_block_start_grows(blocks, i, j);
        assert(recs[i].1 == bi.last().0);
    }
    lemma_flatten_at(blocks, j, 0);
    lemma_flatten_at(blocks, j, b.len() - 1);
    assert(recs[j].0 == b[0].0);
    assert(recs[j].1 == b.last().0);
    if t > 0 {
        crate::order::lemma_key_lt_asymmetric(b[0].0, k);
    } else {
        crate::order::lemma_key_lt_irreflexive(k);
    }
    if t < b.len() - 1 {
        crate::order::lemma_key_lt_asymmetric(k, b.last().0);
    } else {
        crate::order::lemma_key_lt_irreflexive(k);
    }
    lemma_locate_at(recs, k, j);
    let off = recs[j].2;
    let size = recs[j].3;
    assert(starts_at(bytes, off as int, enc_block(b)));
    let sub = bytes.subrange(off as int, off + size);
    assert(sub == enc_block(b));
    assert(exists|c: Seq<EntryView>| enc_block(c) == sub);
    let c = choose|c: Seq<EntryView>| enc_block(c) == sub;
    crate::codec::lemma_block_unique(c, b);
    assert forall|u: int| 0 <= u < t implies #[trigger] b[u].0 != b[t].0 by {
        lemma_flatten_at(blocks, j, u);
        crate::order::lemma_key_lt_irreflexive(k);
    }
    lemma_find_entry_at(b, t);
}

} // verus!
