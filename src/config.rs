//! Settings of the engine, handed to it when it is built.

use vstd::prelude::*;

verus! {

#[derive(Debug, Clone)]
pub struct MemTableConfig {
    pub max_entries: usize,
}

#[derive(Debug, Clone)]
pub struct SSTableConfig {
    pub manifest_location: String,
    pub l0_file_count_limit: usize,
    pub l1_file_size_upper_limit: usize,
}

#[derive(Debug, Clone)]
pub struct WALConfig {
    pub version: u64,
}

#[derive(Debug, Clone)]
pub struct CacheConfig {
    pub index_size: usize,
    pub bloom_filter_size: usize,
}

#[derive(Debug, Clone)]
pub struct Directories {
    pub log: String,
    pub wal: String,
    pub ss_table: String,
}

#[derive(Debug, Clone)]
pub struct Config {
    pub wal: WALConfig,
    pub memtable: MemTableConfig,
    pub directory: Directories,
    pub cache: CacheConfig,
    pub ss_table: SSTableConfig,
}

impl Config {
    /// Sizes the engine can run with: a filter of at least one bit and
    /// blocks of at least one entry.
    pub open spec fn valid(&self) -> bool {
        self.cache.bloom_filter_size > 0 && self.cache.index_size > 0
    }

    /// Settings for tests: five entries per memtable, two entries per
    /// block, compaction from four level-0 tables.
    pub fn test() -> (r: Self)
        ensures
            r.valid(),
            r.memtable.max_entries == 5,
            r.cache.index_size == 2,
            r.ss_table.l0_file_count_limit == 4,
    {
        Config {
            wal: WALConfig { version: 1 },
            memtable: MemTableConfig { max_entries: 5 },
            directory: Directories {
                log: "src/config/log4rs.test.yaml".to_owned(),
                wal: "data/test/wals".to_owned(),
                ss_table: "data/test/ss_tables".to_owned(),
            },
            cache: CacheConfig { index_size: 2, bloom_filter_size: 1000 },
            ss_table: SSTableConfig {
                manifest_location: "data/test/catalog.json".to_owned(),
                l0_file_count_limit: 4,
                l1_file_size_upper_limit: 10,
            },
        }
    }
}

} // verus!
