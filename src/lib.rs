//! Storage engine of an embedded, ordered key-value store built as a
//! log-structured merge tree: write-ahead log, memtable, sorted tables,
//! table catalog, metadata cache and level-0 compaction.

pub mod order;
pub mod text;
pub mod bloom_filter;
pub mod memtable;
pub mod codec;
pub mod ss_table;
pub mod manifest;
pub mod cache;
pub mod config;
pub mod error;
pub mod wal;
pub mod lsm;
pub mod compaction;
