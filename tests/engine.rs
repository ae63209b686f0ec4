use std::collections::HashMap;

use lsm_tree::cache::Cache;
use lsm_tree::compaction::CompactionManager;
use lsm_tree::config::Config;
use lsm_tree::lsm::Lsm;
use lsm_tree::manifest::Manifest;
use lsm_tree::memtable::{Lookup, MemTable};
use lsm_tree::wal::{replay, Operations};

/// Files the engine would write, kept in memory.
struct Disk {
    tables: HashMap<String, Vec<u8>>,
    wals: HashMap<String, Vec<u8>>,
}

impl Disk {
    fn new() -> Self {
        Disk { tables: HashMap::new(), wals: HashMap::new() }
    }
}

fn engine(config: Config) -> Lsm {
    let memtable = MemTable::new(config.cache.bloom_filter_size);
    let manifest = Manifest::new(&config.directory.ss_table);
    Lsm::new(config, memtable, manifest, Cache::new(), 1)
}

fn log(lsm: &Lsm, disk: &mut Disk, op: Operations, key: &str, value: &str) {
    let record = lsm.wal_record(op, key, value);
    disk.wals.entry(lsm.write_path()).or_default().extend_from_slice(&record);
}

/// Puts without completing a flush it starts; returns the pending job.
fn put_pending(lsm: &mut Lsm, disk: &mut Disk, key: &str, value: &str) -> Option<lsm_tree::lsm::FlushJob> {
    log(lsm, disk, Operations::Put, key, value);
    let job = lsm.rotate();
    assert!(lsm.add(key, value).is_none());
    job
}

fn finish(lsm: &mut Lsm, disk: &mut Disk, job: lsm_tree::lsm::FlushJob) {
    disk.tables.insert(job.path.clone(), job.image.bytes.clone());
    lsm.finish_flush(job).unwrap();
}

fn put(lsm: &mut Lsm, disk: &mut Disk, key: &str, value: &str) {
    if let Some(job) = put_pending(lsm, disk, key, value) {
        finish(lsm, disk, job);
    }
}

fn delete(lsm: &mut Lsm, disk: &mut Disk, key: &str) {
    log(lsm, disk, Operations::Delete, key, "");
    let job = lsm.rotate();
    assert!(lsm.delete(key).is_none());
    if let Some(job) = job {
        finish(lsm, disk, job);
    }
}

fn get(lsm: &Lsm, disk: &Disk, key: &str) -> Option<String> {
    let plan = lsm.read_plan(key);
    let blocks: Vec<Vec<u8>> = plan
        .iter()
        .map(|(path, offset, size)| {
            let file = &disk.tables[path];
            file[*offset as usize..(*offset + *size) as usize].to_vec()
        })
        .collect();
    lsm.get(key, &blocks)
}

fn compact_once(lsm: &mut Lsm, disk: &mut Disk) -> bool {
    let manager = CompactionManager::new(lsm.config().ss_table.l0_file_count_limit);
    let nominees = manager.monitor_l0(lsm.manifest());
    if nominees.len() < 2 {
        return false;
    }
    let older = disk.tables[&nominees[0].path].clone();
    let newer = disk.tables[&nominees[1].path].clone();
    let job = lsm.compact(&nominees[0], &older, &newer).unwrap();
    disk.tables.insert(job.path.clone(), job.image.bytes.clone());
    lsm.finish_compaction(job, &nominees).unwrap();
    for t in &nominees {
        disk.tables.remove(&t.path);
    }
    true
}

fn level_count(lsm: &Lsm, level: u64) -> usize {
    lsm.manifest().ss_tables_in_level(level).len()
}

#[test]
fn test_test() {
    let mut disk = Disk::new();
    let mut lsm = engine(Config::test());

    put(&mut lsm, &mut disk, "1", "test1");
    put(&mut lsm, &mut disk, "2", "test2");
    put(&mut lsm, &mut disk, "3", "test3");
    put(&mut lsm, &mut disk, "4", "test4");
    put(&mut lsm, &mut disk, "5", "test5");

    put(&mut lsm, &mut disk, "6", "test6");
    put(&mut lsm, &mut disk, "7", "test7");
    put(&mut lsm, &mut disk, "8", "test8");
    delete(&mut lsm, &mut disk, "2");
    put(&mut lsm, &mut disk, "10", "test10");

    assert_eq!(get(&lsm, &disk, "1"), Some("test1".to_owned()));
    assert_eq!(get(&lsm, &disk, "4"), Some("test4".to_owned()));
    assert_eq!(get(&lsm, &disk, "6"), Some("test6".to_owned()));
    assert_eq!(get(&lsm, &disk, "2"), None);
    assert_eq!(get(&lsm, &disk, "abc"), None);
}

#[test]
fn basic_overlay() {
    let mut disk = Disk::new();
    let mut lsm = engine(Config::test());
    put(&mut lsm, &mut disk, "a", "1");
    put(&mut lsm, &mut disk, "b", "2");
    assert_eq!(get(&lsm, &disk, "a"), Some("1".to_owned()));
    assert_eq!(get(&lsm, &disk, "c"), None);
}

#[test]
fn tombstone_shadowing() {
    let mut disk = Disk::new();
    let mut lsm = engine(Config::test());
    put(&mut lsm, &mut disk, "k", "v");
    delete(&mut lsm, &mut disk, "k");
    assert_eq!(get(&lsm, &disk, "k"), None);
    assert_eq!(lsm.get_in_memory("k"), Lookup::Tombstoned);
}

#[test]
fn flush_crossover() {
    let mut disk = Disk::new();
    let mut lsm = engine(Config::test());
    for i in 1..=5 {
        let job = put_pending(&mut lsm, &mut disk, &i.to_string(), &format!("v{}", i));
        assert!(job.is_none());
    }
    assert_eq!(lsm.wal_index(), 1);
    let job = put_pending(&mut lsm, &mut disk, "6", "v6").expect("the sixth put starts a flush");
    assert!(lsm.is_flushing());
    assert_eq!(lsm.wal_index(), 2);
    assert_eq!(get(&lsm, &disk, "3"), Some("v3".to_owned()));
    finish(&mut lsm, &mut disk, job);
    assert!(!lsm.is_flushing());
    assert_eq!(lsm.get_in_memory("3"), Lookup::Missing);
    assert_eq!(get(&lsm, &disk, "3"), Some("v3".to_owned()));
    assert_eq!(get(&lsm, &disk, "6"), Some("v6".to_owned()));
}

#[test]
fn second_flush_waits_for_the_first() {
    let mut disk = Disk::new();
    let mut lsm = engine(Config::test());
    for i in 1..=5 {
        put(&mut lsm, &mut disk, &format!("k{}", i), "x");
    }
    let first = put_pending(&mut lsm, &mut disk, "k6", "x").unwrap();
    for i in 7..=12 {
        assert!(put_pending(&mut lsm, &mut disk, &format!("k{}", i), "x").is_none());
    }
    finish(&mut lsm, &mut disk, first);
    let second = put_pending(&mut lsm, &mut disk, "k13", "x").unwrap();
    finish(&mut lsm, &mut disk, second);
    for i in 1..=13 {
        assert_eq!(get(&lsm, &disk, &format!("k{}", i)), Some("x".to_owned()));
    }
}

#[test]
fn multi_table_lookup() {
    let mut disk = Disk::new();
    let mut lsm = engine(Config::test());
    for i in 1..=8 {
        put(&mut lsm, &mut disk, &format!("key{}", i), &format!("value{}", i));
    }
    assert_eq!(level_count(&lsm, 0), 1);
    assert_eq!(lsm.get_in_memory("key2"), Lookup::Missing);
    assert_eq!(get(&lsm, &disk, "key2"), Some("value2".to_owned()));
    assert_eq!(lsm.get_in_memory("key8"), Lookup::Present("value8".to_owned()));
    assert_eq!(get(&lsm, &disk, "key8"), Some("value8".to_owned()));
}

#[test]
fn compaction_merge() {
    let mut disk = Disk::new();
    let mut lsm = engine(Config::test());
    let mut written = Vec::new();
    let mut n = 0;
    while level_count(&lsm, 0) < 5 {
        let key = format!("key{:03}", n % 17);
        let value = format!("value{}", n);
        put(&mut lsm, &mut disk, &key, &value);
        written.push((key, value));
        n += 1;
    }
    assert!(compact_once(&mut lsm, &mut disk));
    assert!(level_count(&lsm, 0) <= 3);
    assert!(level_count(&lsm, 1) >= 1);
    let mut latest: HashMap<String, String> = HashMap::new();
    for (k, v) in written {
        latest.insert(k, v);
    }
    for (k, v) in latest {
        assert_eq!(get(&lsm, &disk, &k), Some(v));
    }
}

#[test]
fn compaction_keeps_newer_values_and_tombstones() {
    let mut disk = Disk::new();
    let mut lsm = engine(Config::test());
    for k in ["a", "b", "c", "d", "e"] {
        put(&mut lsm, &mut disk, k, "old");
    }
    put(&mut lsm, &mut disk, "b", "new");
    delete(&mut lsm, &mut disk, "c");
    for k in ["f", "g", "h"] {
        put(&mut lsm, &mut disk, k, "x");
    }
    put(&mut lsm, &mut disk, "z", "x");
    assert_eq!(level_count(&lsm, 0), 2);
    let nominees = lsm.manifest().compaction_nominees(0);
    let older = disk.tables[&nominees[0].path].clone();
    let newer = disk.tables[&nominees[1].path].clone();
    let job = lsm.compact(&nominees[0], &older, &newer).unwrap();
    assert_eq!(job.level, 1);
    disk.tables.insert(job.path.clone(), job.image.bytes.clone());
    lsm.finish_compaction(job, &nominees).unwrap();
    assert_eq!(level_count(&lsm, 0), 0);
    assert_eq!(level_count(&lsm, 1), 1);
    assert_eq!(get(&lsm, &disk, "a"), Some("old".to_owned()));
    assert_eq!(get(&lsm, &disk, "b"), Some("new".to_owned()));
    assert_eq!(get(&lsm, &disk, "c"), None);
    assert_eq!(get(&lsm, &disk, "h"), Some("x".to_owned()));
}

#[test]
fn compaction_waits_for_the_limit() {
    let mut disk = Disk::new();
    let mut lsm = engine(Config::test());
    for i in 0..18 {
        put(&mut lsm, &mut disk, &format!("k{:02}", i), "v");
    }
    assert_eq!(level_count(&lsm, 0), 3);
    assert!(!compact_once(&mut lsm, &mut disk));
}

#[test]
fn crash_recovery() {
    let mut disk = Disk::new();
    let config = Config::test();
    let mut lsm = engine(config.clone());
    put(&mut lsm, &mut disk, "x", "1");
    let segment = disk.wals[&lsm.wal_path()].clone();
    drop(lsm);

    let replayed = replay(&segment, config.cache.bloom_filter_size);
    assert_eq!(replayed.skipped, 0);
    assert!(replayed.complete);
    let manifest = Manifest::new(&config.directory.ss_table);
    let restarted = Lsm::new(config, replayed.memtable, manifest, Cache::new(), 1);
    assert_eq!(get(&restarted, &disk, "x"), Some("1".to_owned()));
}

#[test]
fn crash_recovery_after_a_flush() {
    let mut disk = Disk::new();
    let config = Config::test();
    let mut lsm = engine(config.clone());
    for i in 1..=6 {
        put(&mut lsm, &mut disk, &format!("k{}", i), &format!("v{}", i));
    }
    delete(&mut lsm, &mut disk, "k2");
    assert_eq!(lsm.wal_index(), 2);
    let segment = disk.wals[&lsm.wal_path()].clone();
    let replayed = replay(&segment, config.cache.bloom_filter_size);
    assert_eq!(replayed.memtable.len(), 2);
    assert_eq!(replayed.skipped, 0);
    assert_eq!(replayed.memtable.get("k6"), Lookup::Present("v6".to_owned()));
    assert_eq!(replayed.memtable.get("k2"), Lookup::Tombstoned);
    assert_eq!(replayed.memtable.get("k1"), Lookup::Missing);
}

#[test]
fn finish_flush_without_a_flush_fails() {
    let mut disk = Disk::new();
    let mut lsm = engine(Config::test());
    for i in 1..=6 {
        put(&mut lsm, &mut disk, &format!("k{}", i), "v");
    }
    let mut other = engine(Config::test());
    for i in 1..=5 {
        put(&mut other, &mut disk, &format!("k{}", i), "v");
    }
    let job = put_pending(&mut other, &mut disk, "k6", "v").unwrap();
    assert!(matches!(lsm.finish_flush(job), Err(lsm_tree::error::LsmError::SsTableError(_))));
}

#[test]
fn compacting_an_unreadable_table_fails() {
    let mut lsm = engine(Config::test());
    let info = lsm_tree::manifest::SSTableBasicInfo::new(1, "t".to_owned(), 0, String::new(), String::new());
    let r = lsm.compact(&info, &[1, 2, 3], &[4, 5, 6]);
    assert!(matches!(r, Err(lsm_tree::error::LsmError::SsTableError(_))));
}

#[test]
fn delete_on_a_full_memtable_freezes_it() {
    let mut disk = Disk::new();
    let mut lsm = engine(Config::test());
    for i in 1..=5 {
        put(&mut lsm, &mut disk, &format!("k{}", i), "v");
    }
    assert!(lsm.rotation_due());
    assert_eq!(lsm.write_path(), "data/test/wals/0000000002.txt");
    let job = lsm.delete("k1").expect("a delete on a full memtable freezes it");
    assert!(lsm.is_flushing());
    assert_eq!(lsm.wal_index(), 2);
    assert_eq!(lsm.get_in_memory("k1"), Lookup::Tombstoned);
    assert_eq!(job.min_key, "k1");
    assert_eq!(job.max_key, "k5");
    assert_eq!(job.path, "data/test/ss_tables/L0_0000000001.sst");
    finish(&mut lsm, &mut disk, job);
    assert_eq!(get(&lsm, &disk, "k1"), None);
    assert_eq!(get(&lsm, &disk, "k3"), Some("v".to_owned()));
    assert_eq!(lsm.cache().get("k3"), vec!["data/test/ss_tables/L0_0000000001.sst".to_owned()]);
}

#[test]
fn write_path_follows_the_coming_rotation() {
    let mut disk = Disk::new();
    let mut lsm = engine(Config::test());
    assert!(!lsm.rotation_due());
    assert_eq!(lsm.write_path(), lsm.wal_path());
    for i in 1..=5 {
        put(&mut lsm, &mut disk, &format!("k{}", i), "v");
    }
    assert_eq!(lsm.wal_path(), "data/test/wals/0000000001.txt");
    put(&mut lsm, &mut disk, "k6", "v");
    let second = disk.wals["data/test/wals/0000000002.txt"].clone();
    let replayed = replay(&second, 16);
    assert_eq!(replayed.memtable.len(), 1);
    assert_eq!(replayed.memtable.get("k6"), Lookup::Present("v".to_owned()));
}
