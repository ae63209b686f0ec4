use lsm_tree::bloom_filter::BloomFilter;
use lsm_tree::cache::Cache;
use lsm_tree::codec::{decode_block, encode_block, read_str, read_u64};
use lsm_tree::compaction::{merge, CompactionManager};
use lsm_tree::manifest::{Manifest, SSTableBasicInfo};
use lsm_tree::memtable::{Lookup, MemTable};
use lsm_tree::order::{compare_bytes, compare_keys};
use lsm_tree::ss_table::{
    build_table, decode_index, encode_footer, encode_index, read_footer, read_table, read_table_meta, search_block, IndexRecord,
    SSTableFooter,
};
use lsm_tree::text::{decimal_bytes, parse_decimal, push_decimal_padded};
use lsm_tree::wal::{checksum, encode_record, replay, segment_index, wal_file_path, Operations, WriteAheadLogger};

fn entries(pairs: &[(&str, Option<&str>)]) -> Vec<(String, Option<String>)> {
    pairs.iter().map(|(k, v)| (k.to_string(), v.map(|s| s.to_string()))).collect()
}

fn memtable(pairs: &[(&str, Option<&str>)]) -> MemTable {
    let mut m = MemTable::new(64);
    for (k, v) in pairs {
        match v {
            Some(v) => m.add(k, v),
            None => m.delete(k),
        }
    }
    m
}

#[test]
fn keys_compare_bytewise() {
    assert!(compare_keys("a", "b") < 0);
    assert!(compare_keys("b", "a") > 0);
    assert_eq!(compare_keys("abc", "abc"), 0);
    assert!(compare_keys("ab", "abc") < 0);
    assert!(compare_keys("10", "9") < 0);
    assert!(compare_keys("", "a") < 0);
    assert!(compare_bytes(&[1, 2], &[1, 3]) < 0);
}

#[test]
fn filter_admits_every_put_key() {
    let mut f = BloomFilter::new(100);
    let keys = ["alpha", "beta", "gamma", "delta", "epsilon"];
    assert!(!f.contains("alpha"));
    for k in keys {
        f.update(k);
    }
    for k in keys {
        assert!(f.contains(k));
    }
    let set = f.persist_value().split(',').filter(|b| *b == "1").count();
    assert!(set >= 1 && set <= 15);
}

#[test]
fn filter_text_round_trip() {
    let mut f = BloomFilter::new(5);
    f.update("k");
    let text = f.persist_value();
    assert_eq!(text.len(), 9);
    assert!(text.chars().enumerate().all(|(i, c)| if i % 2 == 1 { c == ',' } else { c == '0' || c == '1' }));
    let back = BloomFilter::from_string(&format!("{}\n", text)).unwrap();
    assert_eq!(back.persist_value(), text);
    assert!(back.contains("k"));
    assert_eq!(BloomFilter::new(3).persist_value(), "0,0,0");
    assert_eq!(BloomFilter::from_string("1,0,1\n").unwrap().persist_value(), "1,0,1");
}

#[test]
fn filter_text_rejects_malformed_input() {
    assert!(BloomFilter::from_string("0,1").is_none());
    assert!(BloomFilter::from_string("0,2\n").is_none());
    assert!(BloomFilter::from_string("0;1\n").is_none());
    assert!(BloomFilter::from_string("").is_none());
    assert!(BloomFilter::from_string("\n").is_none());
}

#[test]
fn memtable_overlay_and_tombstones() {
    let mut m = MemTable::new(16);
    m.add("b", "2");
    m.add("a", "1");
    m.add("c", "3");
    m.add("a", "one");
    m.delete("b");
    m.delete("z");
    assert_eq!(m.len(), 4);
    assert_eq!(m.get("a"), Lookup::Present("one".to_owned()));
    assert_eq!(m.get("b"), Lookup::Tombstoned);
    assert_eq!(m.get("q"), Lookup::Missing);
    let keys: Vec<&str> = m.tree().iter().map(|(k, _)| k.as_str()).collect();
    assert_eq!(keys, vec!["a", "b", "c", "z"]);
    assert!(m.filter().contains("b"));
}

#[test]
fn block_encoding_matches_bincode() {
    let block = entries(&[("a", Some("1")), ("bb", None), ("ccc", Some(""))]);
    let ours = encode_block(&block);
    let theirs = bincode::serialize(&block).unwrap();
    assert_eq!(ours, theirs);
    let empty: Vec<(String, Option<String>)> = Vec::new();
    assert_eq!(encode_block(&empty), vec![0u8; 8]);
}

#[test]
fn block_round_trip_and_rejects() {
    let block = entries(&[("k1", Some("v1")), ("k2", None)]);
    let bytes = encode_block(&block);
    assert_eq!(decode_block(&bytes), Some(block));
    assert_eq!(decode_block(&bytes[..bytes.len() - 1]), None);
    let mut longer = bytes.clone();
    longer.push(0);
    assert_eq!(decode_block(&longer), None);
    assert_eq!(decode_block(&[]), None);
}

#[test]
fn primitive_reads() {
    assert_eq!(read_u64(&[1, 0, 0, 0, 0, 0, 0, 0, 9], 0), Some((1, 8)));
    assert_eq!(read_u64(&[1, 2, 3], 0), None);
    let mut b = vec![2u8, 0, 0, 0, 0, 0, 0, 0];
    b.extend_from_slice(b"hi");
    assert_eq!(read_str(&b, 0), Some(("hi".to_owned(), 10)));
    assert_eq!(read_str(&[3, 0, 0, 0, 0, 0, 0, 0, 0xff, 0xfe, 0xfd], 0), None);
}

#[test]
fn search_block_distinguishes_tombstones() {
    let bytes = encode_block(&entries(&[("a", Some("1")), ("b", None)]));
    assert_eq!(search_block(&bytes, "a"), Some(Lookup::Present("1".to_owned())));
    assert_eq!(search_block(&bytes, "b"), Some(Lookup::Tombstoned));
    assert_eq!(search_block(&bytes, "c"), Some(Lookup::Missing));
    assert_eq!(search_block(&[9, 9], "a"), None);
}

#[test]
fn index_and_footer_encodings() {
    let recs = vec![
        IndexRecord { start: "a".to_owned(), end: "b".to_owned(), offset: 0, size: 40 },
        IndexRecord { start: "c".to_owned(), end: "c".to_owned(), offset: 40, size: 20 },
    ];
    let bytes = encode_index(&recs);
    assert_eq!(bytes.len(), 8 + 2 * (8 + 1 + 8 + 1 + 16));
    assert_eq!(decode_index(&bytes), Some(recs));
    assert_eq!(decode_index(&bytes[1..]), None);
    let f = SSTableFooter { bloom_filter_offset: 1, bloom_filter_size: 2, index_offset: 3, index_size: 258 };
    let fb = encode_footer(&f);
    assert_eq!(fb.len(), 32);
    assert_eq!(&fb[24..32], &[2, 1, 0, 0, 0, 0, 0, 0]);
    let mut file = vec![7u8; 5];
    file.extend_from_slice(&fb);
    assert_eq!(read_footer(&file), Some(f));
    assert_eq!(read_footer(&fb[..31]), None);
}

#[test]
fn table_round_trip() {
    let m = memtable(&[
        ("e", Some("5")),
        ("a", Some("1")),
        ("c", None),
        ("b", Some("2")),
        ("d", Some("4")),
    ]);
    let img = build_table(&m, 2);
    assert_eq!(img.index.len(), 3);
    let back = read_table(&img.bytes).unwrap();
    assert_eq!(&back, m.tree());
    let footer = read_footer(&img.bytes).unwrap();
    assert_eq!(footer, img.footer);
    assert_eq!(footer.index_offset + footer.index_size + 32, img.bytes.len() as u64);
    let filter_text = &img.bytes[footer.bloom_filter_offset as usize..(footer.bloom_filter_offset + footer.bloom_filter_size) as usize];
    assert_eq!(String::from_utf8(filter_text.to_vec()).unwrap(), format!("{}\n", m.filter().persist_value()));
    assert_eq!(read_table(&img.bytes[..img.bytes.len() - 1]), None);
}

#[test]
fn table_index_is_ordered() {
    let m = memtable(&[("a", Some("1")), ("b", Some("2")), ("c", Some("3")), ("d", Some("4")), ("e", Some("5"))]);
    let img = build_table(&m, 2);
    let starts: Vec<&str> = img.index.iter().map(|r| r.start.as_str()).collect();
    let ends: Vec<&str> = img.index.iter().map(|r| r.end.as_str()).collect();
    assert_eq!(starts, vec!["a", "c", "e"]);
    assert_eq!(ends, vec!["b", "d", "e"]);
    assert_eq!(img.index[0].offset, 0);
    assert_eq!(img.index[1].offset, img.index[0].size);
    let empty = build_table(&MemTable::new(8), 2);
    assert!(empty.index.is_empty());
    assert_eq!(read_table(&empty.bytes), Some(Vec::new()));
}

#[test]
fn manifest_issues_growing_ids_and_paths() {
    let mut m = Manifest::new("tables");
    assert_eq!(m.next_id(), 1);
    let (path1, id1) = m.create_filename(0).unwrap();
    let (path2, id2) = m.create_filename(1).unwrap();
    assert_eq!(path1, "tables/L0_0000000001.sst");
    assert_eq!(path2, "tables/L1_0000000002.sst");
    assert_eq!((id1, id2), (1, 2));
    assert_eq!(m.next_id(), 3);
    assert!(m.add(SSTableBasicInfo::new(id2, path2.clone(), 1, "a".into(), "z".into())));
    assert!(m.add(SSTableBasicInfo::new(id1, path1.clone(), 0, "a".into(), "z".into())));
    assert!(!m.add(SSTableBasicInfo::new(id1, path1.clone(), 0, "a".into(), "z".into())));
    assert!(!m.add(SSTableBasicInfo::new(7, "x".into(), 0, "".into(), "".into())));
    let ids: Vec<u64> = m.ss_tables().iter().map(|t| t.id).collect();
    assert_eq!(ids, vec![1, 2]);
    assert_eq!(m.ss_tables_in_level(1).len(), 1);
    let t1 = m.ss_tables()[0].clone();
    m.remove(&t1);
    assert!(!m.add(t1));
    assert_eq!(m.ss_tables().len(), 1);
}

#[test]
fn manifest_nominees_are_the_two_oldest() {
    let mut m = Manifest::new("d");
    for _ in 0..4 {
        let (p, id) = m.create_filename(0).unwrap();
        assert!(m.add(SSTableBasicInfo::new(id, p, 0, String::new(), String::new())));
    }
    let n: Vec<u64> = m.compaction_nominees(0).iter().map(|t| t.id).collect();
    assert_eq!(n, vec![1, 2]);
    assert!(m.compaction_nominees(3).is_empty());
    assert_eq!(CompactionManager::new(4).monitor_l0(&m).len(), 2);
    assert_eq!(CompactionManager::new(5).monitor_l0(&m).len(), 0);
}

#[test]
fn manifest_from_parts_checks_ids() {
    let t = |id| SSTableBasicInfo::new(id, format!("p{}", id), 0, String::new(), String::new());
    assert!(Manifest::from_parts(1, 5, vec![t(1), t(3)], "d").is_some());
    assert!(Manifest::from_parts(1, 5, vec![t(3), t(1)], "d").is_none());
    assert!(Manifest::from_parts(1, 3, vec![t(1), t(3)], "d").is_none());
    let mut m = Manifest::from_parts(1, 5, vec![t(1)], "d").unwrap();
    assert_eq!(m.create_filename(0).unwrap().1, 5);
}

#[test]
fn cache_candidates_and_block_location() {
    let mut c = Cache::new();
    let mut f1 = BloomFilter::new(64);
    f1.update("k");
    let idx = vec![
        IndexRecord { start: "a".into(), end: "f".into(), offset: 0, size: 10 },
        IndexRecord { start: "g".into(), end: "m".into(), offset: 10, size: 12 },
    ];
    c.add("t1", f1, idx);
    c.add("t2", BloomFilter::new(64), Vec::new());
    assert_eq!(c.get("k"), vec!["t1".to_owned()]);
    assert!(c.admits("t1", "k"));
    assert!(!c.admits("t2", "k"));
    assert_eq!(c.seek_position("t1", "k"), Some((10, 12)));
    assert_eq!(c.seek_position("t1", "c"), Some((0, 10)));
    assert_eq!(c.seek_position("t1", "z"), None);
    assert_eq!(c.seek_position("t3", "k"), None);
    c.remove("t1");
    assert!(c.get("k").is_empty());
}

#[test]
fn merge_prefers_newer() {
    let older = entries(&[("a", Some("1")), ("b", Some("2")), ("c", Some("3"))]);
    let newer = entries(&[("b", Some("20")), ("c", None), ("d", Some("4"))]);
    let m = merge(&older, &newer, 32);
    assert_eq!(
        m.tree(),
        &entries(&[("a", Some("1")), ("b", Some("20")), ("c", None), ("d", Some("4"))])
    );
}

#[test]
fn checksum_is_md5_hex_of_key_then_value() {
    assert_eq!(String::from_utf8(checksum("ab", "c")).unwrap(), "900150983cd24fb0d6963f7d28e17f72");
    assert_eq!(String::from_utf8(checksum("", "")).unwrap(), "d41d8cd98f00b204e9800998ecf8427e");
}

#[test]
fn wal_records_replay() {
    let mut seg = Vec::new();
    seg.extend(encode_record(1, Operations::Put, "a", "1"));
    seg.extend(encode_record(1, Operations::Put, "b", "2"));
    seg.extend(encode_record(1, Operations::Delete, "a", "ignored"));
    assert_eq!(*seg.last().unwrap(), b'|');
    let r = replay(&seg, 16);
    assert!(r.complete);
    assert_eq!(r.skipped, 0);
    assert_eq!(r.memtable.get("a"), Lookup::Tombstoned);
    assert_eq!(r.memtable.get("b"), Lookup::Present("2".to_owned()));
}

#[test]
fn wal_replay_skips_bad_checksum() {
    let mut first = encode_record(1, Operations::Put, "a", "1");
    let pos = 8 + 8 + 8 + 3;
    first[pos] = if first[pos] == b'0' { b'1' } else { b'0' };
    let mut seg = first;
    seg.extend(encode_record(1, Operations::Put, "b", "2"));
    let r = replay(&seg, 16);
    assert_eq!(r.skipped, 1);
    assert!(r.complete);
    assert_eq!(r.memtable.get("a"), Lookup::Missing);
    assert_eq!(r.memtable.get("b"), Lookup::Present("2".to_owned()));
}

#[test]
fn wal_replay_stops_at_a_broken_frame() {
    let mut seg = encode_record(1, Operations::Put, "a", "1");
    seg.extend(&encode_record(1, Operations::Put, "b", "2")[..10]);
    let r = replay(&seg, 16);
    assert!(!r.complete);
    assert_eq!(r.memtable.get("a"), Lookup::Present("1".to_owned()));
    assert_eq!(r.memtable.len(), 1);
}

#[test]
fn wal_segments_and_index() {
    assert_eq!(wal_file_path("data/wals", 7), "data/wals/0000000007.txt");
    let mut w = WriteAheadLogger::new("w", 41, 1);
    assert_eq!(w.index(), 41);
    assert_eq!(w.increment_index(), Some(41));
    assert_eq!(w.index(), 42);
    assert_eq!(w.wal_file_path(), "w/0000000042.txt");
    let names: Vec<String> = vec![".gitkeep".into(), "0000000002.txt".into(), "0000000010.txt".into()];
    assert_eq!(segment_index(&names), Some(10));
    assert_eq!(segment_index(&vec![".gitkeep".to_owned()]), Some(1));
    assert_eq!(segment_index(&Vec::new()), Some(1));
    assert_eq!(segment_index(&vec!["notes.md".to_owned()]), None);
}

#[test]
fn decimal_text() {
    assert_eq!(decimal_bytes(0), b"0".to_vec());
    assert_eq!(decimal_bytes(1234), b"1234".to_vec());
    let mut v = Vec::new();
    push_decimal_padded(&mut v, 42, 5);
    assert_eq!(v, b"00042".to_vec());
    assert_eq!(parse_decimal(b"18446744073709551615"), Some(u64::MAX));
    assert_eq!(parse_decimal(b"18446744073709551616"), None);
    assert_eq!(parse_decimal(b"12a"), None);
    assert_eq!(parse_decimal(b""), None);
}

#[test]
fn table_sections_follow_each_other() {
    let m = memtable(&[("a", Some("1")), ("b", Some("2")), ("c", None), ("d", Some("4")), ("e", Some("5"))]);
    let img = build_table(&m, 2);
    let f = img.footer;
    for w in img.index.windows(2) {
        assert_eq!(w[0].offset + w[0].size, w[1].offset);
    }
    let last = img.index.last().unwrap();
    assert_eq!(img.index[0].offset, 0);
    assert_eq!(last.offset + last.size, f.bloom_filter_offset);
    assert_eq!(f.bloom_filter_offset + f.bloom_filter_size, f.index_offset);
    assert_eq!(f.index_offset + f.index_size + 32, img.bytes.len() as u64);
    let (filter, index) = read_table_meta(&img.bytes).unwrap();
    assert_eq!(index, img.index);
    assert_eq!(filter.persist_value(), m.filter().persist_value());
    assert!(read_table_meta(&img.bytes[1..]).is_none());
}

#[test]
fn cache_candidates_come_in_insertion_order() {
    let mut c = Cache::new();
    for name in ["t3", "t1", "t2"] {
        let mut f = BloomFilter::new(32);
        f.update("k");
        c.add(name, f, Vec::new());
    }
    c.add("t1", BloomFilter::new(32), Vec::new());
    assert_eq!(c.get("k"), vec!["t3".to_owned(), "t2".to_owned()]);
}
