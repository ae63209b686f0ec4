//! Sorted-table file format: data blocks, the membership filter, the block
//! index and a fixed 32-byte footer of four little-endian integers.

use vstd::prelude::*;
use vstd::utf8::*;
use crate::bloom_filter::{filter_line, filter_text, lemma_filter_line_round_trip, BloomFilter};
use crate::text::{all_ascii, lemma_ascii_valid_utf8, string_from_bytes};
use crate::codec::{
    append_bytes, decode_block, enc_block, enc_str, enc_u64, lemma_enc_u64, lemma_enc_u64_all, lemma_starts_at_concat,
    push_str, push_u64, read_str, read_u64, starts_at, encode_block,
};
use crate::memtable::{entries_view, entry_view, sorted, EntryView, Lookup, MemTable};
use crate::order::{lemma_key_lt_asymmetric, lemma_key_lt_irreflexive};
use crate::order::{compare_keys, key_lt};

verus! {

broadcast use vstd::utf8::group_utf8_lib;

/// Key range and byte range of one data block.
#[derive(Debug, Default, Clone, PartialEq, Eq)]
pub struct IndexRecord {
    pub start: String,
    pub end: String,
    pub offset: u64,
    pub size: u64,
}

/// First key, last key, offset and size of a block.
pub type RecordView = (Seq<char>, Seq<char>, u64, u64);

pub open spec fn record_view(r: IndexRecord) -> RecordView {
    (r.start@, r.end@, r.offset, r.size)
}

pub open spec fn records_view(v: Seq<IndexRecord>) -> Seq<RecordView> {
    v.map_values(|r: IndexRecord| record_view(r))
}

pub open spec fn enc_record(r: RecordView) -> Seq<u8> {
    enc_str(r.0) + enc_str(r.1) + enc_u64(r.2) + enc_u64(r.3)
}

pub open spec fn enc_records(s: Seq<RecordView>) -> Seq<u8>
    decreases s.len(),
{
    if s.len() == 0 {
        Seq::empty()
    } else {
        enc_records(s.drop_last()) + enc_record(s.last())
    }
}

/// Encoding of the block index.
pub open spec fn enc_index(s: Seq<RecordView>) -> Seq<u8> {
    enc_u64(s.len() as u64) + enc_records(s)
}

/// Where the filter and the index stand in a table file.
#[derive(Debug, Clone, Copy, PartialEq, Eq)]
pub struct SSTableFooter {
    pub bloom_filter_offset: u64,
    pub bloom_filter_size: u64,
    pub index_offset: u64,
    pub index_size: u64,
}

pub open spec fn enc_footer(f: SSTableFooter) -> Seq<u8> {
    enc_u64(f.bloom_filter_offset) + enc_u64(f.bloom_filter_size) + enc_u64(f.index_offset) + enc_u64(
        f.index_size,
    )
}

/// Size of the footer in bytes.
pub const FOOTER_SIZE: usize = 32;

proof fn lemma_enc_records_prefix(s: Seq<RecordView>, k: int)
    requires
        0 <= k <= s.len(),
    ensures
        enc_records(s.take(k)).len() <= enc_records(s).len(),
        enc_records(s).subrange(0, enc_records(s.take(k)).len() as int) == enc_records(s.take(k)),
    decreases s.len() - k,
{
    if k == s.len() {
        assert(s.take(k) =~= s);
        assert(enc_records(s).subrange(0, enc_records(s).len() as int) =~= enc_records(s));
    } else {
        lemma_enc_records_prefix(s, k + 1);
        assert(s.take(k + 1).drop_last() =~= s.take(k));
        let a = enc_records(s.take(k));
        let ab = enc_records(s.take(k + 1));
        assert(ab == a + enc_record(s[k]));
        assert(enc_records(s).subrange(0, a.len() as int) =~= ab.subrange(0, a.len() as int));
        assert(ab.subrange(0, a.len() as int) =~= a);
    }
}

proof fn lemma_enc_records_len(s: Seq<RecordView>)
    ensures
        enc_records(s).len() >= 32 * s.len(),
    decreases s.len(),
{
    if s.len() > 0 {
        lemma_enc_records_len(s.drop_last());
        lemma_enc_u64_all();
    }
}

pub fn encode_index(records: &[IndexRecord]) -> (r: Vec<u8>)
    ensures
        r@ == enc_index(records_view(records@)),
{
    let ghost s = records_view(records@);
    let mut out: Vec<u8> = Vec::new();
    push_u64(&mut out, records.len() as u64);
    let mut i: usize = 0;
    while i < records.len()
        invariant
            i <= records@.len(),
            s == records_view(records@),
            out@ == enc_u64(records@.len() as u64) + enc_records(s.take(i as int)),
        decreases records@.len() - i,
    {
        push_str(&mut out, records[i].start.as_str());
        push_str(&mut out, records[i].end.as_str());
        push_u64(&mut out, records[i].offset);
        push_u64(&mut out, records[i].size);
        proof {
            assert(s.take(i + 1).drop_last() =~= s.take(i as int));
            assert(s[i as int] == record_view(records@[i as int]));
        }
        i = i + 1;
        assert(out@ =~= enc_u64(records@.len() as u64) + enc_records(s.take(i as int)));
    }
    assert(s.take(i as int) =~= s);
    out
}

fn read_record(b: &[u8], pos: usize) -> (r: Option<(IndexRecord, usize)>)
    requires
        pos <= b@.len(),
    ensures
        r matches Some((e, q)) ==> q == pos + enc_record(record_view(e)).len() && starts_at(
            b@,
            pos as int,
            enc_record(record_view(e)),
        ),
        forall|t: RecordView| starts_at(b@, pos as int, #[trigger] enc_record(t)) ==> (r matches Some((e, q)) && record_view(e) == t),
{
    proof {
        assert forall|t: RecordView| starts_at(b@, pos as int, #[trigger] enc_record(t)) implies
            starts_at(b@, pos as int, enc_str(t.0))
            && starts_at(b@, pos + enc_str(t.0).len(), enc_str(t.1))
            && starts_at(b@, pos + enc_str(t.0).len() + enc_str(t.1).len(), enc_u64(t.2))
            && starts_at(b@, pos + enc_str(t.0).len() + enc_str(t.1).len() + 8, enc_u64(t.3)) by {
            lemma_enc_u64(t.2, 0);
            lemma_starts_at_concat(b@, pos as int, enc_str(t.0) + enc_str(t.1) + enc_u64(t.2), enc_u64(t.3));
            lemma_starts_at_concat(b@, pos as int, enc_str(t.0) + enc_str(t.1), enc_u64(t.2));
            lemma_starts_at_concat(b@, pos as int, enc_str(t.0), enc_str(t.1));
        }
    }
    let (start, at1) = match read_str(b, pos) {
        Some(x) => x,
        None => return None,
    };
    let (end, at2) = match read_str(b, at1) {
        Some(x) => x,
        None => return None,
    };
    let (offset, at3) = match read_u64(b, at2) {
        Some(x) => x,
        None => return None,
    };
    let (size, at4) = match read_u64(b, at3) {
        Some(x) => x,
        None => return None,
    };
    let rec = IndexRecord { start, end, offset, size };
    proof {
        let t = record_view(rec);
        lemma_enc_u64_all();
        lemma_starts_at_concat(b@, pos as int, enc_str(t.0), enc_str(t.1));
        lemma_starts_at_concat(b@, pos as int, enc_str(t.0) + enc_str(t.1), enc_u64(t.2));
        lemma_starts_at_concat(b@, pos as int, enc_str(t.0) + enc_str(t.1) + enc_u64(t.2), enc_u64(t.3));
    }
    Some((rec, at4))
}

/// Decodes a block index; `None` when `b` is not the encoding of one.
pub fn decode_index(b: &[u8]) -> (r: Option<Vec<IndexRecord>>)
    ensures
        r matches Some(v) ==> enc_index(records_view(v@)) == b@,
        forall|s: Seq<RecordView>| #[trigger] enc_index(s) == b@ ==> (r matches Some(v) && records_view(v@) == s),
{
    let blen = b.len();
    let (n, at0) = match read_u64(b, 0) {
        Some(x) => x,
        None => {
            proof {
                assert forall|s: Seq<RecordView>| #[trigger] enc_index(s) != b@ by {
                    lemma_enc_u64(s.len() as u64, 0);
                }
            }
            return None;
        },
    };
    proof {
        assert(b@.len() <= usize::MAX);
        assert forall|s: Seq<RecordView>| #[trigger] enc_index(s) == b@ implies s.len() == n as nat && starts_at(b@, 8, enc_records(s)) by {
            lemma_starts_at_concat(b@, 0, enc_u64(s.len() as u64), enc_records(s));
            assert(b@.subrange(0, b@.len() as int) =~= b@);
            lemma_enc_u64(s.len() as u64, n);
            lemma_enc_records_len(s);
            assert(s.len() < b@.len());
        }
        assert(records_view(Seq::<IndexRecord>::empty()) =~= Seq::<RecordView>::empty());
        assert(b@.subrange(8, 8) =~= Seq::<u8>::empty());
    }
    let mut out: Vec<IndexRecord> = Vec::new();
    let mut pos: usize = at0;
    let mut i: u64 = 0;
    while i < n
        invariant
            at0 == 8,
            8 <= pos <= b@.len(),
            i <= n,
            out@.len() == i,
            starts_at(b@, 0, enc_u64(n)),
            pos == 8 + enc_records(records_view(out@)).len(),
            starts_at(b@, 8, enc_records(records_view(out@))),
            forall|s: Seq<RecordView>| #[trigger] enc_index(s) == b@ ==> s.len() == n as nat && starts_at(b@, 8, enc_records(s)) && s.take(i as int) == records_view(out@),
        decreases n - i,
    {
        let ghost sofar = records_view(out@);
        let (e, q) = match read_record(b, pos) {
            Some(x) => x,
            None => {
                proof {
                    assert forall|s: Seq<RecordView>| #[trigger] enc_index(s) != b@ by {
                        if enc_index(s) == b@ {
                            lemma_enc_records_prefix(s, i as int + 1);
                            assert(s.take(i + 1).drop_last() =~= s.take(i as int));
                            let whole = enc_records(s);
                            let pre = enc_records(s.take(i + 1));
                            assert(starts_at(b@, 8, pre)) by {
                                assert(b@.subrange(8, 8 + pre.len() as int) =~= whole.subrange(0, pre.len() as int));
                            }
                            lemma_starts_at_concat(b@, 8, enc_records(sofar), enc_record(s[i as int]));
                        }
                    }
                }
                return None;
            },
        };
        proof {
            assert forall|s: Seq<RecordView>| #[trigger] enc_index(s) == b@ implies s.take(i + 1) == sofar.push(record_view(e)) by {
                lemma_enc_records_prefix(s, i as int + 1);
                assert(s.take(i + 1).drop_last() =~= s.take(i as int));
                let whole = enc_records(s);
                let pre = enc_records(s.take(i + 1));
                assert(starts_at(b@, 8, pre)) by {
                    assert(b@.subrange(8, 8 + pre.len() as int) =~= whole.subrange(0, pre.len() as int));
                }
                lemma_starts_at_concat(b@, 8, enc_records(sofar), enc_record(s[i as int]));
                assert(s.take(i + 1) =~= s.take(i as int).push(s[i as int]));
            }
            lemma_starts_at_concat(b@, 8, enc_records(sofar), enc_record(record_view(e)));
        }
        out.push(e);
        proof {
            assert(records_view(out@) =~= sofar.push(record_view(e)));
            assert(records_view(out@).drop_last() =~= sofar);
        }
        pos = q;
        i = i + 1;
    }
    if pos != b.len() {
        proof {
            assert forall|s: Seq<RecordView>| #[trigger] enc_index(s) != b@ by {
                if enc_index(s) == b@ {
                    assert(s.take(i as int) =~= s);
                    lemma_enc_u64(s.len() as u64, 0);
                }
            }
        }
        return None;
    }
    proof {
        lemma_enc_u64(n, 0);
        assert(records_view(out@).len() == n);
        lemma_starts_at_concat(b@, 0, enc_u64(n), enc_records(records_view(out@)));
        assert(b@.subrange(0, b@.len() as int) =~= b@);
        assert forall|s: Seq<RecordView>| #[trigger] enc_index(s) == b@ implies records_view(out@) == s by {
            assert(s.take(i as int) =~= s);
        }
    }
    Some(out)
}

pub fn encode_footer(f: &SSTableFooter) -> (r: Vec<u8>)
    ensures
        r@ == enc_footer(*f),
        r@.len() == FOOTER_SIZE,
{
    let mut out: Vec<u8> = Vec::new();
    push_u64(&mut out, f.bloom_filter_offset);
    push_u64(&mut out, f.bloom_filter_size);
    push_u64(&mut out, f.index_offset);
    push_u64(&mut out, f.index_size);
    proof {
        lemma_enc_u64_all();
    }
    out
}

/// Reads the footer from the last 32 bytes of a table file.
pub fn read_footer(file: &[u8]) -> (r: Option<SSTableFooter>)
    ensures
        r is Some <==> file@.len() >= FOOTER_SIZE,
        r matches Some(f) ==> file@.subrange(file@.len() - 32, file@.len() as int) == enc_footer(f),
        forall|f: SSTableFooter| starts_at(file@, file@.len() - 32, #[trigger] enc_footer(f)) ==> r == Some(f),
{
    if file.len() < FOOTER_SIZE {
        return None;
    }
    let base = file.len() - FOOTER_SIZE;
    let (a, at1) = match read_u64(file, base) {
        Some(x) => x,
        None => return None,
    };
    let (b, at2) = match read_u64(file, at1) {
        Some(x) => x,
        None => return None,
    };
    let (c, at3) = match read_u64(file, at2) {
        Some(x) => x,
        None => return None,
    };
    let (d, at4) = match read_u64(file, at3) {
        Some(x) => x,
        None => return None,
    };
    let f = SSTableFooter { bloom_filter_offset: a, bloom_filter_size: b, index_offset: c, index_size: d };
    proof {
        lemma_enc_u64_all();
        let w = base as int;
        lemma_starts_at_concat(file@, w, enc_u64(a), enc_u64(b));
        lemma_starts_at_concat(file@, w, enc_u64(a) + enc_u64(b), enc_u64(c));
        lemma_starts_at_concat(file@, w, enc_u64(a) + enc_u64(b) + enc_u64(c), enc_u64(d));
        assert forall|g: SSTableFooter| starts_at(file@, w, #[trigger] enc_footer(g)) implies g == f by {
            lemma_starts_at_concat(file@, w, enc_u64(g.bloom_filter_offset) + enc_u64(g.bloom_filter_size) + enc_u64(g.index_offset), enc_u64(g.index_size));
            lemma_starts_at_concat(file@, w, enc_u64(g.bloom_filter_offset) + enc_u64(g.bloom_filter_size), enc_u64(g.index_offset));
            lemma_starts_at_concat(file@, w, enc_u64(g.bloom_filter_offset), enc_u64(g.bloom_filter_size));
        }
    }
    Some(f)
}

/// Entries of the blocks, one block after the other.
pub open spec fn flatten(blocks: Seq<Seq<EntryView>>) -> Seq<EntryView>
    decreases blocks.len(),
{
    if blocks.len() == 0 {
        Seq::empty()
    } else {
        flatten(blocks.drop_last()) + blocks.last()
    }
}

/// Record `i` gives the first and last key of block `i` and where its
/// encoding stands in `b`.
pub open spec fn blocks_located(b: Seq<u8>, recs: Seq<RecordView>, blocks: Seq<Seq<EntryView>>) -> bool {
    &&& recs.len() == blocks.len()
    &&& forall|i: int|
        #![trigger blocks[i]]
        0 <= i < blocks.len() ==> {
            &&& blocks[i].len() > 0
            &&& recs[i].0 == blocks[i][0].0
            &&& recs[i].1 == blocks[i].last().0
            &&& recs[i].3 == enc_block(blocks[i]).len()
            &&& starts_at(b, recs[i].2 as int, enc_block(blocks[i]))
        }
}

/// `b` is a table file whose footer is `f`, whose index is `recs` and whose
/// data blocks are `blocks`.
pub open spec fn table_layout(b: Seq<u8>, f: SSTableFooter, recs: Seq<RecordView>, blocks: Seq<Seq<EntryView>>) -> bool {
    &&& b.len() >= 32
    &&& starts_at(b, b.len() - 32, enc_footer(f))
    &&& f.index_size == enc_index(recs).len()
    &&& starts_at(b, f.index_offset as int, enc_index(recs))
    &&& blocks_located(b, recs, blocks)
}

/// `b` is a table file whose blocks, read in index order, hold `s`.
pub open spec fn reads_back(b: Seq<u8>, s: Seq<EntryView>) -> bool {
    exists|f: SSTableFooter, recs: Seq<RecordView>, blocks: Seq<Seq<EntryView>>|
        #[trigger] table_layout(b, f, recs, blocks) && flatten(blocks) == s
}

/// Blocks are laid out back to back from the start of the file and end at
/// `end`.
pub open spec fn blocks_contiguous(recs: Seq<RecordView>, end: int) -> bool {
    &&& recs.len() == 0 ==> end == 0
    &&& recs.len() > 0 ==> recs[0].2 == 0 && recs.last().2 + recs.last().3 == end
    &&& forall|j: int| 0 <= j < recs.len() - 1 ==> (#[trigger] recs[j]).2 + recs[j].3 == recs[j + 1].2
}

/// `bytes` is the table file of entries `s` and filter bits `bits`, in
/// blocks of `m` entries: the blocks from offset 0, then the filter line,
/// then the index, then the footer, and nothing after.
pub open spec fn table_image_of(
    bytes: Seq<u8>,
    footer: SSTableFooter,
    recs: Seq<RecordView>,
    blocks: Seq<Seq<EntryView>>,
    s: Seq<EntryView>,
    bits: Seq<bool>,
    m: nat,
) -> bool {
    &&& table_layout(bytes, footer, recs, blocks)
    &&& flatten(blocks) == s
    &&& blocks_sized(blocks, m)
    &&& index_ordered(recs)
    &&& blocks_contiguous(recs, footer.bloom_filter_offset as int)
    &&& footer.bloom_filter_size == filter_line(bits).len()
    &&& starts_at(bytes, footer.bloom_filter_offset as int, filter_line(bits))
    &&& footer.index_offset == footer.bloom_filter_offset + footer.bloom_filter_size
    &&& footer.index_offset + footer.index_size + 32 == bytes.len()
}

/// Blocks hold `m` entries each, but the last, which holds from 1 to `m`.
pub open spec fn blocks_sized(blocks: Seq<Seq<EntryView>>, m: nat) -> bool {
    forall|i: int|
        #![trigger blocks[i]]
        0 <= i < blocks.len() ==> blocks[i].len() <= m && (i + 1 < blocks.len() ==> blocks[i].len() == m)
}

/// Each record's first key is at most its last key, and each record's last
/// key is below the next record's first key.
pub open spec fn index_ordered(recs: Seq<RecordView>) -> bool {
    &&& forall|i: int| 0 <= i < recs.len() ==> !key_lt(#[trigger] recs[i].1, recs[i].0)
    &&& forall|i: int| 0 <= i < recs.len() - 1 ==> key_lt(#[trigger] recs[i].1, recs[i + 1].0)
}

/// A table file ready to be written, with the index that the cache keeps.
pub struct TableImage {
    pub bytes: Vec<u8>,
    pub index: Vec<IndexRecord>,
    pub footer: SSTableFooter,
    pub blocks: Ghost<Seq<Seq<EntryView>>>,
}

pub proof fn lemma_starts_at_extend(b: Seq<u8>, c: Seq<u8>, pos: int, x: Seq<u8>)
    requires
        starts_at(b, pos, x),
    ensures
        starts_at(b + c, pos, x),
{
    assert((b + c).subrange(pos, pos + x.len()) =~= b.subrange(pos, pos + x.len()));
}

proof fn lemma_blocks_located_extend(b: Seq<u8>, c: Seq<u8>, recs: Seq<RecordView>, blocks: Seq<Seq<EntryView>>)
    requires
        blocks_located(b, recs, blocks),
    ensures
        blocks_located(b + c, recs, blocks),
{
    assert forall|i: int| 0 <= i < blocks.len() implies starts_at(b + c, recs[i].2 as int, enc_block(#[trigger] blocks[i])) by {
        lemma_starts_at_extend(b, c, recs[i].2 as int, enc_block(blocks[i]));
    }
}

/// One block appended by `build_table` keeps its loop invariant.
proof fn lemma_build_step(
    s: Seq<EntryView>,
    i: int,
    j: int,
    m: nat,
    blocks: Seq<Seq<EntryView>>,
    old_recs: Seq<RecordView>,
    rec: RecordView,
    before: Seq<u8>,
    block: Seq<u8>,
)
    requires
        sorted(s),
        0 <= i < j <= s.len(),
        m > 0,
        j - i <= m,
        j < s.len() ==> j - i == m,
        flatten(blocks) == s.take(i),
        blocks_located(before, old_recs, blocks),
        blocks_sized(blocks, m),
        forall|k: int| 0 <= k < blocks.len() - 1 ==> #[trigger] blocks[k].len() == m,
        blocks.len() > 0 ==> blocks.last().len() == m,
        blocks.len() > 0 ==> i > 0 && old_recs.last().1 == s[i - 1].0,
        blocks.len() == 0 ==> i == 0,
        index_ordered(old_recs),
        blocks_contiguous(old_recs, before.len() as int),
        block == enc_block(s.subrange(i, j)),
        rec == (s[i].0, s[j - 1].0, before.len() as u64, block.len() as u64),
        before.len() <= u64::MAX,
        block.len() <= u64::MAX,
    ensures
        ({
            let nb = blocks.push(s.subrange(i, j));
            let recs = old_recs.push(rec);
            &&& flatten(nb) == s.take(j)
            &&& blocks_located(before + block, recs, nb)
            &&& blocks_sized(nb, m)
            &&& forall|k: int| 0 <= k < nb.len() - 1 ==> #[trigger] nb[k].len() == m
            &&& nb.last().len() == m || j == s.len()
            &&& recs.last().1 == s[j - 1].0
            &&& index_ordered(recs)
            &&& blocks_contiguous(recs, (before.len() + block.len()) as int)
        }),
{
    let c = s.subrange(i, j);
    let nb = blocks.push(c);
    let recs = old_recs.push(rec);
    let out = before + block;
    lemma_blocks_located_extend(before, block, old_recs, blocks);
    assert(nb.drop_last() =~= blocks);
    assert(s.take(j) =~= s.take(i) + c);
    assert(c[0] == s[i]);
    assert(c.last() == s[j - 1]);
    assert(out.subrange(before.len() as int, (before.len() + block.len()) as int) =~= block);
    assert forall|k: int| 0 <= k < nb.len() implies {
        &&& (#[trigger] nb[k]).len() > 0
        &&& recs[k].0 == nb[k][0].0
        &&& recs[k].1 == nb[k].last().0
        &&& recs[k].3 == enc_block(nb[k]).len()
        &&& starts_at(out, recs[k].2 as int, enc_block(nb[k]))
    } by {
        if k < blocks.len() {
            assert(nb[k] == blocks[k]);
            assert(recs[k] == old_recs[k]);
        }
    }
    if i + 1 < j {
        lemma_key_lt_asymmetric(s[i].0, s[j - 1].0);
    } else {
        lemma_key_lt_irreflexive(s[i].0);
    }
    if blocks.len() > 0 {
        assert(key_lt(s[i - 1].0, s[i].0));
    }
    assert forall|k: int| 0 <= k < recs.len() - 1 implies key_lt(#[trigger] recs[k].1, recs[k + 1].0) by {
        if k + 1 < old_recs.len() {
            assert(recs[k] == old_recs[k]);
            assert(recs[k + 1] == old_recs[k + 1]);
        }
    }
    assert forall|k: int| 0 <= k < recs.len() implies !key_lt(#[trigger] recs[k].1, recs[k].0) by {
        if k < old_recs.len() {
            assert(recs[k] == old_recs[k]);
        }
    }
    assert forall|k: int| 0 <= k < recs.len() - 1 implies (#[trigger] recs[k]).2 + recs[k].3 == recs[k + 1].2 by {
        if k + 1 < old_recs.len() {
            assert(recs[k] == old_recs[k]);
            assert(recs[k + 1] == old_recs[k + 1]);
        } else {
            assert(recs[k] == old_recs.last());
        }
    }
    if old_recs.len() > 0 {
        assert(recs[0] == old_recs[0]);
    }
    assert forall|k: int| 0 <= k < nb.len() implies (#[trigger] nb[k]).len() <= m && (k + 1 < nb.len() ==> nb[k].len() == m) by {
        if k < blocks.len() {
            assert(nb[k] == blocks[k]);
        }
    }
}

/// Lays out the entries of `mem` as a table file: blocks of `index_size`
/// entries in key order, then the filter line, the index and the footer.
pub fn build_table(mem: &MemTable, index_size: usize) -> (img: TableImage)
    requires
        mem.wf(),
        index_size > 0,
    ensures
        table_layout(img.bytes@, img.footer, records_view(img.index@), img.blocks@),
        flatten(img.blocks@) == mem.entries(),
        reads_back(img.bytes@, mem.entries()),
        table_image_of(img.bytes@, img.footer, records_view(img.index@), img.blocks@, mem.entries(), mem.filter_bits(), index_size as nat),
        sorted(flatten(img.blocks@)),
        blocks_sized(img.blocks@, index_size as nat),
        index_ordered(records_view(img.index@)),
        img.footer.bloom_filter_size == filter_line(mem.filter_bits()).len(),
        starts_at(img.bytes@, img.footer.bloom_filter_offset as int, filter_line(mem.filter_bits())),
{
    proof {
        mem.lemma_wf();
    }
    let entries = mem.tree();
    let ghost s = mem.entries();
    let n = entries.len();
    let mut out: Vec<u8> = Vec::new();
    let mut index: Vec<IndexRecord> = Vec::new();
    let ghost mut blocks: Seq<Seq<EntryView>> = Seq::empty();
    let mut i: usize = 0;
    assert(s.take(0) =~= Seq::<EntryView>::empty());
    while i < n
        invariant
            n == entries@.len(),
            s == entries_view(entries@),
            sorted(s),
            i <= n,
            flatten(blocks) == s.take(i as int),
            blocks_located(out@, records_view(index@), blocks),
            blocks_sized(blocks, index_size as nat),
            forall|k: int| 0 <= k < blocks.len() - 1 ==> #[trigger] blocks[k].len() == index_size,
            blocks.len() > 0 ==> blocks.last().len() == index_size || i == n,
            blocks.len() > 0 ==> i > 0 && records_view(index@).last().1 == s[i - 1].0,
            blocks.len() == 0 ==> i == 0,
            index_ordered(records_view(index@)),
            blocks_contiguous(records_view(index@), out@.len() as int),
            index_size > 0,
        decreases n - i,
    {
        let j = if n - i > index_size { i + index_size } else { n };
        assert(j > i);
        let chunk = &entries.as_slice()[i..j];
        let ghost c = s.subrange(i as int, j as int);
        assert(entries_view(chunk@) =~= c);
        let offset = out.len() as u64;
        let block = encode_block(chunk);
        let ghost before = out@;
        append_bytes(&mut out, block.as_slice());
        let rec = IndexRecord {
            start: entries[i].0.clone(),
            end: entries[j - 1].0.clone(),
            offset,
            size: block.len() as u64,
        };
        let ghost old_recs = records_view(index@);
        index.push(rec);
        proof {
            assert(records_view(index@) =~= old_recs.push(record_view(rec)));
            lemma_build_step(s, i as int, j as int, index_size as nat, blocks, old_recs, record_view(rec), before, block@);
            blocks = blocks.push(c);
        }
        i = j;
    }
    assert(s.take(n as int) =~= s);
    let ghost data_end = out@;
    let bloom_filter_offset = out.len() as u64;
    let text = mem.filter().persist_value();
    append_bytes(&mut out, text.as_str().as_bytes());
    out.push(10);
    let bloom_filter_size = out.len() as u64 - bloom_filter_offset;
    let ghost after_filter = out@;
    proof {
        assert(after_filter =~= data_end + filter_line(mem.filter_bits()));
        lemma_blocks_located_extend(data_end, filter_line(mem.filter_bits()), records_view(index@), blocks);
    }
    let index_offset = out.len() as u64;
    let index_bytes = encode_index(index.as_slice());
    append_bytes(&mut out, index_bytes.as_slice());
    let index_size_bytes = index_bytes.len() as u64;
    let footer = SSTableFooter {
        bloom_filter_offset,
        bloom_filter_size,
        index_offset,
        index_size: index_size_bytes,
    };
    let ghost after_index = out@;
    let footer_bytes = encode_footer(&footer);
    append_bytes(&mut out, footer_bytes.as_slice());
    proof {
        let fl = filter_line(mem.filter_bits());
        let ix = enc_index(records_view(index@));
        assert(after_index =~= after_filter + ix);
        lemma_blocks_located_extend(after_filter, ix, records_view(index@), blocks);
        lemma_blocks_located_extend(after_index, enc_footer(footer), records_view(index@), blocks);
        assert(after_filter.subrange(data_end.len() as int, (data_end.len() + fl.len()) as int) =~= fl);
        lemma_starts_at_extend(after_filter, ix, data_end.len() as int, fl);
        lemma_starts_at_extend(after_index, enc_footer(footer), data_end.len() as int, fl);
        assert(after_index.subrange(after_filter.len() as int, (after_filter.len() + ix.len()) as int) =~= ix);
        lemma_starts_at_extend(after_index, enc_footer(footer), after_filter.len() as int, ix);
        assert(out@.subrange(out@.len() - 32, out@.len() as int) =~= enc_footer(footer));
        assert(table_layout(out@, footer, records_view(index@), blocks));
    }
    TableImage { bytes: out, index, footer, blocks: Ghost(blocks) }
}

/// Reads back every entry of a table file, block by block in index order.
pub fn read_table(b: &[u8]) -> (r: Option<Vec<(String, Option<String>)>>)
    ensures
        forall|f: SSTableFooter, recs: Seq<RecordView>, blocks: Seq<Seq<EntryView>>|
            #[trigger] table_layout(b@, f, recs, blocks) ==> (r matches Some(v) && entries_view(v@) == flatten(blocks)),
        forall|s: Seq<EntryView>| #[trigger] reads_back(b@, s) ==> (r matches Some(v) && entries_view(v@) == s),
{
    let blen = b.len();
    let f = match read_footer(b) {
        Some(f) => f,
        None => return None,
    };
    let io = f.index_offset;
    let is = f.index_size;
    if io > blen as u64 || is > blen as u64 - io {
        return None;
    }
    let islice = &b[io as usize..(io + is) as usize];
    proof {
        assert forall|g: SSTableFooter, recs: Seq<RecordView>, blocks: Seq<Seq<EntryView>>|
            #[trigger] table_layout(b@, g, recs, blocks) implies g == f && islice@ == enc_index(recs) by {
            assert(islice@ =~= b@.subrange(io as int, io + is));
        }
    }
    let idx = match decode_index(islice) {
        Some(v) => v,
        None => return None,
    };
    let mut out: Vec<(String, Option<String>)> = Vec::new();
    let mut k: usize = 0;
    proof {
        assert forall|g: SSTableFooter, recs: Seq<RecordView>, blocks: Seq<Seq<EntryView>>|
            #[trigger] table_layout(b@, g, recs, blocks) implies blocks.take(0) =~= Seq::<Seq<EntryView>>::empty() by {}
        assert(entries_view(out@) =~= Seq::<EntryView>::empty());
    }
    while k < idx.len()
        invariant
            blen == b@.len(),
            k <= idx@.len(),
            forall|g: SSTableFooter, recs: Seq<RecordView>, blocks: Seq<Seq<EntryView>>|
                #[trigger] table_layout(b@, g, recs, blocks) ==> records_view(idx@) == recs && entries_view(out@) == flatten(blocks.take(k as int)),
        decreases idx@.len() - k,
    {
        let off = idx[k].offset;
        let size = idx[k].size;
        if off > blen as u64 || size > blen as u64 - off {
            proof {
                assert forall|g: SSTableFooter, recs: Seq<RecordView>, blocks: Seq<Seq<EntryView>>|
                    !#[trigger] table_layout(b@, g, recs, blocks) by {
                    if table_layout(b@, g, recs, blocks) {
                        assert(records_view(idx@)[k as int] == recs[k as int]);
                        assert(starts_at(b@, recs[k as int].2 as int, enc_block(blocks[k as int])));
                    }
                }
            }
            return None;
        }
        let bslice = &b[off as usize..(off + size) as usize];
        proof {
            assert forall|g: SSTableFooter, recs: Seq<RecordView>, blocks: Seq<Seq<EntryView>>|
                #[trigger] table_layout(b@, g, recs, blocks) implies bslice@ == enc_block(blocks[k as int]) by {
                assert(records_view(idx@)[k as int] == recs[k as int]);
                assert(starts_at(b@, recs[k as int].2 as int, enc_block(blocks[k as int])));
                assert(bslice@ =~= b@.subrange(off as int, off + size));
            }
        }
        let mut blk = match decode_block(bslice) {
            Some(v) => v,
            None => return None,
        };
        let ghost prev = out@;
        let ghost got = blk@;
        out.append(&mut blk);
        proof {
            assert(out@ == prev + got);
            assert(entries_view(out@) =~= entries_view(prev) + entries_view(got));
            assert forall|g: SSTableFooter, recs: Seq<RecordView>, blocks: Seq<Seq<EntryView>>|
                #[trigger] table_layout(b@, g, recs, blocks) implies entries_view(out@) == flatten(blocks.take(k + 1)) by {
                assert(blocks.take(k + 1).drop_last() =~= blocks.take(k as int));
            }
        }
        k = k + 1;
    }
    proof {
        assert forall|g: SSTableFooter, recs: Seq<RecordView>, blocks: Seq<Seq<EntryView>>|
            #[trigger] table_layout(b@, g, recs, blocks) implies entries_view(out@) == flatten(blocks) by {
            assert(blocks.take(k as int) =~= blocks);
        }
    }
    Some(out)
}

/// What the first entry of `s` with key `k` holds: `None` if there is none,
/// `Some(None)` for a tombstone.
pub open spec fn find_entry(s: Seq<EntryView>, k: Seq<char>) -> Option<Option<Seq<char>>>
    decreases s.len(),
{
    if s.len() == 0 {
        None
    } else if s[0].0 == k {
        Some(s[0].1)
    } else {
        find_entry(s.drop_first(), k)
    }
}

/// Looks `key` up in an encoded data block; `None` when the bytes are not a
/// block.
pub fn search_block(b: &[u8], key: &str) -> (r: Option<Lookup>)
    ensures
        r is Some <==> exists|s: Seq<EntryView>| #[trigger] enc_block(s) == b@,
        forall|s: Seq<EntryView>| #[trigger] enc_block(s) == b@ ==> (r matches Some(l) && l@ == find_entry(s, key@)),
{
    let blk = match decode_block(b) {
        Some(v) => v,
        None => return None,
    };
    let ghost s = entries_view(blk@);
    assert(enc_block(s) == b@);
    let mut i: usize = 0;
    assert(s.skip(0) =~= s);
    while i < blk.len()
        invariant
            s == entries_view(blk@),
            enc_block(s) == b@,
            forall|t: Seq<EntryView>| #[trigger] enc_block(t) == b@ ==> t == s,
            i <= blk@.len(),
            find_entry(s, key@) == find_entry(s.skip(i as int), key@),
        decreases blk@.len() - i,
    {
        assert(s.skip(i as int)[0] == s[i as int]);
        if compare_keys(blk[i].0.as_str(), key) == 0 {
            return Some(
                match &blk[i].1 {
                    Some(v) => Lookup::Present(v.clone()),
                    None => Lookup::Tombstoned,
                },
            );
        }
        assert(s.skip(i as int).drop_first() =~= s.skip(i + 1));
        i = i + 1;
    }
    Some(Lookup::Missing)
}

/// Every byte of a filter line is ASCII.
proof fn lemma_filter_line_ascii(bits: Seq<bool>)
    requires
        bits.len() > 0,
    ensures
        all_ascii(filter_line(bits)),
{
    assert forall|i: int| 0 <= i < filter_line(bits).len() implies #[trigger] filter_line(bits)[i] < 128 by {
        if i < filter_line(bits).len() - 1 {
            assert(filter_line(bits)[i] == filter_text(bits)[i]);
        }
    }
}

/// The filter and the index of a table file, as the cache keeps them;
/// `None` when the footer, index or filter cannot be read.
pub fn read_table_meta(b: &[u8]) -> (r: Option<(BloomFilter, Vec<IndexRecord>)>)
    ensures
        r matches Some((f, idx)) ==> f.wf(),
        forall|footer: SSTableFooter, recs: Seq<RecordView>, blocks: Seq<Seq<EntryView>>, s: Seq<EntryView>, bits: Seq<bool>, m: nat|
            #[trigger] table_image_of(b@, footer, recs, blocks, s, bits, m) && bits.len() > 0
            ==> (r matches Some((f, idx)) && f.bits() == bits && records_view(idx@) == recs),
{
    let blen = b.len();
    let footer = match read_footer(b) {
        Some(f) => f,
        None => return None,
    };
    let io = footer.index_offset;
    let is = footer.index_size;
    let bo = footer.bloom_filter_offset;
    let bs = footer.bloom_filter_size;
    if io > blen as u64 || is > blen as u64 - io || bo > blen as u64 || bs > blen as u64 - bo {
        proof {
            assert forall|g: SSTableFooter, recs: Seq<RecordView>, blocks: Seq<Seq<EntryView>>, s: Seq<EntryView>, bits: Seq<bool>, m: nat|
                !(#[trigger] table_image_of(b@, g, recs, blocks, s, bits, m)) by {
                if table_image_of(b@, g, recs, blocks, s, bits, m) {
                    assert(g == footer);
                }
            }
        }
        return None;
    }
    let islice = &b[io as usize..(io + is) as usize];
    let mut fbytes: Vec<u8> = Vec::new();
    crate::codec::append_bytes(&mut fbytes, &b[bo as usize..(bo + bs) as usize]);
    proof {
        assert forall|g: SSTableFooter, recs: Seq<RecordView>, blocks: Seq<Seq<EntryView>>, s: Seq<EntryView>, bits: Seq<bool>, m: nat|
            #[trigger] table_image_of(b@, g, recs, blocks, s, bits, m) && bits.len() > 0
            implies g == footer && islice@ == enc_index(recs) && fbytes@ == filter_line(bits) by {
            assert(g == footer);
            assert(islice@ =~= b@.subrange(io as int, io + is));
            assert(fbytes@ =~= b@.subrange(bo as int, bo + bs));
        }
    }
    let idx = match decode_index(islice) {
        Some(v) => v,
        None => return None,
    };
    let ghost raw = fbytes@;
    let text = match string_from_bytes(fbytes) {
        Some(t) => t,
        None => {
            proof {
                assert forall|g: SSTableFooter, recs: Seq<RecordView>, blocks: Seq<Seq<EntryView>>, s: Seq<EntryView>, bits: Seq<bool>, m: nat|
                    !(#[trigger] table_image_of(b@, g, recs, blocks, s, bits, m) && bits.len() > 0) by {
                    if table_image_of(b@, g, recs, blocks, s, bits, m) && bits.len() > 0 {
                        lemma_filter_line_ascii(bits);
                        lemma_ascii_valid_utf8(filter_line(bits));
                    }
                }
            }
            return None;
        },
    };
    let f = match BloomFilter::from_string(text.as_str()) {
        Some(f) => f,
        None => {
            proof {
                assert forall|g: SSTableFooter, recs: Seq<RecordView>, blocks: Seq<Seq<EntryView>>, s: Seq<EntryView>, bits: Seq<bool>, m: nat|
                    !(#[trigger] table_image_of(b@, g, recs, blocks, s, bits, m) && bits.len() > 0) by {
                    if table_image_of(b@, g, recs, blocks, s, bits, m) && bits.len() > 0 {
                        lemma_filter_line_round_trip(bits);
                    }
                }
            }
            return None;
        },
    };
    proof {
        assert forall|g: SSTableFooter, recs: Seq<RecordView>, blocks: Seq<Seq<EntryView>>, s: Seq<EntryView>, bits: Seq<bool>, m: nat|
            #[trigger] table_image_of(b@, g, recs, blocks, s, bits, m) && bits.len() > 0 implies f.bits() == bits by {
            lemma_filter_line_round_trip(bits);
        }
    }
    Some((f, idx))
}

} // verus!
