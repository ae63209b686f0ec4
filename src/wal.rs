//! Write-ahead log: the record format, segment naming and replay into a
//! memtable. A record is framed by its body length and followed by `|`;
//! the body is the log version, the MD5 checksum of key and value in
//! lowercase hex, the operation (0: put, 1: delete), the key and the value.

use vstd::prelude::*;
use vstd::utf8::*;
use crate::codec::{append_bytes, enc_str, enc_u64, lemma_enc_u64_all, lemma_starts_at_concat, push_str, push_u64, read_str, read_u64, starts_at};
use crate::memtable::{MemTable, value_view};
use crate::order::{compare_keys, key_lt, lemma_key_lt_transitive, lemma_key_lt_total};
use crate::text::{all_digits, digits_value, parse_decimal, all_ascii, decimal_padded, lemma_ascii_valid_utf8, lemma_decimal_padded_digits, push_decimal_padded, string_from_bytes};

verus! {

broadcast use vstd::utf8::group_utf8_lib;

#[derive(Debug, Clone, Copy, PartialEq, Eq)]
pub enum Operations {
    Put,
    Delete,
}

/// The 16-byte MD5 digest of `data`.
pub uninterp spec fn md5_of(data: Seq<u8>) -> Seq<u8>;

/// Relies on `md5::compute`: the 16 bytes of the MD5 digest of the input,
/// which depend on the input alone.
#[verifier::external_body]
fn md5_digest(data: &[u8]) -> (r: Vec<u8>)
    ensures
        r@ == md5_of(data@),
        r@.len() == 16,
{
    md5::compute(data).0.to_vec()
}

pub open spec fn hex_digit(n: u8) -> u8 {
    if n < 10 {
        (48 + n) as u8
    } else {
        (87 + n) as u8
    }
}

/// Two lowercase hex digits per byte, high nibble first.
pub open spec fn hex_lower(b: Seq<u8>) -> Seq<u8> {
    Seq::new(
        2 * b.len(),
        |i: int|
            if i % 2 == 0 {
                hex_digit(b[i / 2] / 16)
            } else {
                hex_digit(b[i / 2] % 16)
            },
    )
}

/// Checksum of a record: hex MD5 of the key's bytes followed by the value's.
pub open spec fn checksum_of(key: Seq<char>, value: Seq<char>) -> Seq<u8> {
    hex_lower(md5_of(encode_utf8(key) + encode_utf8(value)))
}

fn hex_nibble(n: u8) -> (r: u8)
    requires
        n < 16,
    ensures
        r == hex_digit(n),
{
    if n < 10 {
        48 + n
    } else {
        87 + n
    }
}

/// The record checksum of `key` and `value`.
pub fn checksum(key: &str, value: &str) -> (r: Vec<u8>)
    ensures
        r@ == checksum_of(key@, value@),
        r@.len() == 32,
{
    let mut data: Vec<u8> = Vec::new();
    append_bytes(&mut data, key.as_bytes());
    append_bytes(&mut data, value.as_bytes());
    let digest = md5_digest(data.as_slice());
    let mut out: Vec<u8> = Vec::new();
    let mut i: usize = 0;
    while i < digest.len()
        invariant
            digest@.len() == 16,
            i <= 16,
            out@.len() == 2 * i,
            forall|j: int| 0 <= j < out@.len() ==> #[trigger] out@[j] == hex_lower(digest@)[j],
        decreases 16 - i,
    {
        out.push(hex_nibble(digest[i] / 16));
        out.push(hex_nibble(digest[i] % 16));
        i = i + 1;
    }
    assert(out@ =~= hex_lower(digest@));
    out
}

/// The log writer's state: its directory, the index of the segment being
/// written, and the record version.
pub struct WriteAheadLogger {
    dir: String,
    index: u64,
    version: u64,
}

impl WriteAheadLogger {
    pub closed spec fn segment(&self) -> u64 {
        self.index
    }

    pub closed spec fn dir(&self) -> Seq<char> {
        self.dir@
    }

    pub closed spec fn version(&self) -> u64 {
        self.version
    }

    pub fn new(dir: &str, index: u64, version: u64) -> (r: Self)
        ensures
            r.segment() == index,
            r.dir() == dir@,
            r.version() == version,
    {
        WriteAheadLogger { dir: dir.to_owned(), index, version }
    }

    /// Index of the segment being written.
    pub fn index(&self) -> (r: u64)
        ensures
            r == self.segment(),
    {
        self.index
    }

    /// Moves on to the next segment and returns the index of the previous
    /// one; `None`, changing nothing, once indices are exhausted.
    pub fn increment_index(&mut self) -> (r: Option<u64>)
        ensures
            r is None <==> old(self).segment() == u64::MAX,
            r is Some ==> r == Some(old(self).segment()) && final(self).segment() == old(self).segment() + 1,
            r is None ==> final(self).segment() == old(self).segment(),
            final(self).dir() == old(self).dir(),
            final(self).version() == old(self).version(),
    {
        if self.index == u64::MAX {
            return None;
        }
        let previous = self.index;
        self.index = self.index + 1;
        Some(previous)
    }

    /// Path of the segment being written.
    pub fn wal_file_path(&self) -> (r: String)
        ensures
            encode_utf8(r@) == encode_utf8(self.dir()) + segment_name(self.segment()),
    {
        wal_file_path(self.dir.as_str(), self.index)
    }

    /// The record to append for one operation.
    pub fn record(&self, operation: Operations, key: &str, value: &str) -> (r: Vec<u8>)
        ensures
            r@ == enc_wal_record(wal_op(self.version(), operation, key@, value@)),
    {
        encode_record(self.version, operation, key, value)
    }
}

/// One logged operation: version, whether it is a put, key, value.
pub type WalOp = (u64, bool, Seq<char>, Seq<char>);

/// The operation a record stands for; a delete carries an empty value.
pub open spec fn wal_op(version: u64, operation: Operations, key: Seq<char>, value: Seq<char>) -> WalOp {
    match operation {
        Operations::Put => (version, true, key, value),
        Operations::Delete => (version, false, key, Seq::empty()),
    }
}

/// A byte string preceded by its length.
pub open spec fn enc_bytes(b: Seq<u8>) -> Seq<u8> {
    enc_u64(b.len() as u64) + b
}

pub open spec fn op_tag(put: bool) -> u8 {
    if put {
        0u8
    } else {
        1u8
    }
}

pub open spec fn record_body(op: WalOp) -> Seq<u8> {
    enc_u64(op.0) + enc_bytes(checksum_of(op.2, op.3)) + seq![op_tag(op.1)] + enc_str(op.2) + enc_str(op.3)
}

/// A framed record: body length, body, separator `|`.
pub open spec fn enc_wal_record(op: WalOp) -> Seq<u8> {
    enc_u64(record_body(op).len() as u64) + record_body(op) + seq![124u8]
}

/// A log segment holding `ops` in order.
pub open spec fn enc_wal(ops: Seq<WalOp>) -> Seq<u8>
    decreases ops.len(),
{
    if ops.len() == 0 {
        Seq::empty()
    } else {
        enc_wal(ops.drop_last()) + enc_wal_record(ops.last())
    }
}

/// The map that results from applying `ops` in order to `m`.
pub open spec fn apply_ops(m: Map<Seq<char>, Option<Seq<char>>>, ops: Seq<WalOp>) -> Map<Seq<char>, Option<Seq<char>>>
    decreases ops.len(),
{
    if ops.len() == 0 {
        m
    } else {
        apply_ops(m, ops.drop_last()).insert(
            ops.last().2,
            if ops.last().1 { Some(ops.last().3) } else { None },
        )
    }
}

/// The bytes to append to the log for one operation.
pub fn encode_record(version: u64, operation: Operations, key: &str, value: &str) -> (r: Vec<u8>)
    ensures
        r@ == enc_wal_record(wal_op(version, operation, key@, value@)),
{
    let v: &str = match operation {
        Operations::Put => value,
        Operations::Delete => "",
    };
    proof {
        if operation == Operations::Delete {
            assert(v@ =~= Seq::<char>::empty()) by {
                reveal_strlit("");
            }
        }
    }
    let mut body: Vec<u8> = Vec::new();
    push_u64(&mut body, version);
    let sum = checksum(key, v);
    push_u64(&mut body, sum.len() as u64);
    append_bytes(&mut body, sum.as_slice());
    body.push(
        match operation {
            Operations::Put => 0,
            Operations::Delete => 1,
        },
    );
    push_str(&mut body, key);
    push_str(&mut body, v);
    let mut out: Vec<u8> = Vec::new();
    push_u64(&mut out, body.len() as u64);
    append_bytes(&mut out, body.as_slice());
    out.push(124);
    assert(body@ =~= record_body(wal_op(version, operation, key@, value@)));
    assert(out@ =~= enc_wal_record(wal_op(version, operation, key@, value@)));
    out
}

/// Name of log segment `index` under `dir`: `{dir}/{index, ten digits}.txt`.
pub open spec fn segment_name(index: u64) -> Seq<u8> {
    seq![47u8] + decimal_padded(index as nat, 10) + seq![46u8, 116u8, 120u8, 116u8]
}

/// Path of log segment `index` under `dir`.
pub fn wal_file_path(dir: &str, index: u64) -> (r: String)
    ensures
        encode_utf8(r@) == encode_utf8(dir@) + segment_name(index),
{
    let mut bytes: Vec<u8> = Vec::new();
    append_bytes(&mut bytes, dir.as_bytes());
    let ghost dir_bytes = bytes@;
    bytes.push(47);
    push_decimal_padded(&mut bytes, index, 10);
    bytes.push(46);
    bytes.push(116);
    bytes.push(120);
    bytes.push(116);
    proof {
        let name = segment_name(index);
        lemma_decimal_padded_digits(index as nat, 10);
        assert(bytes@ =~= dir_bytes + name);
        assert(all_ascii(name)) by {
            assert forall|i: int| 0 <= i < name.len() implies #[trigger] name[i] < 128 by {
                let p = decimal_padded(index as nat, 10);
                if 1 <= i < 1 + p.len() {
                    assert(name[i] == p[i - 1]);
                }
            }
        }
        lemma_ascii_valid_utf8(name);
    }
    match string_from_bytes(bytes) {
        Some(p) => p,
        None => String::new(),
    }
}

proof fn lemma_enc_wal_prefix(ops: Seq<WalOp>, k: int)
    requires
        0 <= k <= ops.len(),
    ensures
        enc_wal(ops.take(k)).len() <= enc_wal(ops).len(),
        enc_wal(ops).subrange(0, enc_wal(ops.take(k)).len() as int) == enc_wal(ops.take(k)),
    decreases ops.len() - k,
{
    if k == ops.len() {
        assert(ops.take(k) =~= ops);
        assert(enc_wal(ops).subrange(0, enc_wal(ops).len() as int) =~= enc_wal(ops));
    } else {
        lemma_enc_wal_prefix(ops, k + 1);
        assert(ops.take(k + 1).drop_last() =~= ops.take(k));
        let a = enc_wal(ops.take(k));
        let ab = enc_wal(ops.take(k + 1));
        assert(ab == a + enc_wal_record(ops[k]));
        assert(enc_wal(ops).subrange(0, a.len() as int) =~= ab.subrange(0, a.len() as int));
        assert(ab.subrange(0, a.len() as int) =~= a);
    }
}

/// Record `k` of `ops` stands right after the first `k` records.
proof fn lemma_enc_wal_at(ops: Seq<WalOp>, data: Seq<u8>, k: int)
    requires
        0 <= k < ops.len(),
        enc_wal(ops) == data,
    ensures
        starts_at(data, enc_wal(ops.take(k)).len() as int, enc_wal_record(ops[k])),
        enc_wal(ops.take(k + 1)).len() == enc_wal(ops.take(k)).len() + enc_wal_record(ops[k]).len(),
{
    lemma_enc_wal_prefix(ops, k + 1);
    assert(ops.take(k + 1).drop_last() =~= ops.take(k));
    let pre = enc_wal(ops.take(k + 1));
    assert(starts_at(data, 0, pre)) by {
        assert(data.subrange(0, pre.len() as int) =~= pre);
    }
    lemma_starts_at_concat(data, 0, enc_wal(ops.take(k)), enc_wal_record(ops[k]));
}

fn read_bytes(b: &[u8], pos: usize) -> (r: Option<(Vec<u8>, usize)>)
    requires
        pos <= b@.len(),
    ensures
        r matches Some((v, q)) ==> q == pos + enc_bytes(v@).len() && starts_at(b@, pos as int, enc_bytes(v@)),
        forall|t: Seq<u8>| starts_at(b@, pos as int, #[trigger] enc_bytes(t)) ==> (r matches Some((v, q)) && v@ == t),
{
    proof {
        lemma_enc_u64_all();
    }
    let (n, p) = match read_u64(b, pos) {
        Some(x) => x,
        None => return None,
    };
    if n > (b.len() - p) as u64 {
        proof {
            assert forall|t: Seq<u8>| !starts_at(b@, pos as int, #[trigger] enc_bytes(t)) by {
                lemma_starts_at_concat(b@, pos as int, enc_u64(t.len() as u64), t);
            }
        }
        return None;
    }
    let q = p + n as usize;
    let mut v: Vec<u8> = Vec::new();
    append_bytes(&mut v, &b[p..q]);
    proof {
        lemma_starts_at_concat(b@, pos as int, enc_u64(n), v@);
        assert(b@.subrange(p as int, q as int) =~= v@);
        assert forall|t: Seq<u8>| starts_at(b@, pos as int, #[trigger] enc_bytes(t)) implies v@ == t by {
            lemma_starts_at_concat(b@, pos as int, enc_u64(t.len() as u64), t);
        }
    }
    Some((v, q))
}

/// The fields of a record body: version, checksum, operation tag, key and
/// value; `None` when `body` is not a record body.
fn decode_body(body: &[u8]) -> (r: Option<(u64, Vec<u8>, u8, String, String)>)
    ensures
        r matches Some((v, c, t, k, val)) ==> body@ == enc_u64(v) + enc_bytes(c@) + seq![t] + enc_str(k@) + enc_str(val@),
        forall|op: WalOp| #[trigger] record_body(op) == body@ ==> (r matches Some((v, c, t, k, val)) && v == op.0
            && c@ == checksum_of(op.2, op.3) && t == op_tag(op.1) && k@ == op.2 && val@ == op.3),
{
    proof {
        lemma_enc_u64_all();
        assert(body@.subrange(0, body@.len() as int) =~= body@);
        assert forall|op: WalOp| #[trigger] record_body(op) == body@ implies {
            let c = enc_bytes(checksum_of(op.2, op.3));
            &&& starts_at(body@, 0, enc_u64(op.0))
            &&& starts_at(body@, 8, c)
            &&& starts_at(body@, (8 + c.len()) as int, seq![op_tag(op.1)])
            &&& starts_at(body@, (9 + c.len()) as int, enc_str(op.2))
            &&& starts_at(body@, (9 + c.len() + enc_str(op.2).len()) as int, enc_str(op.3))
        } by {
            let c = enc_bytes(checksum_of(op.2, op.3));
            let x0 = enc_u64(op.0);
            let x1 = x0 + c;
            let x2 = x1 + seq![op_tag(op.1)];
            let x3 = x2 + enc_str(op.2);
            lemma_starts_at_concat(body@, 0, x3, enc_str(op.3));
            lemma_starts_at_concat(body@, 0, x2, enc_str(op.2));
            lemma_starts_at_concat(body@, 0, x1, seq![op_tag(op.1)]);
            lemma_starts_at_concat(body@, 0, x0, c);
        }
    }
    let (version, at1) = match read_u64(body, 0) {
        Some(x) => x,
        None => return None,
    };
    let (sum, at2) = match read_bytes(body, at1) {
        Some(x) => x,
        None => return None,
    };
    if at2 >= body.len() {
        return None;
    }
    let tag = body[at2];
    proof {
        assert forall|op: WalOp| #[trigger] record_body(op) == body@ implies tag == op_tag(op.1) by {
            assert(body@.subrange(at2 as int, at2 + 1)[0] == body@[at2 as int]);
        }
    }
    let (key, at3) = match read_str(body, at2 + 1) {
        Some(x) => x,
        None => return None,
    };
    let (value, at4) = match read_str(body, at3) {
        Some(x) => x,
        None => return None,
    };
    if at4 != body.len() {
        proof {
            assert forall|op: WalOp| #[trigger] record_body(op) != body@ by {
                if record_body(op) == body@ {
                    assert(at4 == body@.len());
                }
            }
        }
        return None;
    }
    proof {
        let x0 = enc_u64(version);
        let x1 = x0 + enc_bytes(sum@);
        let x2 = x1 + seq![tag];
        let x3 = x2 + enc_str(key@);
        assert(body@.subrange(at2 as int, at2 + 1) =~= seq![tag]);
        lemma_starts_at_concat(body@, 0, x0, enc_bytes(sum@));
        lemma_starts_at_concat(body@, 0, x1, seq![tag]);
        lemma_starts_at_concat(body@, 0, x2, enc_str(key@));
        lemma_starts_at_concat(body@, 0, x3, enc_str(value@));
        assert(body@ =~= x3 + enc_str(value@));
    }
    Some((version, sum, tag, key, value))
}

/// Outcome of replaying a log segment.
pub struct Replay {
    pub memtable: MemTable,
    /// Records left out: a checksum that does not match, or a body that does
    /// not decode.
    pub skipped: u64,
    /// Whether every byte of the segment belonged to a whole record.
    pub complete: bool,
}

/// `pos` is where record `k` of `ops` begins in their segment `data`.
pub open spec fn at_record(data: Seq<u8>, ops: Seq<WalOp>, k: int, pos: int) -> bool {
    &&& enc_wal(ops) == data
    &&& 0 <= k <= ops.len()
    &&& pos == enc_wal(ops.take(k)).len()
}

proof fn lemma_at_record_frame(data: Seq<u8>, ops: Seq<WalOp>, k: int, pos: int)
    requires
        at_record(data, ops, k, pos),
        pos < data.len(),
    ensures
        k < ops.len(),
        starts_at(data, pos, enc_u64(record_body(ops[k]).len() as u64)),
        starts_at(data, pos + 8, record_body(ops[k])),
        starts_at(data, pos + 8 + record_body(ops[k]).len(), seq![124u8]),
        at_record(data, ops, k + 1, pos + 8 + record_body(ops[k]).len() + 1),
        record_body(ops[k]).len() < data.len(),
{
    lemma_enc_u64_all();
    if k == ops.len() {
        assert(ops.take(k) =~= ops);
    }
    lemma_enc_wal_at(ops, data, k);
    let op = ops[k];
    let head = enc_u64(record_body(op).len() as u64);
    lemma_starts_at_concat(data, pos, head + record_body(op), seq![124u8]);
    lemma_starts_at_concat(data, pos, head, record_body(op));
}

proof fn lemma_at_record_end(data: Seq<u8>, ops: Seq<WalOp>, k: int)
    requires
        at_record(data, ops, k, data.len() as int),
    ensures
        k == ops.len(),
{
    if k < ops.len() {
        lemma_enc_wal_at(ops, data, k);
        lemma_enc_wal_prefix(ops, k + 1);
        lemma_enc_u64_all();
    }
}

/// A framed body: its length, the body, separator `|`.
pub open spec fn enc_frame(body: Seq<u8>) -> Seq<u8> {
    enc_u64(body.len() as u64) + body + seq![124u8]
}

/// A log segment of frames with bodies `bodies`, well formed or not.
pub open spec fn enc_frames(bodies: Seq<Seq<u8>>) -> Seq<u8>
    decreases bodies.len(),
{
    if bodies.len() == 0 {
        Seq::empty()
    } else {
        enc_frames(bodies.drop_last()) + enc_frame(bodies.last())
    }
}

/// The operation a body records, when it is a record body with a matching
/// checksum.
pub open spec fn body_op(body: Seq<u8>) -> Option<WalOp> {
    if exists|op: WalOp| #[trigger] record_body(op) == body {
        Some(choose|op: WalOp| #[trigger] record_body(op) == body)
    } else {
        None
    }
}

/// The map after replaying frames `bodies` onto `m`: a record with a
/// matching checksum applies, any other body is left out.
pub open spec fn apply_frames(m: Map<Seq<char>, Option<Seq<char>>>, bodies: Seq<Seq<u8>>) -> Map<Seq<char>, Option<Seq<char>>>
    decreases bodies.len(),
{
    if bodies.len() == 0 {
        m
    } else {
        let prev = apply_frames(m, bodies.drop_last());
        match body_op(bodies.last()) {
            Some(op) => prev.insert(op.2, if op.1 { Some(op.3) } else { None }),
            None => prev,
        }
    }
}

/// Number of frames in `bodies` that are left out.
pub open spec fn bad_frames(bodies: Seq<Seq<u8>>) -> nat
    decreases bodies.len(),
{
    if bodies.len() == 0 {
        0
    } else {
        bad_frames(bodies.drop_last()) + if body_op(bodies.last()) is None { 1nat } else { 0nat }
    }
}

/// `pos` is where frame `k` of `bodies` begins in their segment `data`.
pub open spec fn at_frame(data: Seq<u8>, bodies: Seq<Seq<u8>>, k: int, pos: int) -> bool {
    &&& enc_frames(bodies) == data
    &&& 0 <= k <= bodies.len()
    &&& pos == enc_frames(bodies.take(k)).len()
}

proof fn lemma_enc_frames_prefix(bodies: Seq<Seq<u8>>, k: int)
    requires
        0 <= k <= bodies.len(),
    ensures
        enc_frames(bodies.take(k)).len() <= enc_frames(bodies).len(),
        enc_frames(bodies).subrange(0, enc_frames(bodies.take(k)).len() as int) == enc_frames(bodies.take(k)),
    decreases bodies.len() - k,
{
    if k == bodies.len() {
        assert(bodies.take(k) =~= bodies);
        assert(enc_frames(bodies).subrange(0, enc_frames(bodies).len() as int) =~= enc_frames(bodies));
    } else {
        lemma_enc_frames_prefix(bodies, k + 1);
        assert(bodies.take(k + 1).drop_last() =~= bodies.take(k));
        let a = enc_frames(bodies.take(k));
        let ab = enc_frames(bodies.take(k + 1));
        assert(ab == a + enc_frame(bodies[k]));
        assert(enc_frames(bodies).subrange(0, a.len() as int) =~= ab.subrange(0, a.len() as int));
        assert(ab.subrange(0, a.len() as int) =~= a);
    }
}

proof fn lemma_at_frame_frame(data: Seq<u8>, bodies: Seq<Seq<u8>>, k: int, pos: int)
    requires
        at_frame(data, bodies, k, pos),
        pos < data.len(),
    ensures
        k < bodies.len(),
        starts_at(data, pos, enc_u64(bodies[k].len() as u64)),
        starts_at(data, pos + 8, bodies[k]),
        starts_at(data, pos + 8 + bodies[k].len(), seq![124u8]),
        at_frame(data, bodies, k + 1, pos + 8 + bodies[k].len() + 1),
        bodies[k].len() < data.len(),
{
    lemma_enc_u64_all();
    if k == bodies.len() {
        assert(bodies.take(k) =~= bodies);
    }
    lemma_enc_frames_prefix(bodies, k + 1);
    assert(bodies.take(k + 1).drop_last() =~= bodies.take(k));
    let pre = enc_frames(bodies.take(k + 1));
    assert(starts_at(data, 0, pre)) by {
        assert(data.subrange(0, pre.len() as int) =~= pre);
    }
    lemma_starts_at_concat(data, 0, enc_frames(bodies.take(k)), enc_frame(bodies[k]));
    let head = enc_u64(bodies[k].len() as u64);
    lemma_starts_at_concat(data, pos, head + bodies[k], seq![124u8]);
    lemma_starts_at_concat(data, pos, head, bodies[k]);
}

proof fn lemma_at_frame_end(data: Seq<u8>, bodies: Seq<Seq<u8>>, k: int)
    requires
        at_frame(data, bodies, k, data.len() as int),
    ensures
        k == bodies.len(),
{
    if k < bodies.len() {
        lemma_enc_frames_prefix(bodies, k + 1);
        assert(bodies.take(k + 1).drop_last() =~= bodies.take(k));
        lemma_enc_u64_all();
    }
}

/// Applies the record at `pos`; returns where the next record begins, or
/// `None` when the frame is broken.
fn replay_record(data: &[u8], pos: usize, mem: &mut MemTable, skipped: &mut u64, done: Ghost<int>) -> (r: Option<usize>)
    requires
        pos < data@.len(),
        old(mem).wf(),
        *old(skipped) < u64::MAX,
    ensures
        final(mem).wf(),
        r matches Some(q) ==> pos < q <= data@.len(),
        *final(skipped) <= *old(skipped) + 1,
        r is None ==> *final(skipped) == *old(skipped),
        forall|bodies: Seq<Seq<u8>>| #[trigger] at_frame(data@, bodies, done@, pos as int) && old(mem).map() == apply_frames(Map::empty(), bodies.take(done@))
            && *old(skipped) == bad_frames(bodies.take(done@))
            ==> (r matches Some(q) && at_frame(data@, bodies, done@ + 1, q as int) && final(mem).map() == apply_frames(Map::empty(), bodies.take(done@ + 1))
                && *final(skipped) == bad_frames(bodies.take(done@ + 1))),
        forall|ops: Seq<WalOp>| #[trigger] at_record(data@, ops, done@, pos as int) && old(mem).map() == apply_ops(Map::empty(), ops.take(done@)) && *old(skipped) == 0
            ==> (r matches Some(q) && at_record(data@, ops, done@ + 1, q as int) && final(mem).map() == apply_ops(Map::empty(), ops.take(done@ + 1)) && *final(skipped) == 0),
{
    proof {
        lemma_enc_u64_all();
        assert forall|ops: Seq<WalOp>| #[trigger] at_record(data@, ops, done@, pos as int) implies done@ < ops.len() by {
            lemma_at_record_frame(data@, ops, done@, pos as int);
        }
    }
    let dlen = data.len();
    let (n, p) = match read_u64(data, pos) {
        Some(x) => x,
        None => {
            proof {
                assert forall|ops: Seq<WalOp>| !#[trigger] at_record(data@, ops, done@, pos as int) by {
                    if at_record(data@, ops, done@, pos as int) {
                        lemma_at_record_frame(data@, ops, done@, pos as int);
                    }
                }
                assert forall|bodies: Seq<Seq<u8>>| !#[trigger] at_frame(data@, bodies, done@, pos as int) by {
                    if at_frame(data@, bodies, done@, pos as int) {
                        lemma_at_frame_frame(data@, bodies, done@, pos as int);
                    }
                }
            }
            return None;
        },
    };
    proof {
        assert(data@.len() <= usize::MAX);
        assert forall|ops: Seq<WalOp>| #[trigger] at_record(data@, ops, done@, pos as int) implies record_body(ops[done@]).len() == n by {
            lemma_at_record_frame(data@, ops, done@, pos as int);
            assert(record_body(ops[done@]).len() as u64 == n);
        }
        assert forall|bodies: Seq<Seq<u8>>| #[trigger] at_frame(data@, bodies, done@, pos as int) implies bodies[done@].len() == n by {
            lemma_at_frame_frame(data@, bodies, done@, pos as int);
            assert(bodies[done@].len() as u64 == n);
        }
    }
    if n >= (data.len() - p) as u64 {
        proof {
            assert forall|ops: Seq<WalOp>| !#[trigger] at_record(data@, ops, done@, pos as int) by {
                if at_record(data@, ops, done@, pos as int) {
                    lemma_at_record_frame(data@, ops, done@, pos as int);
                }
            }
            assert forall|bodies: Seq<Seq<u8>>| !#[trigger] at_frame(data@, bodies, done@, pos as int) by {
                if at_frame(data@, bodies, done@, pos as int) {
                    lemma_at_frame_frame(data@, bodies, done@, pos as int);
                }
            }
        }
        return None;
    }
    let end = p + n as usize;
    if data[end] != 124 {
        proof {
            assert forall|ops: Seq<WalOp>| !#[trigger] at_record(data@, ops, done@, pos as int) by {
                if at_record(data@, ops, done@, pos as int) {
                    lemma_at_record_frame(data@, ops, done@, pos as int);
                    assert(data@.subrange(end as int, end + 1)[0] == data@[end as int]);
                }
            }
            assert forall|bodies: Seq<Seq<u8>>| !#[trigger] at_frame(data@, bodies, done@, pos as int) by {
                if at_frame(data@, bodies, done@, pos as int) {
                    lemma_at_frame_frame(data@, bodies, done@, pos as int);
                    assert(data@.subrange(end as int, end + 1)[0] == data@[end as int]);
                }
            }
        }
        return None;
    }
    let body = &data[p..end];
    proof {
        assert forall|ops: Seq<WalOp>| #[trigger] at_record(data@, ops, done@, pos as int) implies body@ == record_body(ops[done@]) && at_record(data@, ops, done@ + 1, end + 1) by {
            lemma_at_record_frame(data@, ops, done@, pos as int);
            assert(body@ =~= data@.subrange(p as int, end as int));
        }
        assert forall|bodies: Seq<Seq<u8>>| #[trigger] at_frame(data@, bodies, done@, pos as int) implies body@ == bodies[done@] && at_frame(data@, bodies, done@ + 1, end + 1) by {
            lemma_at_frame_frame(data@, bodies, done@, pos as int);
            assert(body@ =~= data@.subrange(p as int, end as int));
        }
    }
    let decoded = decode_body(body);
    match decoded {
        None => {
            *skipped = *skipped + 1;
            proof {
                assert(body_op(body@) is None);
            }
        },
        Some((version, sum, tag, key, value)) => {
            let expected = checksum(key.as_str(), value.as_str());
            if !bytes_equal(sum.as_slice(), expected.as_slice()) || tag > 1 {
                *skipped = *skipped + 1;
                proof {
                    if exists|op: WalOp| #[trigger] record_body(op) == body@ {
                        let op = choose|op: WalOp| #[trigger] record_body(op) == body@;
                        assert(record_body(op) == body@);
                    }
                    assert(body_op(body@) is None);
                }
            } else {
                proof {
                    let opd: WalOp = (version, tag == 0, key@, value@);
                    assert(sum@ == checksum_of(key@, value@));
                    assert(op_tag(tag == 0) == tag);
                    assert(record_body(opd) =~= body@);
                    let op = choose|op: WalOp| #[trigger] record_body(op) == body@;
                    assert(record_body(op) == body@);
                    assert(body_op(body@) == Some(op));
                    assert(op.1 == (tag == 0) && op.2 == key@ && op.3 == value@);
                }
                if tag == 0 {
                    mem.add(key.as_str(), value.as_str());
                } else {
                    mem.delete(key.as_str());
                }
            }
        },
    }
    proof {
        assert forall|bodies: Seq<Seq<u8>>| #[trigger] at_frame(data@, bodies, done@, pos as int) && old(mem).map() == apply_frames(Map::empty(), bodies.take(done@))
            && *old(skipped) == bad_frames(bodies.take(done@))
            implies final(mem).map() == apply_frames(Map::empty(), bodies.take(done@ + 1)) && *final(skipped) == bad_frames(bodies.take(done@ + 1)) by {
            assert(bodies.take(done@ + 1).drop_last() =~= bodies.take(done@));
            assert(bodies.take(done@ + 1).last() == bodies[done@]);
        }
        assert forall|ops: Seq<WalOp>| #[trigger] at_record(data@, ops, done@, pos as int) && old(mem).map() == apply_ops(Map::empty(), ops.take(done@)) && *old(skipped) == 0
            implies final(mem).map() == apply_ops(Map::empty(), ops.take(done@ + 1)) && *final(skipped) == 0 by {
            assert(ops.take(done@ + 1).drop_last() =~= ops.take(done@));
            assert(ops.take(done@ + 1).last() == ops[done@]);
        }
    }
    Some(end + 1)
}

/// Replays a log segment into a fresh memtable whose filter has
/// `filter_size` bits. A record whose checksum does not match is left out
/// and counted; a broken frame ends the replay.
pub fn replay(data: &[u8], filter_size: usize) -> (r: Replay)
    requires
        filter_size > 0,
    ensures
        r.memtable.wf(),
        forall|ops: Seq<WalOp>| #[trigger] enc_wal(ops) == data@ ==> r.memtable.map() == apply_ops(Map::empty(), ops)
            && r.skipped == 0 && r.complete,
        forall|bodies: Seq<Seq<u8>>| #[trigger] enc_frames(bodies) == data@ ==> r.memtable.map() == apply_frames(Map::empty(), bodies)
            && r.skipped == bad_frames(bodies) && r.complete,
{
    let mut mem = MemTable::new(filter_size);
    let mut skipped: u64 = 0;
    let mut pos: usize = 0;
    let ghost mut done: int = 0;
    proof {
        assert forall|ops: Seq<WalOp>| #[trigger] enc_wal(ops) == data@ implies at_record(data@, ops, 0, 0) && mem.map() == apply_ops(Map::empty(), ops.take(0)) by {
            assert(ops.take(0) =~= Seq::<WalOp>::empty());
        }
        assert forall|bodies: Seq<Seq<u8>>| #[trigger] enc_frames(bodies) == data@ implies at_frame(data@, bodies, 0, 0)
            && mem.map() == apply_frames(Map::empty(), bodies.take(0)) && skipped == bad_frames(bodies.take(0)) by {
            assert(bodies.take(0) =~= Seq::<Seq<u8>>::empty());
        }
    }
    let mut broken = false;
    let dlen = data.len();
    while pos < data.len() && !broken
        invariant
            pos <= data@.len(),
            dlen == data@.len(),
            skipped <= pos,
            mem.wf(),
            broken ==> forall|ops: Seq<WalOp>| #[trigger] enc_wal(ops) != data@,
            broken ==> forall|bodies: Seq<Seq<u8>>| #[trigger] enc_frames(bodies) != data@,
            forall|ops: Seq<WalOp>| #[trigger] enc_wal(ops) == data@ ==> at_record(data@, ops, done, pos as int)
                && mem.map() == apply_ops(Map::empty(), ops.take(done)) && skipped == 0,
            forall|bodies: Seq<Seq<u8>>| #[trigger] enc_frames(bodies) == data@ ==> at_frame(data@, bodies, done, pos as int)
                && mem.map() == apply_frames(Map::empty(), bodies.take(done)) && skipped == bad_frames(bodies.take(done)),
        decreases data@.len() - pos, if broken { 0int } else { 1int },
    {
        match replay_record(data, pos, &mut mem, &mut skipped, Ghost(done)) {
            Some(q) => {
                pos = q;
                proof {
                    done = done + 1;
                }
            },
            None => {
                proof {
                    assert forall|ops: Seq<WalOp>| #[trigger] enc_wal(ops) != data@ by {
                        if enc_wal(ops) == data@ {
                            assert(at_record(data@, ops, done, pos as int));
                        }
                    }
                    assert forall|bodies: Seq<Seq<u8>>| #[trigger] enc_frames(bodies) != data@ by {
                        if enc_frames(bodies) == data@ {
                            assert(at_frame(data@, bodies, done, pos as int));
                        }
                    }
                }
                broken = true;
            },
        }
    }
    let complete = pos == data.len();
    proof {
        assert forall|ops: Seq<WalOp>| #[trigger] enc_wal(ops) == data@ implies mem.map() == apply_ops(Map::empty(), ops) && complete by {
            assert(at_record(data@, ops, done, pos as int));
            lemma_at_record_end(data@, ops, done);
            assert(ops.take(done) =~= ops);
        }
        assert forall|bodies: Seq<Seq<u8>>| #[trigger] enc_frames(bodies) == data@ implies mem.map() == apply_frames(Map::empty(), bodies)
            && skipped == bad_frames(bodies) && complete by {
            assert(at_frame(data@, bodies, done, pos as int));
            lemma_at_frame_end(data@, bodies, done);
            assert(bodies.take(done) =~= bodies);
        }
    }
    Replay { memtable: mem, skipped, complete }
}

fn bytes_equal(a: &[u8], b: &[u8]) -> (r: bool)
    ensures
        r == (a@ == b@),
{
    crate::order::compare_bytes(a, b) == 0
}

/// A directory entry that is not a segment: a hidden marker file, whose
/// name begins with `.`.
pub open spec fn is_hidden(name: Seq<char>) -> bool {
    encode_utf8(name).len() > 0 && encode_utf8(name)[0] == 46
}

/// The digits of a segment name: the name without its `.txt` suffix.
pub open spec fn stem_bytes(name: Seq<char>) -> Seq<u8> {
    let b = encode_utf8(name);
    if b.len() >= 4 && b.subrange(b.len() - 4, b.len() as int) == seq![46u8, 116u8, 120u8, 116u8] {
        b.subrange(0, b.len() - 4)
    } else {
        b
    }
}

/// The segment index a name stands for, if its stem is a number.
pub open spec fn stem_value(name: Seq<char>) -> Option<u64> {
    let d = stem_bytes(name);
    if d.len() > 0 && all_digits(d) && digits_value(d) <= u64::MAX {
        Some(digits_value(d) as u64)
    } else {
        None
    }
}

/// Index of the segment to write to, given the names in the log directory:
/// that of the greatest name, hidden files aside, or 1 when there is none;
/// `None` when that name is not a segment name.
pub fn segment_index(names: &Vec<String>) -> (r: Option<u64>)
    ensures
        (forall|i: int| 0 <= i < names@.len() ==> is_hidden(#[trigger] names@[i]@)) ==> r == Some(1u64),
        (exists|i: int| 0 <= i < names@.len() && !is_hidden(#[trigger] names@[i]@)) ==> exists|i: int|
            0 <= i < names@.len() && !is_hidden(#[trigger] names@[i]@)
            && (forall|j: int| 0 <= j < names@.len() && !is_hidden(#[trigger] names@[j]@) ==> !key_lt(names@[i]@, names@[j]@))
            && r == stem_value(names@[i]@),
{
    let mut best: Option<usize> = None;
    let mut i: usize = 0;
    while i < names.len()
        invariant
            i <= names@.len(),
            best matches Some(b) ==> b < i && !is_hidden(names@[b as int]@)
                && forall|j: int| 0 <= j < i && !is_hidden(#[trigger] names@[j]@) ==> !key_lt(names@[b as int]@, names@[j]@),
            best is None ==> forall|j: int| 0 <= j < i ==> is_hidden(#[trigger] names@[j]@),
        decreases names@.len() - i,
    {
        let name = names[i].as_str();
        let hidden = hidden_name(name);
        if !hidden {
            match best {
                None => {
                    proof {
                        crate::order::lemma_key_lt_irreflexive(names@[i as int]@);
                    }
                    best = Some(i);
                },
                Some(b) => {
                    if compare_keys(names[b].as_str(), name) < 0 {
                        proof {
                            assert forall|j: int| 0 <= j < i + 1 && !is_hidden(#[trigger] names@[j]@) implies !key_lt(names@[i as int]@, names@[j]@) by {
                                crate::order::lemma_key_lt_asymmetric(names@[b as int]@, names@[i as int]@);
                                crate::order::lemma_key_lt_irreflexive(names@[i as int]@);
                                if j < i && key_lt(names@[i as int]@, names@[j]@) {
                                    lemma_key_lt_transitive(names@[b as int]@, names@[i as int]@, names@[j]@);
                                }
                            }
                        }
                        best = Some(i);
                    }
                },
            }
        }
        i = i + 1;
    }
    match best {
        None => Some(1),
        Some(b) => stem_of(names[b].as_str()),
    }
}

fn hidden_name(name: &str) -> (r: bool)
    ensures
        r == is_hidden(name@),
{
    let b = name.as_bytes();
    b.len() > 0 && b[0] == 46
}

fn stem_of(name: &str) -> (r: Option<u64>)
    ensures
        r == stem_value(name@),
{
    let b = name.as_bytes();
    let n = b.len();
    if n >= 4 && b[n - 4] == 46 && b[n - 3] == 116 && b[n - 2] == 120 && b[n - 1] == 116 {
        assert(b@.subrange(n - 4, n as int) =~= seq![46u8, 116u8, 120u8, 116u8]);
        parse_decimal(&b[0..n - 4])
    } else {
        proof {
            if n >= 4 {
                let t = b@.subrange(n - 4, n as int);
                if t == seq![46u8, 116u8, 120u8, 116u8] {
                    assert(t[0] == b@[n - 4]);
                    assert(t[1] == b@[n - 3]);
                    assert(t[2] == b@[n - 2]);
                    assert(t[3] == b@[n - 1]);
                }
            }
        }
        parse_decimal(b)
    }
}

} // verus!
