//! Length-prefixed binary encoding of integers, strings and data blocks.
//! Integers are 8 bytes little-endian; a string is its UTF-8 length then its
//! bytes; a value is a tag byte (0: tombstone, 1: value) then the string; a
//! block is its entry count then its entries.

use vstd::prelude::*;
use vstd::bytes::{spec_u64_to_le_bytes, lemma_auto_spec_u64_to_from_le_bytes, u64_from_le_bytes, u64_to_le_bytes};
use vstd::utf8::*;
use crate::memtable::{entries_view, entry_view, value_view, EntryView};
use crate::text::string_from_bytes;

verus! {

broadcast use vstd::utf8::group_utf8_lib;

pub open spec fn enc_u64(x: u64) -> Seq<u8> {
    spec_u64_to_le_bytes(x)
}

pub open spec fn enc_str(s: Seq<char>) -> Seq<u8> {
    enc_u64(encode_utf8(s).len() as u64) + encode_utf8(s)
}

pub open spec fn enc_value(v: Option<Seq<char>>) -> Seq<u8> {
    match v {
        None => seq![0u8],
        Some(s) => seq![1u8] + enc_str(s),
    }
}

pub open spec fn enc_entry(e: EntryView) -> Seq<u8> {
    enc_str(e.0) + enc_value(e.1)
}

pub open spec fn enc_entries(s: Seq<EntryView>) -> Seq<u8>
    decreases s.len(),
{
    if s.len() == 0 {
        Seq::empty()
    } else {
        enc_entries(s.drop_last()) + enc_entry(s.last())
    }
}

/// Encoding of one data block.
pub open spec fn enc_block(s: Seq<EntryView>) -> Seq<u8> {
    enc_u64(s.len() as u64) + enc_entries(s)
}

/// `x` stands in `b` from position `pos` on.
pub open spec fn starts_at(b: Seq<u8>, pos: int, x: Seq<u8>) -> bool {
    0 <= pos && pos + x.len() <= b.len() && b.subrange(pos, pos + x.len()) == x
}

pub proof fn lemma_starts_at_concat(b: Seq<u8>, pos: int, x: Seq<u8>, y: Seq<u8>)
    ensures
        starts_at(b, pos, x + y) <==> (starts_at(b, pos, x) && starts_at(b, pos + x.len(), y)),
{
    if starts_at(b, pos, x + y) {
        let w = b.subrange(pos, pos + x.len() + y.len());
        assert forall|i: int| 0 <= i < x.len() implies #[trigger] b.subrange(pos, pos + x.len())[i] == x[i] by {
            assert(w[i] == (x + y)[i]);
        }
        assert forall|i: int| 0 <= i < y.len() implies #[trigger] b.subrange(pos + x.len(), pos + x.len() + y.len())[i] == y[i] by {
            assert(w[i + x.len()] == (x + y)[i + x.len()]);
        }
        assert(b.subrange(pos, pos + x.len()) =~= x);
        assert(b.subrange(pos + x.len(), pos + x.len() + y.len()) =~= y);
    }
    if starts_at(b, pos, x) && starts_at(b, pos + x.len(), y) {
        assert forall|i: int| 0 <= i < x.len() + y.len() implies #[trigger] b.subrange(pos, pos + x.len() + y.len())[i] == (x + y)[i] by {
            if i < x.len() {
                assert(b.subrange(pos, pos + x.len())[i] == x[i]);
            } else {
                assert(b.subrange(pos + x.len(), pos + x.len() + y.len())[i - x.len()] == y[i - x.len()]);
            }
        }
        assert(b.subrange(pos, pos + (x + y).len()) =~= x + y);
    }
}

pub proof fn lemma_enc_u64(x: u64, y: u64)
    ensures
        enc_u64(x).len() == 8,
        enc_u64(x) == enc_u64(y) ==> x == y,
{
    lemma_auto_spec_u64_to_from_le_bytes();
}

pub proof fn lemma_enc_u64_all()
    ensures
        forall|x: u64| #[trigger] enc_u64(x).len() == 8,
        forall|x: u64, y: u64| #[trigger] enc_u64(x) == #[trigger] enc_u64(y) ==> x == y,
{
    lemma_auto_spec_u64_to_from_le_bytes();
    assert forall|x: u64, y: u64| #[trigger] enc_u64(x) == #[trigger] enc_u64(y) implies x == y by {
        lemma_enc_u64(x, y);
    }
}

/// The encoding of the first `k` entries begins the encoding of all of them.
pub proof fn lemma_enc_entries_prefix(s: Seq<EntryView>, k: int)
    requires
        0 <= k <= s.len(),
    ensures
        enc_entries(s.take(k)).len() <= enc_entries(s).len(),
        enc_entries(s).subrange(0, enc_entries(s.take(k)).len() as int) == enc_entries(s.take(k)),
    decreases s.len() - k,
{
    if k == s.len() {
        assert(s.take(k) =~= s);
        assert(enc_entries(s).subrange(0, enc_entries(s).len() as int) =~= enc_entries(s));
    } else {
        lemma_enc_entries_prefix(s, k + 1);
        assert(s.take(k + 1).drop_last() =~= s.take(k));
        let a = enc_entries(s.take(k));
        let ab = enc_entries(s.take(k + 1));
        assert(ab == a + enc_entry(s[k]));
        assert(enc_entries(s).subrange(0, a.len() as int) =~= ab.subrange(0, a.len() as int));
        assert(ab.subrange(0, a.len() as int) =~= a);
    }
}

/// Every entry takes at least nine bytes.
pub proof fn lemma_enc_entries_len(s: Seq<EntryView>)
    ensures
        enc_entries(s).len() >= 9 * s.len(),
    decreases s.len(),
{
    if s.len() > 0 {
        lemma_enc_entries_len(s.drop_last());
        lemma_enc_u64(encode_utf8(s.last().0).len() as u64, 0);
    }
}

/// Appends `src` to `out`.
pub fn append_bytes(out: &mut Vec<u8>, src: &[u8])
    ensures
        final(out)@ == old(out)@ + src@,
{
    let mut i: usize = 0;
    while i < src.len()
        invariant
            i <= src@.len(),
            out@ == old(out)@ + src@.subrange(0, i as int),
        decreases src@.len() - i,
    {
        out.push(src[i]);
        i = i + 1;
        assert(out@ =~= old(out)@ + src@.subrange(0, i as int));
    }
    assert(src@.subrange(0, src@.len() as int) =~= src@);
}

pub fn push_u64(out: &mut Vec<u8>, x: u64)
    ensures
        final(out)@ == old(out)@ + enc_u64(x),
{
    let v = u64_to_le_bytes(x);
    append_bytes(out, v.as_slice());
}

pub fn push_str(out: &mut Vec<u8>, s: &str)
    ensures
        final(out)@ == old(out)@ + enc_str(s@),
{
    let b = s.as_bytes();
    push_u64(out, b.len() as u64);
    append_bytes(out, b);
    assert(final(out)@ =~= old(out)@ + enc_str(s@));
}

pub fn push_value(out: &mut Vec<u8>, v: &Option<String>)
    ensures
        final(out)@ == old(out)@ + enc_value(value_view(*v)),
{
    match v {
        None => {
            out.push(0);
            assert(final(out)@ =~= old(out)@ + enc_value(value_view(*v)));
        },
        Some(s) => {
            out.push(1);
            push_str(out, s.as_str());
            assert(final(out)@ =~= old(out)@ + enc_value(value_view(*v)));
        },
    }
}

/// Encodes a data block.
pub fn encode_block(entries: &[(String, Option<String>)]) -> (r: Vec<u8>)
    ensures
        r@ == enc_block(entries_view(entries@)),
{
    let ghost s = entries_view(entries@);
    let mut out: Vec<u8> = Vec::new();
    push_u64(&mut out, entries.len() as u64);
    let mut i: usize = 0;
    while i < entries.len()
        invariant
            i <= entries@.len(),
            s == entries_view(entries@),
            out@ == enc_u64(entries@.len() as u64) + enc_entries(s.take(i as int)),
        decreases entries@.len() - i,
    {
        let ghost before = out@;
        push_str(&mut out, entries[i].0.as_str());
        push_value(&mut out, &entries[i].1);
        proof {
            assert(s.take(i + 1).drop_last() =~= s.take(i as int));
            assert(s[i as int] == entry_view(entries@[i as int]));
        }
        i = i + 1;
        assert(out@ =~= enc_u64(entries@.len() as u64) + enc_entries(s.take(i as int)));
    }
    assert(s.take(i as int) =~= s);
    out
}

pub fn read_u64(b: &[u8], pos: usize) -> (r: Option<(u64, usize)>)
    requires
        pos <= b@.len(),
    ensures
        r is Some <==> pos + 8 <= b@.len(),
        r matches Some((x, q)) ==> q == pos + 8 && starts_at(b@, pos as int, enc_u64(x)),
        forall|y: u64| starts_at(b@, pos as int, #[trigger] enc_u64(y)) ==> (r matches Some((x, q)) && x == y),
{
    proof {
        lemma_auto_spec_u64_to_from_le_bytes();
    }
    if b.len() - pos < 8 {
        return None;
    }
    let x = u64_from_le_bytes(&b[pos..pos + 8]);
    assert(starts_at(b@, pos as int, enc_u64(x)));
    proof {
        assert forall|y: u64| starts_at(b@, pos as int, #[trigger] enc_u64(y)) implies x == y by {
            lemma_enc_u64(x, y);
        }
    }
    Some((x, pos + 8))
}

pub fn read_str(b: &[u8], pos: usize) -> (r: Option<(String, usize)>)
    requires
        pos <= b@.len(),
    ensures
        r matches Some((s, q)) ==> q == pos + enc_str(s@).len() && starts_at(b@, pos as int, enc_str(s@)),
        forall|t: Seq<char>| starts_at(b@, pos as int, #[trigger] enc_str(t)) ==> (r matches Some((s, q)) && s@ == t),
{
    let (n, p) = match read_u64(b, pos) {
        Some(x) => x,
        None => {
            proof {
                assert forall|t: Seq<char>| !starts_at(b@, pos as int, #[trigger] enc_str(t)) by {
                    lemma_enc_u64(encode_utf8(t).len() as u64, 0);
                }
            }
            return None;
        },
    };
    if n > (b.len() - p) as u64 {
        proof {
            assert forall|t: Seq<char>| !starts_at(b@, pos as int, #[trigger] enc_str(t)) by {
                lemma_starts_at_concat(b@, pos as int, enc_u64(encode_utf8(t).len() as u64), encode_utf8(t));
                lemma_enc_u64(encode_utf8(t).len() as u64, 0);
            }
        }
        return None;
    }
    let q = p + n as usize;
    let mut bytes: Vec<u8> = Vec::new();
    append_bytes(&mut bytes, &b[p..q]);
    let ghost raw = bytes@;
    let s = match string_from_bytes(bytes) {
        Some(s) => s,
        None => {
            proof {
                assert forall|t: Seq<char>| !starts_at(b@, pos as int, #[trigger] enc_str(t)) by {
                    lemma_starts_at_concat(b@, pos as int, enc_u64(encode_utf8(t).len() as u64), encode_utf8(t));
                    lemma_enc_u64(encode_utf8(t).len() as u64, 0);
                    if starts_at(b@, pos as int, enc_str(t)) {
                        assert(encode_utf8(t).len() as u64 == n);
                        assert(raw =~= encode_utf8(t));
                    }
                }
            }
            return None;
        },
    };
    proof {
        lemma_enc_u64(n, 0);
        assert(encode_utf8(s@) == raw);
        assert(encode_utf8(s@).len() as u64 == n);
        lemma_starts_at_concat(b@, pos as int, enc_u64(n), raw);
        assert forall|t: Seq<char>| starts_at(b@, pos as int, #[trigger] enc_str(t)) implies s@ == t by {
            lemma_starts_at_concat(b@, pos as int, enc_u64(encode_utf8(t).len() as u64), encode_utf8(t));
            lemma_enc_u64(encode_utf8(t).len() as u64, n);
            assert(raw =~= encode_utf8(t));
            assert(decode_utf8(encode_utf8(t)) == t);
            assert(decode_utf8(encode_utf8(s@)) == s@);
        }
    }
    Some((s, q))
}

pub fn read_value(b: &[u8], pos: usize) -> (r: Option<(Option<String>, usize)>)
    requires
        pos <= b@.len(),
    ensures
        r matches Some((v, q)) ==> q == pos + enc_value(value_view(v)).len() && starts_at(
            b@,
            pos as int,
            enc_value(value_view(v)),
        ),
        forall|t: Option<Seq<char>>| starts_at(b@, pos as int, #[trigger] enc_value(t)) ==> (r matches Some((v, q)) && value_view(v) == t),
{
    if pos >= b.len() {
        return None;
    }
    let tag = b[pos];
    proof {
        assert forall|t: Option<Seq<char>>| starts_at(b@, pos as int, #[trigger] enc_value(t)) implies
            (t is None <==> tag == 0) && (t is Some <==> tag == 1) && (t matches Some(ts) ==> starts_at(b@, pos + 1, enc_str(ts))) by {
            assert(b@.subrange(pos as int, pos + enc_value(t).len())[0] == b@[pos as int]);
            if let Some(ts) = t {
                lemma_starts_at_concat(b@, pos as int, seq![1u8], enc_str(ts));
            }
        }
    }
    if tag == 0 {
        assert(b@.subrange(pos as int, pos + 1) =~= seq![0u8]);
        Some((None, pos + 1))
    } else if tag == 1 {
        match read_str(b, pos + 1) {
            Some((s, q)) => {
                proof {
                    assert(b@.subrange(pos as int, pos + 1) =~= seq![1u8]);
                    lemma_starts_at_concat(b@, pos as int, seq![1u8], enc_str(s@));
                }
                Some((Some(s), q))
            },
            None => None,
        }
    } else {
        None
    }
}

pub fn read_entry(b: &[u8], pos: usize) -> (r: Option<((String, Option<String>), usize)>)
    requires
        pos <= b@.len(),
    ensures
        r matches Some((e, q)) ==> q == pos + enc_entry(entry_view(e)).len() && starts_at(
            b@,
            pos as int,
            enc_entry(entry_view(e)),
        ),
        forall|t: EntryView| starts_at(b@, pos as int, #[trigger] enc_entry(t)) ==> (r matches Some((e, q)) && entry_view(e) == t),
{
    proof {
        assert forall|t: EntryView| starts_at(b@, pos as int, #[trigger] enc_entry(t)) implies
            starts_at(b@, pos as int, enc_str(t.0)) && starts_at(b@, pos + enc_str(t.0).len(), enc_value(t.1)) by {
            lemma_starts_at_concat(b@, pos as int, enc_str(t.0), enc_value(t.1));
        }
    }
    let (k, p) = match read_str(b, pos) {
        Some(x) => x,
        None => return None,
    };
    let (v, q) = match read_value(b, p) {
        Some(x) => x,
        None => return None,
    };
    proof {
        lemma_starts_at_concat(b@, pos as int, enc_str(k@), enc_value(value_view(v)));
    }
    Some(((k, v), q))
}

/// Decodes a data block; `None` when `b` is not the encoding of a block.
pub fn decode_block(b: &[u8]) -> (r: Option<Vec<(String, Option<String>)>>)
    ensures
        r matches Some(v) ==> enc_block(entries_view(v@)) == b@,
        forall|s: Seq<EntryView>| #[trigger] enc_block(s) == b@ ==> (r matches Some(v) && entries_view(v@) == s),
{
    let blen = b.len();
    let (n, start) = match read_u64(b, 0) {
        Some(x) => x,
        None => {
            proof {
                assert forall|s: Seq<EntryView>| #[trigger] enc_block(s) != b@ by {
                    lemma_enc_u64(s.len() as u64, 0);
                }
            }
            return None;
        },
    };
    proof {
        assert(b@.len() <= usize::MAX);
        assert forall|s: Seq<EntryView>| #[trigger] enc_block(s) == b@ implies s.len() == n as nat && starts_at(b@, 8, enc_entries(s)) by {
            lemma_starts_at_concat(b@, 0, enc_u64(s.len() as u64), enc_entries(s));
            assert(b@.subrange(0, b@.len() as int) =~= b@);
            lemma_enc_u64(s.len() as u64, n);
            lemma_enc_entries_len(s);
            assert(s.len() < b@.len());
        }
        assert(entries_view(Seq::<(String, Option<String>)>::empty()) =~= Seq::<EntryView>::empty());
        assert(b@.subrange(8, 8) =~= Seq::<u8>::empty());
    }
    let mut out: Vec<(String, Option<String>)> = Vec::new();
    let mut pos: usize = start;
    let mut i: u64 = 0;
    while i < n
        invariant
            start == 8,
            8 <= pos <= b@.len(),
            i <= n,
            out@.len() == i,
            starts_at(b@, 0, enc_u64(n)),
            pos == 8 + enc_entries(entries_view(out@)).len(),
            starts_at(b@, 8, enc_entries(entries_view(out@))),
            forall|s: Seq<EntryView>| #[trigger] enc_block(s) == b@ ==> s.len() == n as nat && starts_at(b@, 8, enc_entries(s)) && s.take(i as int) == entries_view(out@),
        decreases n - i,
    {
        let ghost sofar = entries_view(out@);
        let (e, q) = match read_entry(b, pos) {
            Some(x) => x,
            None => {
                proof {
                    assert forall|s: Seq<EntryView>| #[trigger] enc_block(s) != b@ by {
                        if enc_block(s) == b@ {
                            lemma_enc_entries_prefix(s, i as int + 1);
                            assert(s.take(i + 1).drop_last() =~= s.take(i as int));
                            assert(s.take(i + 1).last() == s[i as int]);
                            let whole = enc_entries(s);
                            let pre = enc_entries(s.take(i + 1));
                            assert(starts_at(b@, 8, pre)) by {
                                assert(b@.subrange(8, 8 + pre.len() as int) =~= whole.subrange(0, pre.len() as int));
                            }
                            lemma_starts_at_concat(b@, 8, enc_entries(sofar), enc_entry(s[i as int]));
                        }
                    }
                }
                return None;
            },
        };
        proof {
            assert forall|s: Seq<EntryView>| #[trigger] enc_block(s) == b@ implies s.take(i + 1) == sofar.push(entry_view(e)) by {
                lemma_enc_entries_prefix(s, i as int + 1);
                assert(s.take(i + 1).drop_last() =~= s.take(i as int));
                let whole = enc_entries(s);
                let pre = enc_entries(s.take(i + 1));
                assert(starts_at(b@, 8, pre)) by {
                    assert(b@.subrange(8, 8 + pre.len() as int) =~= whole.subrange(0, pre.len() as int));
                }
                lemma_starts_at_concat(b@, 8, enc_entries(sofar), enc_entry(s[i as int]));
                assert(s.take(i + 1) =~= s.take(i as int).push(s[i as int]));
            }
            lemma_starts_at_concat(b@, 8, enc_entries(sofar), enc_entry(entry_view(e)));
        }
        out.push(e);
        proof {
            assert(entries_view(out@) =~= sofar.push(entry_view(e)));
            assert(entries_view(out@).drop_last() =~= sofar);
        }
        pos = q;
        i = i + 1;
    }
    if pos != b.len() {
        proof {
            assert forall|s: Seq<EntryView>| #[trigger] enc_block(s) != b@ by {
                if enc_block(s) == b@ {
                    assert(s.take(i as int) =~= s);
                    lemma_enc_u64(s.len() as u64, 0);
                }
            }
        }
        return None;
    }
    proof {
        lemma_enc_u64(n, 0);
        assert(entries_view(out@).len() == n);
        lemma_starts_at_concat(b@, 0, enc_u64(n), enc_entries(entries_view(out@)));
        assert(b@.subrange(0, b@.len() as int) =~= b@);
        assert forall|s: Seq<EntryView>| #[trigger] enc_block(s) == b@ implies entries_view(out@) == s by {
            assert(s.take(i as int) =~= s);
        }
    }
    Some(out)
}

/// Two strings encoded at the same place are equal.
pub proof fn lemma_str_unique(x: Seq<u8>, p: int, a: Seq<char>, b: Seq<char>)
    requires
        starts_at(x, p, enc_str(a)),
        starts_at(x, p, enc_str(b)),
        x.len() <= u64::MAX,
    ensures
        a == b,
{
    lemma_enc_u64_all();
    let ea = encode_utf8(a);
    let eb = encode_utf8(b);
    lemma_starts_at_concat(x, p, enc_u64(ea.len() as u64), ea);
    lemma_starts_at_concat(x, p, enc_u64(eb.len() as u64), eb);
    assert(enc_u64(ea.len() as u64) == x.subrange(p, p + 8));
    assert(ea.len() == eb.len());
    assert(ea == eb);
    assert(decode_utf8(ea) == a);
    assert(decode_utf8(eb) == b);
}

/// Two values encoded at the same place are equal.
pub proof fn lemma_value_unique(x: Seq<u8>, p: int, a: Option<Seq<char>>, b: Option<Seq<char>>)
    requires
        starts_at(x, p, enc_value(a)),
        starts_at(x, p, enc_value(b)),
        x.len() <= u64::MAX,
    ensures
        a == b,
{
    assert(x.subrange(p, p + enc_value(a).len())[0] == x[p]);
    assert(x.subrange(p, p + enc_value(b).len())[0] == x[p]);
    if let Some(sa) = a {
        if let Some(sb) = b {
            lemma_starts_at_concat(x, p, seq![1u8], enc_str(sa));
            lemma_starts_at_concat(x, p, seq![1u8], enc_str(sb));
            lemma_str_unique(x, p + 1, sa, sb);
        }
    }
}

/// Two entries encoded at the same place are equal.
pub proof fn lemma_entry_unique(x: Seq<u8>, p: int, a: EntryView, b: EntryView)
    requires
        starts_at(x, p, enc_entry(a)),
        starts_at(x, p, enc_entry(b)),
        x.len() <= u64::MAX,
    ensures
        a == b,
{
    lemma_starts_at_concat(x, p, enc_str(a.0), enc_value(a.1));
    lemma_starts_at_concat(x, p, enc_str(b.0), enc_value(b.1));
    lemma_str_unique(x, p, a.0, b.0);
    lemma_value_unique(x, p + enc_str(a.0).len(), a.1, b.1);
}

/// A block has a single decoding.
pub proof fn lemma_block_unique(a: Seq<EntryView>, b: Seq<EntryView>)
    requires
        enc_block(a) == enc_block(b),
        enc_block(a).len() <= u64::MAX,
    ensures
        a == b,
{
    let x = enc_block(a);
    lemma_enc_u64_all();
    lemma_enc_entries_len(a);
    lemma_enc_entries_len(b);
    assert(x.subrange(0, 8) =~= enc_u64(a.len() as u64));
    assert(enc_block(b).subrange(0, 8) =~= enc_u64(b.len() as u64));
    assert(a.len() == b.len());
    assert(starts_at(x, 8, enc_entries(a))) by {
        assert(x.subrange(8, x.len() as int) =~= enc_entries(a));
    }
    assert(starts_at(x, 8, enc_entries(b))) by {
        assert(enc_block(b).subrange(8, x.len() as int) =~= enc_entries(b));
    }
    assert(a.take(0) =~= b.take(0));
    lemma_entries_agree(x, a, b, 0);
}

proof fn lemma_entries_agree(x: Seq<u8>, a: Seq<EntryView>, b: Seq<EntryView>, k: int)
    requires
        0 <= k <= a.len(),
        a.len() == b.len(),
        a.take(k) == b.take(k),
        starts_at(x, 8, enc_entries(a)),
        starts_at(x, 8, enc_entries(b)),
        x.len() <= u64::MAX,
    ensures
        a == b,
    decreases a.len() - k,
{
    if k == a.len() {
        assert(a.take(k) =~= a);
        assert(b.take(k) =~= b);
    } else {
        lemma_enc_entries_prefix(a, k + 1);
        lemma_enc_entries_prefix(b, k + 1);
        assert(a.take(k + 1).drop_last() =~= a.take(k));
        assert(b.take(k + 1).drop_last() =~= b.take(k));
        let pa = enc_entries(a.take(k + 1));
        let pb = enc_entries(b.take(k + 1));
        assert(starts_at(x, 8, pa)) by {
            assert(x.subrange(8, 8 + pa.len() as int) =~= enc_entries(a).subrange(0, pa.len() as int));
        }
        assert(starts_at(x, 8, pb)) by {
            assert(x.subrange(8, 8 + pb.len() as int) =~= enc_entries(b).subrange(0, pb.len() as int));
        }
        lemma_starts_at_concat(x, 8, enc_entries(a.take(k)), enc_entry(a[k]));
        lemma_starts_at_concat(x, 8, enc_entries(b.take(k)), enc_entry(b[k]));
        lemma_entry_unique(x, (8 + enc_entries(a.take(k)).len()) as int, a[k], b[k]);
        assert(a.take(k + 1) =~= a.take(k).push(a[k]));
        assert(b.take(k + 1) =~= b.take(k).push(b[k]));
        lemma_entries_agree(x, a, b, k + 1);
    }
}

} // verus!
