//! Membership filter: three seeded hashes over a fixed bit vector.

use vstd::prelude::*;
use vstd::utf8::*;
use crate::text::{all_ascii, ascii_string};

verus! {

/// The 64-bit xxh3 hash of `data` under `seed`.
pub uninterp spec fn xxh3_of(data: Seq<u8>, seed: u64) -> u64;

/// Relies on `xxhash_rust::xxh3::xxh3_64_with_seed`: a hash that depends on
/// the bytes and the seed alone.
#[verifier::external_body]
fn xxh3_seeded(data: &[u8], seed: u64) -> (r: u64)
    ensures
        r == xxh3_of(data@, seed),
{
    xxhash_rust::xxh3::xxh3_64_with_seed(data, seed)
}

/// Bit position that hash `seed` gives `key` in a filter of `n` bits.
pub open spec fn slot(key: Seq<char>, seed: u64, n: nat) -> int
    recommends
        n > 0,
{
    (xxh3_of(encode_utf8(key), seed) as nat % n) as int
}

/// The filter with bits `bits` admits `key`: its three bits are set.
pub open spec fn admits(bits: Seq<bool>, key: Seq<char>) -> bool {
    &&& bits[slot(key, 1, bits.len())]
    &&& bits[slot(key, 2, bits.len())]
    &&& bits[slot(key, 3, bits.len())]
}

/// Every bit set in `old` is set in `new`.
pub open spec fn covers(new: Seq<bool>, old: Seq<bool>) -> bool {
    &&& new.len() == old.len()
    &&& forall|i: int| 0 <= i < old.len() && #[trigger] old[i] ==> new[i]
}

/// Text of a bit vector: one `0` or `1` per bit, separated by commas.
pub open spec fn filter_text(bits: Seq<bool>) -> Seq<u8> {
    Seq::new(
        (2 * bits.len() - 1) as nat,
        |i: int|
            if i % 2 == 1 {
                44u8
            } else if bits[i / 2] {
                49u8
            } else {
                48u8
            },
    )
}

/// The stored form of a filter: its text and a line feed.
pub open spec fn filter_line(bits: Seq<bool>) -> Seq<u8> {
    filter_text(bits).push(10u8)
}

/// `b` has the shape of a stored filter of at least one bit.
pub open spec fn is_filter_line(b: Seq<u8>) -> bool {
    &&& b.len() >= 2
    &&& b.len() % 2 == 0
    &&& b.last() == 10
    &&& forall|i: int|
        0 <= i < b.len() - 1 ==> (if i % 2 == 0 {
            #[trigger] b[i] == 48 || b[i] == 49
        } else {
            b[i] == 44
        })
}

/// The bits that a stored filter line spells.
pub open spec fn line_bits(b: Seq<u8>) -> Seq<bool> {
    Seq::new((b.len() / 2) as nat, |i: int| b[2 * i] == 49)
}

#[derive(Clone, Debug)]
pub struct BloomFilter {
    value: Vec<bool>,
}

impl BloomFilter {
    /// The filter's bits.
    pub closed spec fn bits(&self) -> Seq<bool> {
        self.value@
    }

    pub open spec fn wf(&self) -> bool {
        self.bits().len() > 0
    }

    /// A filter of `size` bits, all clear.
    pub fn new(size: usize) -> (r: Self)
        requires
            size > 0,
        ensures
            r.wf(),
            r.bits() == Seq::new(size as nat, |i: int| false),
    {
        let mut value: Vec<bool> = Vec::new();
        let mut i: usize = 0;
        while i < size
            invariant
                i <= size,
                value@ == Seq::new(i as nat, |j: int| false),
            decreases size - i,
        {
            value.push(false);
            i = i + 1;
            assert(value@ =~= Seq::new(i as nat, |j: int| false));
        }
        BloomFilter { value }
    }

    /// A copy with the same bits.
    pub fn duplicate(&self) -> (r: Self)
        ensures
            r.bits() == self.bits(),
    {
        BloomFilter { value: self.value.clone() }
    }

    /// Number of bits.
    pub fn size(&self) -> (r: usize)
        ensures
            r == self.bits().len(),
    {
        self.value.len()
    }

    fn position(&self, key: &str, seed: u64) -> (r: usize)
        requires
            self.wf(),
        ensures
            r as int == slot(key@, seed, self.bits().len()),
            r < self.bits().len(),
    {
        let h = xxh3_seeded(key.as_bytes(), seed);
        (h % (self.value.len() as u64)) as usize
    }

    /// Sets the three bits of `key`.
    pub fn update(&mut self, key: &str)
        requires
            old(self).wf(),
        ensures
            final(self).wf(),
            final(self).bits() == old(self).bits().update(
                slot(key@, 1, old(self).bits().len()),
                true,
            ).update(slot(key@, 2, old(self).bits().len()), true).update(
                slot(key@, 3, old(self).bits().len()),
                true,
            ),
            admits(final(self).bits(), key@),
            covers(final(self).bits(), old(self).bits()),
    {
        let bit1 = self.position(key, 1);
        let bit2 = self.position(key, 2);
        let bit3 = self.position(key, 3);
        self.value.set(bit1, true);
        self.value.set(bit2, true);
        self.value.set(bit3, true);
    }

    /// Whether the three bits of `key` are set. Never false for a key that
    /// was given to `update`; may be true for others.
    pub fn contains(&self, key: &str) -> (r: bool)
        requires
            self.wf(),
        ensures
            r == admits(self.bits(), key@),
    {
        let bit1 = self.position(key, 1);
        let bit2 = self.position(key, 2);
        let bit3 = self.position(key, 3);
        self.value[bit1] && self.value[bit2] && self.value[bit3]
    }

    /// The filter's bits as text: `0` or `1` per bit, comma separated.
    pub fn persist_value(&self) -> (r: String)
        requires
            self.wf(),
        ensures
            encode_utf8(r@) == filter_text(self.bits()),
    {
        let mut out: Vec<u8> = Vec::new();
        let mut i: usize = 0;
        let n = self.value.len();
        while i < n
            invariant
                n == self.bits().len(),
                n > 0,
                i <= n,
                out@.len() == if i == 0 { 0 } else { 2 * i - 1 },
                forall|j: int| 0 <= j < out@.len() ==> #[trigger] out@[j] == filter_text(self.bits())[j],
            decreases n - i,
        {
            if i > 0 {
                out.push(44);
            }
            if self.value[i] {
                out.push(49);
            } else {
                out.push(48);
            }
            i = i + 1;
        }
        assert(out@ =~= filter_text(self.bits()));
        ascii_string(out)
    }

    /// Reads a filter back from its stored form (`persist_value` and a line
    /// feed); `None` when `input` does not have that form.
    pub fn from_string(input: &str) -> (r: Option<Self>)
        ensures
            r is Some <==> is_filter_line(encode_utf8(input@)),
            r matches Some(f) ==> f.wf() && f.bits() == line_bits(encode_utf8(input@)) && filter_line(f.bits()) == encode_utf8(input@),
    {
        let b = input.as_bytes();
        let n = b.len();
        if n < 2 || n % 2 != 0 || b[n - 1] != 10 {
            return None;
        }
        let mut value: Vec<bool> = Vec::new();
        let mut i: usize = 0;
        while i < n - 1
            invariant
                b@ == encode_utf8(input@),
                n == b@.len(),
                n >= 2,
                n % 2 == 0,
                i % 2 == 0,
                i <= n,
                value@.len() == i / 2,
                forall|j: int| 0 <= j < i && j < n - 1 ==> (if j % 2 == 0 {
                    #[trigger] b@[j] == 48 || b@[j] == 49
                } else {
                    b@[j] == 44
                }),
                forall|j: int| 0 <= j < value@.len() ==> #[trigger] value@[j] == (b@[2 * j] == 49),
            decreases n - i,
        {
            if b[i] != 48 && b[i] != 49 {
                return None;
            }
            if i + 2 < n && b[i + 1] != 44 {
                return None;
            }
            value.push(b[i] == 49);
            i = i + 2;
        }
        let f = BloomFilter { value };
        assert(f.bits() =~= line_bits(b@));
        assert(filter_line(f.bits()) =~= b@);
        Some(f)
    }
}

/// A filter line read back gives the bits it was written from.
pub proof fn lemma_filter_line_round_trip(bits: Seq<bool>)
    requires
        bits.len() > 0,
    ensures
        is_filter_line(filter_line(bits)),
        line_bits(filter_line(bits)) == bits,
{
    assert(line_bits(filter_line(bits)) =~= bits);
}

} // verus!
