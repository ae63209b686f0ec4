//! Byte-level text helpers: ASCII validity, decimal digits, and the
//! conversion of UTF-8 bytes into a `String`.

use vstd::prelude::*;
use vstd::utf8::*;

verus! {

broadcast use vstd::utf8::group_utf8_lib;

/// Every byte is a 7-bit ASCII code.
pub open spec fn all_ascii(b: Seq<u8>) -> bool {
    forall|i: int| 0 <= i < b.len() ==> #[trigger] b[i] < 128
}

pub proof fn lemma_ascii_valid_utf8(b: Seq<u8>)
    requires
        all_ascii(b),
    ensures
        valid_utf8(b),
{
    assert forall|i: int| 0 <= 0 <= i < b.len() <= b.len() implies #[trigger] is_leading_byte_width_1(
        b[i],
    ) by {
        assert(b[i] < 128);
    }
    assert(b.subrange(0, 0) =~= Seq::<u8>::empty());
    partial_valid_utf8_extend_ascii_block(b, 0, b.len() as int);
    assert(b.subrange(0, b.len() as int) =~= b);
}

/// Relies on `std::string::String::from_utf8`: it succeeds exactly when the
/// bytes are valid UTF-8, and the string then holds those bytes.
#[verifier::external_body]
fn utf8_to_string(bytes: Vec<u8>) -> (r: Option<String>)
    ensures
        r is Some <==> valid_utf8(bytes@),
        r matches Some(s) ==> s@ == decode_utf8(bytes@),
{
    String::from_utf8(bytes).ok()
}

/// The string whose UTF-8 encoding is `bytes`, or `None` when the bytes are
/// not valid UTF-8.
pub fn string_from_bytes(bytes: Vec<u8>) -> (r: Option<String>)
    ensures
        r is Some <==> valid_utf8(bytes@),
        r matches Some(s) ==> encode_utf8(s@) == bytes@,
{
    let ghost b = bytes@;
    let r = utf8_to_string(bytes);
    proof {
        if valid_utf8(b) {
            decode_utf8_encode_utf8(b);
        }
    }
    r
}

/// The string of an ASCII byte sequence.
pub fn ascii_string(bytes: Vec<u8>) -> (r: String)
    requires
        all_ascii(bytes@),
    ensures
        encode_utf8(r@) == bytes@,
{
    proof {
        lemma_ascii_valid_utf8(bytes@);
    }
    match string_from_bytes(bytes) {
        Some(s) => s,
        None => String::new(),
    }
}

/// Decimal digits of `n`, most significant first, without leading zeros
/// (zero is the single digit `0`).
pub open spec fn decimal(n: nat) -> Seq<u8>
    decreases n,
{
    if n < 10 {
        seq![(48 + n) as u8]
    } else {
        decimal(n / 10).push((48 + n % 10) as u8)
    }
}

/// Decimal digits of `n`, padded on the left with `0` to at least `width`.
pub open spec fn decimal_padded(n: nat, width: nat) -> Seq<u8> {
    let d = decimal(n);
    if d.len() >= width {
        d
    } else {
        Seq::new((width - d.len()) as nat, |i: int| 48u8) + d
    }
}

pub proof fn lemma_decimal_digits(n: nat)
    ensures
        decimal(n).len() >= 1,
        forall|i: int| 0 <= i < decimal(n).len() ==> 48 <= #[trigger] decimal(n)[i] <= 57,
    decreases n,
{
    if n >= 10 {
        lemma_decimal_digits(n / 10);
    }
}

pub proof fn lemma_decimal_padded_digits(n: nat, width: nat)
    ensures
        decimal_padded(n, width).len() >= width,
        forall|i: int|
            0 <= i < decimal_padded(n, width).len() ==> 48 <= #[trigger] decimal_padded(
                n,
                width,
            )[i] <= 57,
{
    lemma_decimal_digits(n);
}

/// The decimal digits of `n`, in a new vector.
pub fn decimal_bytes(n: u64) -> (r: Vec<u8>)
    ensures
        r@ == decimal(n as nat),
    decreases n,
{
    if n < 10 {
        let mut v: Vec<u8> = Vec::new();
        v.push(48 + n as u8);
        v
    } else {
        let mut v = decimal_bytes(n / 10);
        v.push(48 + (n % 10) as u8);
        v
    }
}

/// Appends the decimal digits of `n`, zero-padded to `width`, to `out`.
pub fn push_decimal_padded(out: &mut Vec<u8>, n: u64, width: usize)
    ensures
        final(out)@ == old(out)@ + decimal_padded(n as nat, width as nat),
{
    let d = decimal_bytes(n);
    let mut i: usize = d.len();
    assert(out@ =~= old(out)@ + Seq::new(0nat, |j: int| 48u8));
    while i < width
        invariant
            d@ == decimal(n as nat),
            d@.len() <= i,
            d@.len() < width ==> i <= width,
            d@.len() >= width ==> i == d@.len(),
            out@ == old(out)@ + Seq::new((i - d@.len()) as nat, |j: int| 48u8),
        decreases width - i,
    {
        out.push(48);
        i = i + 1;
        assert(out@ =~= old(out)@ + Seq::new((i - d@.len()) as nat, |j: int| 48u8));
    }
    let mut j: usize = 0;
    let ghost pad = out@;
    while j < d.len()
        invariant
            j <= d@.len(),
            out@ == pad + d@.subrange(0, j as int),
        decreases d@.len() - j,
    {
        out.push(d[j]);
        j = j + 1;
        assert(out@ =~= pad + d@.subrange(0, j as int));
    }
    assert(d@.subrange(0, d@.len() as int) =~= d@);
    if d.len() >= width {
        assert(Seq::new(0nat, |k: int| 48u8) + d@ =~= d@);
    }
    assert(out@ =~= old(out)@ + decimal_padded(n as nat, width as nat));
}

/// The number whose decimal digits are `b`, read most significant first.
pub open spec fn digits_value(b: Seq<u8>) -> nat
    decreases b.len(),
{
    if b.len() == 0 {
        0
    } else {
        digits_value(b.drop_last()) * 10 + (b.last() - 48) as nat
    }
}

pub open spec fn all_digits(b: Seq<u8>) -> bool {
    forall|i: int| 0 <= i < b.len() ==> 48 <= #[trigger] b[i] <= 57
}

/// Reads a non-empty run of decimal digits as a `u64`; `None` when a byte is
/// not a digit or the value does not fit.
pub fn parse_decimal(b: &[u8]) -> (r: Option<u64>)
    ensures
        r is Some <==> (b@.len() > 0 && all_digits(b@) && digits_value(b@) <= u64::MAX),
        r matches Some(n) ==> n as nat == digits_value(b@),
{
    if b.len() == 0 {
        return None;
    }
    let mut acc: u64 = 0;
    let mut i: usize = 0;
    while i < b.len()
        invariant
            i <= b@.len(),
            all_digits(b@.subrange(0, i as int)),
            acc as nat == digits_value(b@.subrange(0, i as int)),
        decreases b@.len() - i,
    {
        assert(b@.subrange(0, i + 1).drop_last() =~= b@.subrange(0, i as int));
        if b[i] < 48 || b[i] > 57 {
            proof {
                assert(!all_digits(b@));
            }
            return None;
        }
        let digit = (b[i] - 48) as u64;
        if acc > (u64::MAX - digit) / 10 {
            proof {
                lemma_digits_value_prefix_bound(b@, i as int + 1);
                assert(digits_value(b@.subrange(0, i + 1)) == acc as nat * 10 + digit as nat);
                assert(acc as nat * 10 + digit as nat > u64::MAX) by (nonlinear_arith)
                    requires acc > (u64::MAX - digit) / 10, digit <= 9;
            }
            return None;
        }
        proof {
            assert(acc * 10 + digit <= u64::MAX) by (nonlinear_arith)
                requires acc <= (u64::MAX - digit) / 10, digit <= 9;
        }
        acc = acc * 10 + digit;
        i = i + 1;
        assert(all_digits(b@.subrange(0, i as int)));
    }
    assert(b@.subrange(0, b@.len() as int) =~= b@);
    Some(acc)
}

/// A prefix of a digit run never has a larger value than the whole run.
proof fn lemma_digits_value_prefix_bound(b: Seq<u8>, k: int)
    requires
        0 <= k <= b.len(),
        all_digits(b.subrange(0, k)),
    ensures
        all_digits(b) ==> digits_value(b.subrange(0, k)) <= digits_value(b),
    decreases b.len() - k,
{
    if k < b.len() && all_digits(b) {
        assert(all_digits(b.subrange(0, k + 1)));
        lemma_digits_value_prefix_bound(b, k + 1);
        assert(b.subrange(0, k + 1).drop_last() =~= b.subrange(0, k));
        assert(digits_value(b.subrange(0, k + 1)) >= digits_value(b.subrange(0, k)));
    } else if k == b.len() {
        assert(b.subrange(0, k) =~= b);
    }
}

} // verus!
