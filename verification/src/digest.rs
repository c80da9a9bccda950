//! Checksums.

use sha2::Digest;
use vstd::prelude::*;

verus! {

/// The SHA-256 digest of `data`, as `sha2` computes it.
pub uninterp spec fn sha256_of(data: Seq<u8>) -> Seq<u8>;

/// `sha2::Sha256::digest`: thirty-two bytes that depend on the data alone.
#[verifier::external_body]
fn sha256_digest(data: &[u8]) -> (res: Vec<u8>)
    ensures
        res@ == sha256_of(data@),
        res@.len() == 32,
{
    sha2::Sha256::digest(data).to_vec()
}

/// The character of a hexadecimal digit.
pub open spec fn hex_digit(value: int) -> char {
    if value < 10 {
        ('0' as int + value) as char
    } else {
        ('a' as int + value - 10) as char
    }
}

/// Two hexadecimal digits for each of the first `end` bytes.
pub open spec fn hex_of(bytes: Seq<u8>, end: int) -> Seq<char>
    decreases end,
{
    if end <= 0 {
        Seq::empty()
    } else {
        hex_of(bytes, end - 1).push(hex_digit(bytes[end - 1] as int / 16)).push(
            hex_digit(bytes[end - 1] as int % 16),
        )
    }
}

fn push_hex_digit(out: &mut String, value: u8)
    requires
        value < 16,
    ensures
        final(out)@ == old(out)@.push(hex_digit(value as int)),
{
    let digit: u8 = if value < 10 {
        0x30 + value
    } else {
        0x61 + (value - 10)
    };
    out.push(digit as char);
}

/// Two hexadecimal digits for each byte.
pub fn hex(bytes: &[u8]) -> (res: String)
    ensures
        res@ == hex_of(bytes@, bytes@.len() as int),
{
    let mut res: String = String::new();
    for i in 0..bytes.len()
        invariant
            res@ == hex_of(bytes@, i as int),
    {
        push_hex_digit(&mut res, bytes[i] / 16);
        push_hex_digit(&mut res, bytes[i] % 16);
    }
    res
}

/// The SHA-256 checksum of `data` in hexadecimal digits.
pub open spec fn checksum_of(data: Seq<u8>) -> Seq<char> {
    hex_of(sha256_of(data), sha256_of(data).len() as int)
}

/// The SHA-256 checksum of `data` in hexadecimal digits.
pub fn sha256(data: &[u8]) -> (res: String)
    ensures
        res@ == checksum_of(data@),
        res@.len() == 64,
{
    let digest = sha256_digest(data);
    proof {
        lemma_hex_length(digest@, 32);
    }
    hex(digest.as_slice())
}

proof fn lemma_hex_length(bytes: Seq<u8>, end: int)
    requires
        0 <= end,
    ensures
        hex_of(bytes, end).len() == 2 * end,
    decreases end,
{
    if end > 0 {
        lemma_hex_length(bytes, end - 1);
    }
}

/// Different bytes have different hexadecimal digits.
pub proof fn law_hex_is_one_to_one(a: Seq<u8>, b: Seq<u8>)
    requires
        hex_of(a, a.len() as int) == hex_of(b, b.len() as int),
    ensures
        a == b,
    decreases a.len(),
{
    let m = a.len() as int;
    let n = b.len() as int;
    lemma_hex_length(a, m);
    lemma_hex_length(b, n);
    assert(m == n);
    if m > 0 {
        let whole = hex_of(a, m);
        let high = 2 * m - 2;
        let low = 2 * m - 1;
        lemma_hex_length(a, m - 1);
        lemma_hex_length(b, m - 1);
        assert(whole[high] == hex_digit(a[m - 1] as int / 16));
        assert(whole[low] == hex_digit(a[m - 1] as int % 16));
        assert(whole[high] == hex_digit(b[m - 1] as int / 16));
        assert(whole[low] == hex_digit(b[m - 1] as int % 16));
        lemma_hex_digit(a[m - 1] as int / 16, b[m - 1] as int / 16);
        lemma_hex_digit(a[m - 1] as int % 16, b[m - 1] as int % 16);
        assert(a[m - 1] == b[m - 1]);
        assert(hex_of(a, m - 1) =~= whole.take(high));
        assert(hex_of(b, m - 1) =~= whole.take(high));
        lemma_hex_prefix(a, a.drop_last(), m - 1);
        lemma_hex_prefix(b, b.drop_last(), m - 1);
        law_hex_is_one_to_one(a.drop_last(), b.drop_last());
        assert(a =~= a.drop_last().push(a[m - 1]));
        assert(b =~= b.drop_last().push(b[m - 1]));
    } else {
        assert(a =~= b);
    }
}

proof fn lemma_hex_digit(x: int, y: int)
    requires
        0 <= x < 16,
        0 <= y < 16,
        hex_digit(x) == hex_digit(y),
    ensures
        x == y,
{
}

proof fn lemma_hex_prefix(a: Seq<u8>, b: Seq<u8>, end: int)
    requires
        end <= a.len(),
        end <= b.len(),
        forall|i: int| 0 <= i < end ==> a[i] == b[i],
    ensures
        hex_of(a, end) == hex_of(b, end),
    decreases end,
{
    if end > 0 {
        lemma_hex_prefix(a, b, end - 1);
    }
}

/// The number that a hexadecimal digit stands for.
pub open spec fn hex_value(c: char) -> int {
    if '0' <= c <= '9' {
        c as int - '0' as int
    } else {
        c as int - 'a' as int + 10
    }
}

/// Every byte has two digits, the one for its higher half first, in the order of the bytes.
pub proof fn law_hex_digits_stand_for_their_byte(bytes: Seq<u8>, end: int, i: int)
    requires
        0 <= i < end <= bytes.len(),
    ensures
        hex_of(bytes, end).len() == 2 * end,
        16 * hex_value(hex_of(bytes, end)[2 * i]) + hex_value(hex_of(bytes, end)[2 * i + 1])
            == bytes[i],
        0 <= hex_value(hex_of(bytes, end)[2 * i]) < 16,
        0 <= hex_value(hex_of(bytes, end)[2 * i + 1]) < 16,
    decreases end,
{
    lemma_hex_length(bytes, end);
    lemma_hex_length(bytes, end - 1);
    if i < end - 1 {
        law_hex_digits_stand_for_their_byte(bytes, end - 1, i);
    } else {
        let whole = hex_of(bytes, end);
        assert(whole[2 * i] == hex_digit(bytes[i] as int / 16));
        assert(whole[2 * i + 1] == hex_digit(bytes[i] as int % 16));
    }
}

} // verus!
