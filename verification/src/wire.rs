//! Big-endian integers on the wire. Writing and reading them is left to the
//! `bytes` crate; this module states what those calls do.

use vstd::prelude::*;
use vstd::slice::{slice_subrange, slice_to_vec};

verus! {

/// The 16-bit number that two bytes at position `i` of `s` spell, high byte first.
pub open spec fn be16_at(s: Seq<u8>, i: int) -> int {
    s[i] as int * 256 + s[i + 1] as int
}

/// The 32-bit number that four bytes at position `i` of `s` spell, high byte first.
pub open spec fn be32_at(s: Seq<u8>, i: int) -> int {
    ((s[i] as int * 256 + s[i + 1] as int) * 256 + s[i + 2] as int) * 256 + s[i + 3] as int
}

/// The two bytes that spell `n`, high byte first.
pub open spec fn be16_bytes(n: int) -> Seq<u8> {
    seq![(n / 256) as u8, (n % 256) as u8]
}

/// The four bytes that spell `n`, high byte first.
pub open spec fn be32_bytes(n: int) -> Seq<u8> {
    seq![
        (n / 16777216) as u8,
        (n / 65536 % 256) as u8,
        (n / 256 % 256) as u8,
        (n % 256) as u8,
    ]
}

/// Reading back what was written gives the number again.
pub proof fn lemma_be16_round_trip(n: int)
    requires
        0 <= n < 65536,
    ensures
        be16_bytes(n).len() == 2,
        be16_at(be16_bytes(n), 0) == n,
{
}

/// Reading back what was written gives the number again.
pub proof fn lemma_be32_round_trip(n: int)
    requires
        0 <= n < 4294967296,
    ensures
        be32_bytes(n).len() == 4,
        be32_at(be32_bytes(n), 0) == n,
{
    let a = n / 16777216;
    let b = n / 65536 % 256;
    let c = n / 256 % 256;
    let d = n % 256;
    assert(n / 256 == (n / 65536) * 256 + c);
    assert(n / 65536 == a * 256 + b);
    assert(n == (n / 256) * 256 + d);
}

/// Two bytes spell a number below 65536, and writing that number gives the bytes again.
pub proof fn lemma_be16_at_bytes(s: Seq<u8>, i: int)
    requires
        0 <= i,
        i + 2 <= s.len(),
    ensures
        0 <= be16_at(s, i) < 65536,
        be16_bytes(be16_at(s, i)) == s.subrange(i, i + 2),
{
    assert(be16_bytes(be16_at(s, i)) =~= s.subrange(i, i + 2));
}

/// Four bytes spell a number below 2^32, and writing that number gives the bytes again.
pub proof fn lemma_be32_at_bytes(s: Seq<u8>, i: int)
    requires
        0 <= i,
        i + 4 <= s.len(),
    ensures
        0 <= be32_at(s, i) < 4294967296,
        be32_bytes(be32_at(s, i)) == s.subrange(i, i + 4),
{
    let a = s[i] as int;
    let b = s[i + 1] as int;
    let c = s[i + 2] as int;
    let d = s[i + 3] as int;
    let n = be32_at(s, i);
    assert(n == a * 16777216 + b * 65536 + c * 256 + d);
    lemma_four_digits(a, b, c, d);
    assert(be32_bytes(n)[0] == s[i]);
    assert(be32_bytes(n)[1] == s[i + 1]);
    assert(be32_bytes(n)[2] == s[i + 2]);
    assert(be32_bytes(n)[3] == s[i + 3]);
    assert(be32_bytes(n) =~= s.subrange(i, i + 4));
}

/// The digits of a number in base 256 are found by dividing.
proof fn lemma_four_digits(a: int, b: int, c: int, d: int)
    requires
        0 <= a < 256,
        0 <= b < 256,
        0 <= c < 256,
        0 <= d < 256,
    ensures
        ({
            let n = a * 16777216 + b * 65536 + c * 256 + d;
            &&& 0 <= n < 4294967296
            &&& n / 16777216 == a
            &&& n / 65536 % 256 == b
            &&& n / 256 % 256 == c
            &&& n % 256 == d
        }),
{
    let n = a * 16777216 + b * 65536 + c * 256 + d;
    assert(n / 256 == a * 65536 + b * 256 + c);
    assert(n / 65536 == a * 256 + b);
}

/// `bytes::BufMut::put_u16` on a `Vec<u8>`: the vector grows by the two bytes
/// of `n`, high byte first, and keeps what it held.
#[verifier::external_body]
pub(crate) fn put_u16(buf: &mut Vec<u8>, n: u16)
    ensures
        final(buf)@ == old(buf)@ + be16_bytes(n as int),
{
    bytes::BufMut::put_u16(buf, n)
}

/// `bytes::BufMut::put_u32` on a `Vec<u8>`: the vector grows by the four bytes
/// of `n`, high byte first, and keeps what it held.
#[verifier::external_body]
pub(crate) fn put_u32(buf: &mut Vec<u8>, n: u32)
    ensures
        final(buf)@ == old(buf)@ + be32_bytes(n as int),
{
    bytes::BufMut::put_u32(buf, n)
}

/// `bytes::Buf::get_u16` on a byte slice: the number that its first two bytes
/// spell, high byte first. The call panics on a shorter slice, which the
/// precondition leaves out.
#[verifier::external_body]
pub(crate) fn get_u16(buf: &[u8]) -> (n: u16)
    requires
        buf@.len() >= 2,
    ensures
        n as int == be16_at(buf@, 0),
{
    let mut cursor = buf;
    bytes::Buf::get_u16(&mut cursor)
}

/// `bytes::Buf::get_u32` on a byte slice: the number that its first four bytes
/// spell, high byte first. The call panics on a shorter slice, which the
/// precondition leaves out.
#[verifier::external_body]
pub(crate) fn get_u32(buf: &[u8]) -> (n: u32)
    requires
        buf@.len() >= 4,
    ensures
        n as int == be32_at(buf@, 0),
{
    let mut cursor = buf;
    bytes::Buf::get_u32(&mut cursor)
}

/// Reads the 16-bit number at position `at` of `data`.
pub fn read_u16(data: &[u8], at: usize) -> (n: u16)
    requires
        at + 2 <= data@.len(),
    ensures
        n as int == be16_at(data@, at as int),
{
    get_u16(slice_subrange(data, at, data.len()))
}

/// Reads the 32-bit number at position `at` of `data`.
pub fn read_u32(data: &[u8], at: usize) -> (n: u32)
    requires
        at + 4 <= data@.len(),
    ensures
        n as int == be32_at(data@, at as int),
{
    get_u32(slice_subrange(data, at, data.len()))
}

/// Appends the bytes of `src` to `buf`.
pub fn put_slice(buf: &mut Vec<u8>, src: &[u8])
    ensures
        final(buf)@ == old(buf)@ + src@,
{
    buf.extend_from_slice(src);
    assert(buf@ =~= old(buf)@ + src@);
}

/// A copy of `data[from..to]`.
pub fn copy_range(data: &[u8], from: usize, to: usize) -> (out: Vec<u8>)
    requires
        from <= to <= data@.len(),
    ensures
        out@ == data@.subrange(from as int, to as int),
{
    slice_to_vec(slice_subrange(data, from, to))
}

} // verus!
