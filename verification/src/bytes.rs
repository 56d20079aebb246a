//! Big-endian integers, as the segment files store them.

use byteorder::BigEndian;
use byteorder::ByteOrder;
use vstd::prelude::*;

verus! {

/// The number that four bytes stand for, most significant byte first.
pub open spec fn be32_value(b: Seq<u8>) -> int
    recommends
        b.len() >= 4,
{
    b[0] as int * 0x100_0000 + b[1] as int * 0x1_0000 + b[2] as int * 0x100 + b[3] as int
}

/// The four bytes of a 32-bit number, most significant byte first.
pub open spec fn be32_bytes(x: u32) -> Seq<u8> {
    seq![
        (x as int / 0x100_0000) as u8,
        (x as int / 0x1_0000 % 0x100) as u8,
        (x as int / 0x100 % 0x100) as u8,
        (x as int % 0x100) as u8,
    ]
}

/// The number that eight bytes stand for, most significant byte first.
pub open spec fn be64_value(b: Seq<u8>) -> int
    recommends
        b.len() >= 8,
{
    be32_value(b.subrange(0, 4)) * 0x1_0000_0000 + be32_value(b.subrange(4, 8))
}

/// The eight bytes of a 64-bit number, most significant byte first.
pub open spec fn be64_bytes(x: u64) -> Seq<u8> {
    be32_bytes((x as int / 0x1_0000_0000) as u32) + be32_bytes((x as int % 0x1_0000_0000) as u32)
}

/// Reading back the bytes of a 32-bit number gives the number.
pub proof fn lemma_be32_round_trip(x: u32)
    ensures
        be32_bytes(x).len() == 4,
        be32_value(be32_bytes(x)) == x,
{
}

/// Reading back the bytes of a 64-bit number gives the number.
pub proof fn lemma_be64_round_trip(x: u64)
    ensures
        be64_bytes(x).len() == 8,
        be64_value(be64_bytes(x)) == x,
{
    let hi = (x as int / 0x1_0000_0000) as u32;
    let lo = (x as int % 0x1_0000_0000) as u32;
    lemma_be32_round_trip(hi);
    lemma_be32_round_trip(lo);
    assert(be64_bytes(x).subrange(0, 4) =~= be32_bytes(hi));
    assert(be64_bytes(x).subrange(4, 8) =~= be32_bytes(lo));
}

/// Calls `byteorder::BigEndian::read_u32` on the bytes of `data` from `at` on.
/// Claimed of it: it reads the first four of them as a big-endian number; it
/// needs four bytes to be there.
#[verifier::external_body]
pub(crate) fn read_u32_at(data: &[u8], at: usize) -> (r: u32)
    requires
        at + 4 <= data@.len(),
    ensures
        r as int == be32_value(data@.subrange(at as int, at + 4)),
{
    BigEndian::read_u32(&data[at..])
}

/// Calls `byteorder::BigEndian::read_u64` on the bytes of `data` from `at` on.
/// Claimed of it: it reads the first eight of them as a big-endian number; it
/// needs eight bytes to be there.
#[verifier::external_body]
pub(crate) fn read_u64_at(data: &[u8], at: usize) -> (r: u64)
    requires
        at + 8 <= data@.len(),
    ensures
        r as int == be64_value(data@.subrange(at as int, at + 8)),
{
    BigEndian::read_u64(&data[at..])
}

/// Calls `byteorder::BigEndian::write_u32` on a buffer of four bytes.
/// Claimed of it: the buffer then holds the number, most significant byte
/// first.
#[verifier::external_body]
pub(crate) fn u32_to_be(n: u32) -> (r: Vec<u8>)
    ensures
        r@ == be32_bytes(n),
{
    let mut word = vec![0u8; 4];
    BigEndian::write_u32(&mut word, n);
    word
}

/// Calls `byteorder::BigEndian::write_u64` on a buffer of eight bytes.
/// Claimed of it: the buffer then holds the number, most significant byte
/// first.
#[verifier::external_body]
pub(crate) fn u64_to_be(n: u64) -> (r: Vec<u8>)
    ensures
        r@ == be64_bytes(n),
{
    let mut word = vec![0u8; 8];
    BigEndian::write_u64(&mut word, n);
    word
}

/// Appends the big-endian bytes of `n` to `out`.
pub fn push_u32(out: &mut Vec<u8>, n: u32)
    ensures
        final(out)@ == old(out)@ + be32_bytes(n),
{
    let mut word = u32_to_be(n);
    out.append(&mut word);
}

/// Appends the big-endian bytes of `n` to `out`.
pub fn push_u64(out: &mut Vec<u8>, n: u64)
    ensures
        final(out)@ == old(out)@ + be64_bytes(n),
{
    let mut word = u64_to_be(n);
    out.append(&mut word);
}

} // verus!
