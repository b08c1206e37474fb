//! Big-endian words, as the file format stores them.
use byteorder::BigEndian;
use byteorder::ByteOrder;
use vstd::prelude::*;

verus! {

/// The value of four bytes read as a big-endian unsigned integer.
pub open spec fn be_u32(s: Seq<u8>) -> u32
    recommends
        s.len() >= 4,
{
    (s[0] as int * 0x100_0000 + s[1] as int * 0x1_0000 + s[2] as int * 0x100 + s[3] as int) as u32
}

/// The four bytes that store `n` in big-endian order.
pub open spec fn u32_be(n: u32) -> Seq<u8> {
    seq![
        (n / 0x100_0000) as u8,
        (n / 0x1_0000 % 0x100) as u8,
        (n / 0x100 % 0x100) as u8,
        (n % 0x100) as u8,
    ]
}

/// The value of eight bytes read as a big-endian unsigned integer.
pub open spec fn be_u64(s: Seq<u8>) -> u64
    recommends
        s.len() >= 8,
{
    (be_u32(s.subrange(0, 4)) as int * 0x1_0000_0000 + be_u32(s.subrange(4, 8)) as int) as u64
}

/// The eight bytes that store `n` in big-endian order.
pub open spec fn u64_be(n: u64) -> Seq<u8> {
    u32_be((n / 0x1_0000_0000) as u32) + u32_be((n % 0x1_0000_0000) as u32)
}

/// Reading back the bytes of a 32-bit word gives the word.
pub proof fn lemma_u32_round_trip(n: u32)
    ensures
        u32_be(n).len() == 4,
        be_u32(u32_be(n)) == n,
{
}

/// Writing out the value of four bytes gives those bytes.
pub proof fn lemma_u32_bytes_round_trip(s: Seq<u8>)
    requires
        s.len() == 4,
    ensures
        u32_be(be_u32(s)) == s,
{
    assert(u32_be(be_u32(s)) =~= s);
}

/// Reading back the bytes of a 64-bit word gives the word.
pub proof fn lemma_u64_round_trip(n: u64)
    ensures
        u64_be(n).len() == 8,
        be_u64(u64_be(n)) == n,
{
    let hi = (n / 0x1_0000_0000) as u32;
    let lo = (n % 0x1_0000_0000) as u32;
    lemma_u32_round_trip(hi);
    lemma_u32_round_trip(lo);
    assert(u64_be(n).subrange(0, 4) =~= u32_be(hi));
    assert(u64_be(n).subrange(4, 8) =~= u32_be(lo));
}

/// Writing out the value of eight bytes gives those bytes.
pub proof fn lemma_u64_bytes_round_trip(s: Seq<u8>)
    requires
        s.len() == 8,
    ensures
        u64_be(be_u64(s)) == s,
{
    let hi = be_u32(s.subrange(0, 4));
    let lo = be_u32(s.subrange(4, 8));
    lemma_u32_bytes_round_trip(s.subrange(0, 4));
    lemma_u32_bytes_round_trip(s.subrange(4, 8));
    let n = be_u64(s);
    assert((n / 0x1_0000_0000) as u32 == hi);
    assert((n % 0x1_0000_0000) as u32 == lo);
    assert(u64_be(n) =~= s.subrange(0, 4) + s.subrange(4, 8));
    assert(s.subrange(0, 4) + s.subrange(4, 8) =~= s);
}

/// `byteorder::BigEndian::write_u32` into a buffer of four bytes: the
/// buffer then holds the big-endian bytes of `n`.
#[verifier::external_body]
pub(crate) fn u32_to_bytes(n: u32) -> (b: [u8; 4])
    ensures
        b@ == u32_be(n),
{
    let mut b = [0u8; 4];
    BigEndian::write_u32(&mut b, n);
    b
}

/// `byteorder::BigEndian::write_u64` into a buffer of eight bytes: the
/// buffer then holds the big-endian bytes of `n`.
#[verifier::external_body]
pub(crate) fn u64_to_bytes(n: u64) -> (b: [u8; 8])
    ensures
        b@ == u64_be(n),
{
    let mut b = [0u8; 8];
    BigEndian::write_u64(&mut b, n);
    b
}

/// `nom::number::complete::be_u32` on a byte slice: it fails where fewer
/// than four bytes are left, and else gives the big-endian value of the
/// first four.
#[verifier::external_body]
pub(crate) fn take_u32(input: &[u8]) -> (r: Option<u32>)
    ensures
        input@.len() < 4 ==> r.is_none(),
        input@.len() >= 4 ==> r == Some(be_u32(input@.subrange(0, 4))),
{
    match nom::number::complete::be_u32::<&[u8], nom::error::Error<&[u8]>>(input) {
        Ok((_, n)) => Some(n),
        Err(_) => None,
    }
}

/// `nom::number::complete::be_u64` on a byte slice: it fails where fewer
/// than eight bytes are left, and else gives the big-endian value of the
/// first eight.
#[verifier::external_body]
pub(crate) fn take_u64(input: &[u8]) -> (r: Option<u64>)
    ensures
        input@.len() < 8 ==> r.is_none(),
        input@.len() >= 8 ==> r == Some(be_u64(input@.subrange(0, 8))),
{
    match nom::number::complete::be_u64::<&[u8], nom::error::Error<&[u8]>>(input) {
        Ok((_, n)) => Some(n),
        Err(_) => None,
    }
}

} // verus!
