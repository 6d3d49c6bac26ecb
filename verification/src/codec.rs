//! Big-endian fixed-width integers, as the file format stores them.

use byteorder::{BigEndian, ByteOrder};
use vstd::arithmetic::div_mod::lemma_fundamental_div_mod_converse;
use vstd::prelude::*;

verus! {

/// The number that four bytes denote, most significant byte first.
#[verifier::opaque]
pub open spec fn be_u32(b: Seq<u8>) -> u32
    recommends
        b.len() == 4,
{
    (b[0] as int * 0x100_0000 + b[1] as int * 0x1_0000 + b[2] as int * 0x100 + b[3] as int) as u32
}

/// Byte `i` of the four that denote `v`, byte 0 being the most significant.
#[verifier::opaque]
pub open spec fn u32_byte(v: u32, i: int) -> u8
    recommends
        0 <= i < 4,
{
    if i == 0 {
        (v / 0x100_0000) as u8
    } else if i == 1 {
        (v / 0x1_0000 % 0x100) as u8
    } else if i == 2 {
        (v / 0x100 % 0x100) as u8
    } else {
        (v % 0x100) as u8
    }
}

/// The four bytes that denote `v`, most significant byte first.
pub open spec fn u32_be(v: u32) -> Seq<u8> {
    Seq::new(4, |i: int| u32_byte(v, i))
}

/// The number that eight bytes denote, most significant byte first.
pub open spec fn be_u64(b: Seq<u8>) -> u64
    recommends
        b.len() == 8,
{
    (be_u32(b.subrange(0, 4)) as int * 0x1_0000_0000 + be_u32(b.subrange(4, 8)) as int) as u64
}

/// The eight bytes that denote `v`, most significant byte first.
pub open spec fn u64_be(v: u64) -> Seq<u8> {
    u32_be((v / 0x1_0000_0000) as u32) + u32_be((v % 0x1_0000_0000) as u32)
}

/// Decoding undoes encoding of a 32-bit number.
pub proof fn lemma_u32_round_trip(v: u32)
    ensures
        be_u32(u32_be(v)) == v,
{
    reveal(be_u32);
    reveal(u32_byte);
}

/// Encoding undoes decoding of four bytes.
pub proof fn lemma_u32_bytes_round_trip(b: Seq<u8>)
    requires
        b.len() == 4,
    ensures
        u32_be(be_u32(b)) == b,
{
    reveal(be_u32);
    reveal(u32_byte);
    let v = be_u32(b) as int;
    let (b0, b1, b2, b3) = (b[0] as int, b[1] as int, b[2] as int, b[3] as int);
    assert(v == b0 * 0x100_0000 + b1 * 0x1_0000 + b2 * 0x100 + b3);
    lemma_fundamental_div_mod_converse(v, 0x100_0000, b0, b1 * 0x1_0000 + b2 * 0x100 + b3);
    lemma_fundamental_div_mod_converse(v, 0x1_0000, b0 * 0x100 + b1, b2 * 0x100 + b3);
    lemma_fundamental_div_mod_converse(b0 * 0x100 + b1, 0x100, b0, b1);
    lemma_fundamental_div_mod_converse(v, 0x100, b0 * 0x1_0000 + b1 * 0x100 + b2, b3);
    lemma_fundamental_div_mod_converse(b0 * 0x1_0000 + b1 * 0x100 + b2, 0x100, b0 * 0x100 + b1, b2);
    assert(u32_byte(v as u32, 0) == b[0]);
    assert(u32_byte(v as u32, 1) == b[1]);
    assert(u32_byte(v as u32, 2) == b[2]);
    assert(u32_byte(v as u32, 3) == b[3]);
    assert(u32_be(v as u32) =~= b);
}

/// Four zero bytes denote zero.
pub proof fn lemma_u32_zero(b: Seq<u8>)
    requires
        b.len() == 4,
        forall|i: int| 0 <= i < 4 ==> b[i] == 0,
    ensures
        be_u32(b) == 0,
{
    reveal(be_u32);
}

/// Decoding undoes encoding of a 64-bit number.
pub proof fn lemma_u64_round_trip(v: u64)
    ensures
        be_u64(u64_be(v)) == v,
{
    let hi = (v / 0x1_0000_0000) as u32;
    let lo = (v % 0x1_0000_0000) as u32;
    lemma_u32_round_trip(hi);
    lemma_u32_round_trip(lo);
    assert(u64_be(v).subrange(0, 4) =~= u32_be(hi));
    assert(u64_be(v).subrange(4, 8) =~= u32_be(lo));
}

/// Encoding undoes decoding of eight bytes.
pub proof fn lemma_u64_bytes_round_trip(b: Seq<u8>)
    requires
        b.len() == 8,
    ensures
        u64_be(be_u64(b)) == b,
{
    let hi = b.subrange(0, 4);
    let lo = b.subrange(4, 8);
    lemma_u32_bytes_round_trip(hi);
    lemma_u32_bytes_round_trip(lo);
    assert(u64_be(be_u64(b)) =~= hi + lo);
    assert(hi + lo =~= b);
}

/// `byteorder::BigEndian::read_u32`: the big-endian number in the first four bytes
/// of `buf`. The call panics on a shorter buffer, which the precondition excludes.
#[verifier::external_body]
pub(crate) fn read_u32(buf: &[u8]) -> (v: u32)
    requires
        buf@.len() >= 4,
    ensures
        v == be_u32(buf@.subrange(0, 4)),
{
    BigEndian::read_u32(buf)
}

/// `byteorder::BigEndian::read_u64`: the big-endian number in the first eight bytes
/// of `buf`. The call panics on a shorter buffer, which the precondition excludes.
#[verifier::external_body]
pub(crate) fn read_u64(buf: &[u8]) -> (v: u64)
    requires
        buf@.len() >= 8,
    ensures
        v == be_u64(buf@.subrange(0, 8)),
{
    BigEndian::read_u64(buf)
}

/// `byteorder::BigEndian::write_u32` into a fresh four-byte buffer: the bytes of
/// `v`, most significant first.
#[verifier::external_body]
pub(crate) fn write_u32(v: u32) -> (out: [u8; 4])
    ensures
        out@ == u32_be(v),
{
    let mut out = [0u8; 4];
    BigEndian::write_u32(&mut out, v);
    out
}

/// `byteorder::BigEndian::write_u64` into a fresh eight-byte buffer: the bytes of
/// `v`, most significant first.
#[verifier::external_body]
pub(crate) fn write_u64(v: u64) -> (out: [u8; 8])
    ensures
        out@ == u64_be(v),
{
    let mut out = [0u8; 8];
    BigEndian::write_u64(&mut out, v);
    out
}

/// Copies `bytes` over the part of `buf` that begins at `at`.
pub(crate) fn overwrite(buf: &mut Vec<u8>, at: usize, bytes: &Vec<u8>)
    requires
        at + bytes@.len() <= old(buf)@.len(),
    ensures
        final(buf)@ == old(buf)@.subrange(0, at as int) + bytes@ + old(buf)@.subrange(
            at + bytes@.len(),
            old(buf)@.len() as int,
        ),
    no_unwind
{
    let n = bytes.len();
    let len = buf.len();
    let mut i: usize = 0;
    while i < n
        invariant
            n == bytes@.len(),
            0 <= i <= n,
            at + n <= len,
            len == buf@.len(),
            len == old(buf)@.len(),
            forall|k: int| 0 <= k < at ==> buf@[k] == old(buf)@[k],
            forall|k: int| at <= k < at + i ==> buf@[k] == bytes@[k - at],
            forall|k: int| at + i <= k < len ==> buf@[k] == old(buf)@[k],
        decreases n - i,
    {
        buf[at + i] = bytes[i];
        i = i + 1;
    }
    assert(buf@ =~= old(buf)@.subrange(0, at as int) + bytes@ + old(buf)@.subrange(
        at + bytes@.len(),
        old(buf)@.len() as int,
    ));
}

} // verus!
