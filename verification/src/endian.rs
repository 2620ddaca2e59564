//! Little-endian integer fields inside a byte buffer.
//!
//! The arithmetic meaning of a field is given by `le_u16` / `le_u64`; the
//! actual byte shuffling is done by the `byteorder` crate.

use byteorder::{ByteOrder, LittleEndian};
use vstd::prelude::*;

verus! {

/// The value of the two-byte little-endian field at the start of `s`.
pub open spec fn le_u16(s: Seq<u8>) -> int {
    s[0] as int + 256 * (s[1] as int)
}

/// The value of the eight-byte little-endian field at the start of `s`.
pub open spec fn le_u64(s: Seq<u8>) -> int {
    s[0] as int + 0x100 * (s[1] as int) + 0x1_0000 * (s[2] as int) + 0x100_0000 * (s[3] as int)
        + 0x1_0000_0000 * (s[4] as int) + 0x100_0000_0000 * (s[5] as int) + 0x1_0000_0000_0000
        * (s[6] as int) + 0x100_0000_0000_0000 * (s[7] as int)
}

/// The two bytes that encode `n`, least significant first.
pub open spec fn le_bytes_u16(n: u16) -> Seq<u8> {
    seq![(n % 256) as u8, (n / 256) as u8]
}

/// Byte `k` of `n`, counting from the least significant one.
pub open spec fn le_byte(n: int, k: nat) -> u8
    decreases k,
{
    if k == 0 {
        (n % 256) as u8
    } else {
        le_byte(n / 256, (k - 1) as nat)
    }
}

/// The eight bytes that encode `n`, least significant first.
pub open spec fn le_bytes_u64(n: u64) -> Seq<u8> {
    Seq::new(8, |k: int| le_byte(n as int, k as nat))
}

/// The field at `pos` of `s`, two bytes wide.
pub open spec fn u16_at(s: Seq<u8>, pos: int) -> int {
    le_u16(s.subrange(pos, pos + 2))
}

/// The field at `pos` of `s`, eight bytes wide.
pub open spec fn u64_at(s: Seq<u8>, pos: int) -> int {
    le_u64(s.subrange(pos, pos + 8))
}

/// Decoding the encoding of a 16-bit value gives the value back.
pub proof fn lemma_le_u16_roundtrip(n: u16)
    ensures
        le_bytes_u16(n).len() == 2,
        le_u16(le_bytes_u16(n)) == n,
{
}

/// Decoding the encoding of a 64-bit value gives the value back.
pub proof fn lemma_le_u64_roundtrip(n: u64)
    ensures
        le_bytes_u64(n).len() == 8,
        le_u64(le_bytes_u64(n)) == n,
{
    reveal_with_fuel(le_byte, 8);
    let q0 = n as int;
    let q1 = q0 / 256;
    let q2 = q1 / 256;
    let q3 = q2 / 256;
    let q4 = q3 / 256;
    let q5 = q4 / 256;
    let q6 = q5 / 256;
    let q7 = q6 / 256;
    assert(q7 / 256 == 0);
    let s = le_bytes_u64(n);
    assert(s[0] == (q0 % 256) as u8);
    assert(s[1] == (q1 % 256) as u8);
    assert(s[2] == (q2 % 256) as u8);
    assert(s[3] == (q3 % 256) as u8);
    assert(s[4] == (q4 % 256) as u8);
    assert(s[5] == (q5 % 256) as u8);
    assert(s[6] == (q6 % 256) as u8);
    assert(s[7] == (q7 % 256) as u8);
}

/// A field always fits its width.
pub proof fn lemma_le_bounds(s: Seq<u8>)
    ensures
        s.len() >= 2 ==> 0 <= le_u16(s) <= u16::MAX,
        s.len() >= 8 ==> 0 <= le_u64(s) <= u64::MAX,
{
}

/// `byteorder::LittleEndian::read_u16`: the first two bytes of `buf`, read
/// least significant byte first. The outside function panics on a shorter
/// buffer, which the precondition rules out.
#[verifier::external_body]
pub(crate) fn read_u16(buf: &[u8]) -> (r: u16)
    requires
        buf@.len() >= 2,
    ensures
        r as int == le_u16(buf@),
{
    LittleEndian::read_u16(buf)
}

/// `byteorder::LittleEndian::read_u64`: the first eight bytes of `buf`, read
/// least significant byte first. The outside function panics on a shorter
/// buffer, which the precondition rules out.
#[verifier::external_body]
pub(crate) fn read_u64(buf: &[u8]) -> (r: u64)
    requires
        buf@.len() >= 8,
    ensures
        r as int == le_u64(buf@),
{
    LittleEndian::read_u64(buf)
}

/// `byteorder::LittleEndian::write_u16` on the tail of `buf` that begins at
/// `start`: the two bytes at `start` become the encoding of `n`, every other
/// byte keeps its value.
#[verifier::external_body]
pub(crate) fn write_u16(buf: &mut Vec<u8>, start: usize, n: u16)
    requires
        start + 2 <= old(buf)@.len(),
    ensures
        final(buf)@.len() == old(buf)@.len(),
        final(buf)@.subrange(start as int, start + 2) == le_bytes_u16(n),
        forall|i: int|
            0 <= i < old(buf)@.len() && !(start <= i < start + 2) ==> final(buf)@[i] == old(
                buf,
            )@[i],
{
    LittleEndian::write_u16(&mut buf[start..], n)
}

/// `byteorder::LittleEndian::write_u64` on the tail of `buf` that begins at
/// `start`: the eight bytes at `start` become the encoding of `n`, every
/// other byte keeps its value.
#[verifier::external_body]
pub(crate) fn write_u64(buf: &mut Vec<u8>, start: usize, n: u64)
    requires
        start + 8 <= old(buf)@.len(),
    ensures
        final(buf)@.len() == old(buf)@.len(),
        final(buf)@.subrange(start as int, start + 8) == le_bytes_u64(n),
        forall|i: int|
            0 <= i < old(buf)@.len() && !(start <= i < start + 8) ==> final(buf)@[i] == old(
                buf,
            )@[i],
{
    LittleEndian::write_u64(&mut buf[start..], n)
}

} // verus!
