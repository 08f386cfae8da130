//! Little-endian fields of byte sequences.

use vstd::prelude::*;

verus! {

/// The unsigned 16-bit little-endian value at `off`.
pub open spec fn le16(s: Seq<u8>, off: int) -> int {
    s[off] + 0x100 * s[off + 1]
}

/// The unsigned 32-bit little-endian value at `off`.
pub open spec fn le32(s: Seq<u8>, off: int) -> int {
    le16(s, off) + 0x1_0000 * le16(s, off + 2)
}

/// The unsigned 64-bit little-endian value at `off`.
pub open spec fn le64(s: Seq<u8>, off: int) -> int {
    le32(s, off) + 0x1_0000_0000 * le32(s, off + 4)
}

/// The two bytes of a 16-bit value, low byte first.
pub open spec fn le16_bytes(n: int) -> Seq<u8> {
    seq![(n % 0x100) as u8, (n / 0x100 % 0x100) as u8]
}

/// The four bytes of a 32-bit value, low byte first.
pub open spec fn le32_bytes(n: int) -> Seq<u8> {
    le16_bytes(n % 0x1_0000) + le16_bytes(n / 0x1_0000 % 0x1_0000)
}

/// The eight bytes of a 64-bit value, low byte first.
pub open spec fn le64_bytes(n: int) -> Seq<u8> {
    le32_bytes(n % 0x1_0000_0000) + le32_bytes(n / 0x1_0000_0000 % 0x1_0000_0000)
}

/// `n` reduced to 64 bits, as address arithmetic wraps.
pub open spec fn wrap64(n: int) -> int {
    n % 0x1_0000_0000_0000_0000
}

pub fn get_u16(data: &[u8], off: usize) -> (r: u16)
    requires
        off + 2 <= data@.len(),
    ensures
        r == le16(data@, off as int),
{
    data[off] as u16 + 0x100 * (data[off + 1] as u16)
}

pub fn get_u32(data: &[u8], off: usize) -> (r: u32)
    requires
        off + 4 <= data@.len(),
    ensures
        r == le32(data@, off as int),
{
    assert(data@.len() == data.len());
    let low: u16 = get_u16(data, off);
    let high: u16 = get_u16(data, off + 2);
    low as u32 + 0x1_0000 * (high as u32)
}

pub fn get_u64(data: &[u8], off: usize) -> (r: u64)
    requires
        off + 8 <= data@.len(),
    ensures
        r == le64(data@, off as int),
{
    assert(data@.len() == data.len());
    let low: u32 = get_u32(data, off);
    let high: u32 = get_u32(data, off + 4);
    low as u64 + 0x1_0000_0000 * (high as u64)
}

pub fn push_u16(out: &mut Vec<u8>, n: u16)
    ensures
        final(out)@ == old(out)@ + le16_bytes(n as int),
{
    out.push((n % 0x100) as u8);
    out.push((n / 0x100) as u8);
}

pub fn push_u32(out: &mut Vec<u8>, n: u32)
    ensures
        final(out)@ == old(out)@ + le32_bytes(n as int),
{
    push_u16(out, (n % 0x1_0000) as u16);
    push_u16(out, (n / 0x1_0000) as u16);
}

#[verifier::spinoff_prover]
pub fn push_u64(out: &mut Vec<u8>, n: u64)
    ensures
        final(out)@ == old(out)@ + le64_bytes(n as int),
{
    let low: u32 = (n % 0x1_0000_0000) as u32;
    let high: u32 = (n / 0x1_0000_0000) as u32;
    push_u32(out, low);
    push_u32(out, high);
    proof {
        lemma_concat_assoc(old(out)@, le32_bytes(low as int), le32_bytes(high as int));
        assert(n as int / 0x1_0000_0000 % 0x1_0000_0000 == high);
    }
}

/// Concatenation is associative.
pub proof fn lemma_concat_assoc<T>(a: Seq<T>, b: Seq<T>, c: Seq<T>)
    ensures
        (a + b) + c == a + (b + c),
{
    assert((a + b) + c =~= a + (b + c));
}

/// A 32-bit field reads back as it was written.
pub proof fn lemma_le32_round_trip(n: int)
    requires
        0 <= n < 0x1_0000_0000,
    ensures
        le32_bytes(n).len() == 4,
        le32(le32_bytes(n), 0) == n,
{
    let b = le32_bytes(n);
    assert(b[0] == n % 0x1_0000 % 0x100);
}

/// A 64-bit field reads back as it was written.
pub proof fn lemma_le64_round_trip(n: int)
    requires
        0 <= n < 0x1_0000_0000_0000_0000,
    ensures
        le64_bytes(n).len() == 8,
        le64(le64_bytes(n), 0) == n,
{
    let low = n % 0x1_0000_0000;
    let high = n / 0x1_0000_0000 % 0x1_0000_0000;
    lemma_le32_round_trip(low);
    lemma_le32_round_trip(high);
    let b = le64_bytes(n);
    assert(b.subrange(0, 4) =~= le32_bytes(low));
    assert(b.subrange(4, 8) =~= le32_bytes(high));
    lemma_le32_subrange(b, 0);
    lemma_le32_subrange(b, 4);
}

/// A 32-bit field depends on its four bytes alone.
pub proof fn lemma_le32_subrange(s: Seq<u8>, off: int)
    requires
        0 <= off,
        off + 4 <= s.len(),
    ensures
        le32(s.subrange(off, off + 4), 0) == le32(s, off),
{
}

} // verus!
