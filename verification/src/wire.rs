//! Big-endian integers in byte sequences.
use vstd::prelude::*;

verus! {

/// The 16-bit big-endian integer at place `i` of `s`.
pub open spec fn be16(s: Seq<u8>, i: int) -> u16 {
    (s[i] * 0x100 + s[i + 1]) as u16
}

/// The 32-bit big-endian integer at place `i` of `s`.
pub open spec fn be32(s: Seq<u8>, i: int) -> u32 {
    (s[i] * 0x100_0000 + s[i + 1] * 0x1_0000 + s[i + 2] * 0x100 + s[i + 3]) as u32
}

/// The two bytes of a 16-bit integer, high byte first.
pub open spec fn be16_bytes(v: u16) -> Seq<u8> {
    seq![(v / 0x100) as u8, (v % 0x100) as u8]
}

/// The four bytes of a 32-bit integer, high byte first.
pub open spec fn be32_bytes(v: u32) -> Seq<u8> {
    seq![
        (v / 0x100_0000) as u8,
        (v / 0x1_0000 % 0x100) as u8,
        (v / 0x100 % 0x100) as u8,
        (v % 0x100) as u8,
    ]
}

/// A length as a 16-bit field holds it.
pub open spec fn len16(n: nat) -> u16 {
    (n % 0x1_0000) as u16
}

/// What was written as a 16-bit integer reads back.
pub proof fn lemma_be16_round_trip(s: Seq<u8>, i: int, v: u16)
    requires
        0 <= i,
        i + 2 <= s.len(),
        s.subrange(i, i + 2) == be16_bytes(v),
    ensures
        be16(s, i) == v,
{
    assert(s[i] == s.subrange(i, i + 2)[0]);
    assert(s[i + 1] == s.subrange(i, i + 2)[1]);
}

/// What was written as a 32-bit integer reads back.
pub proof fn lemma_be32_round_trip(s: Seq<u8>, i: int, v: u32)
    requires
        0 <= i,
        i + 4 <= s.len(),
        s.subrange(i, i + 4) == be32_bytes(v),
    ensures
        be32(s, i) == v,
{
    let t = s.subrange(i, i + 4);
    assert(s[i] == t[0] && s[i + 1] == t[1] && s[i + 2] == t[2] && s[i + 3] == t[3]);
}

/// Reads the 16-bit big-endian integer at place `i`.
pub fn read16(bytes: &[u8], i: usize) -> (v: u16)
    requires
        i + 2 <= bytes@.len(),
    ensures
        v == be16(bytes@, i as int),
{
    bytes[i] as u16 * 0x100 + bytes[i + 1] as u16
}

/// Reads the 32-bit big-endian integer at place `i`.
pub fn read32(bytes: &[u8], i: usize) -> (v: u32)
    requires
        i + 4 <= bytes@.len(),
    ensures
        v == be32(bytes@, i as int),
{
    bytes[i] as u32 * 0x100_0000 + bytes[i + 1] as u32 * 0x1_0000 + bytes[i + 2] as u32 * 0x100
        + bytes[i + 3] as u32
}

/// Appends a 16-bit integer, high byte first.
pub fn push16(out: &mut Vec<u8>, v: u16)
    ensures
        final(out)@ == old(out)@ + be16_bytes(v),
{
    out.push((v / 0x100) as u8);
    out.push((v % 0x100) as u8);
}

/// Appends a 32-bit integer, high byte first.
pub fn push32(out: &mut Vec<u8>, v: u32)
    ensures
        final(out)@ == old(out)@ + be32_bytes(v),
{
    out.push((v / 0x100_0000) as u8);
    out.push((v / 0x1_0000 % 0x100) as u8);
    out.push((v / 0x100 % 0x100) as u8);
    out.push((v % 0x100) as u8);
}

/// Overwrites two bytes by a 16-bit integer, high byte first.
pub fn write16(out: &mut Vec<u8>, i: usize, v: u16)
    requires
        i + 2 <= old(out)@.len(),
    ensures
        final(out)@ == old(out)@.update(i as int, be16_bytes(v)[0]).update(i + 1, be16_bytes(v)[1]),
{
    assert(i + 2 <= out.len());
    out[i] = (v / 0x100) as u8;
    out[i + 1] = (v % 0x100) as u8;
}

/// Appends a run of bytes.
pub fn push_bytes(out: &mut Vec<u8>, bytes: &[u8])
    ensures
        final(out)@ == old(out)@ + bytes@,
{
    out.extend_from_slice(bytes);
}

/// The low 16 bits of a length.
pub fn length16(n: usize) -> (v: u16)
    ensures
        v == len16(n as nat),
{
    (n % 0x1_0000) as u16
}

} // verus!
