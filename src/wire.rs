//! Big-endian integers on the wire.
use vstd::prelude::*;

verus! {

/// The two octets of `v`, most significant first.
pub open spec fn be16(v: u16) -> Seq<u8> {
    seq![(v / 256) as u8, (v % 256) as u8]
}

/// The four octets of `v`, most significant first.
pub open spec fn be32(v: u32) -> Seq<u8> {
    seq![
        (v / 0x100_0000) as u8,
        ((v / 0x1_0000) % 256) as u8,
        ((v / 256) % 256) as u8,
        (v % 256) as u8,
    ]
}

/// The 16-bit value whose octets stand at `pos` and `pos + 1`.
pub open spec fn read16(b: Seq<u8>, pos: int) -> u16 {
    (b[pos] * 256 + b[pos + 1]) as u16
}

/// The 32-bit value whose octets stand at `pos` to `pos + 3`.
pub open spec fn read32(b: Seq<u8>, pos: int) -> u32 {
    (b[pos] * 0x100_0000 + b[pos + 1] * 0x1_0000 + b[pos + 2] * 256 + b[pos + 3]) as u32
}

/// Reading back the octets of a 16-bit value gives the value.
pub proof fn lemma_read16_be16(b: Seq<u8>, pos: int, v: u16)
    requires
        0 <= pos,
        pos + 2 <= b.len(),
        b.subrange(pos, pos + 2) == be16(v),
    ensures
        read16(b, pos) == v,
{
    assert(b[pos] == be16(v)[0]);
    assert(b[pos + 1] == be16(v)[1]);
}

/// Reading back the octets of a 32-bit value gives the value.
pub proof fn lemma_read32_be32(b: Seq<u8>, pos: int, v: u32)
    requires
        0 <= pos,
        pos + 4 <= b.len(),
        b.subrange(pos, pos + 4) == be32(v),
    ensures
        read32(b, pos) == v,
{
    assert(b[pos] == be32(v)[0]);
    assert(b[pos + 1] == be32(v)[1]);
    assert(b[pos + 2] == be32(v)[2]);
    assert(b[pos + 3] == be32(v)[3]);
}

/// Appends the two octets of `v`.
pub fn push_u16(out: &mut Vec<u8>, v: u16)
    ensures
        final(out)@ == old(out)@ + be16(v),
{
    out.push((v / 256) as u8);
    out.push((v % 256) as u8);
    assert(final(out)@ =~= old(out)@ + be16(v));
}

/// Appends the four octets of `v`.
pub fn push_u32(out: &mut Vec<u8>, v: u32)
    ensures
        final(out)@ == old(out)@ + be32(v),
{
    out.push((v / 0x100_0000) as u8);
    out.push(((v / 0x1_0000) % 256) as u8);
    out.push(((v / 256) % 256) as u8);
    out.push((v % 256) as u8);
    assert(final(out)@ =~= old(out)@ + be32(v));
}

/// Appends `bytes` to `out`.
pub fn push_all(out: &mut Vec<u8>, bytes: &[u8])
    ensures
        final(out)@ == old(out)@ + bytes@,
{
    let ghost start = out@;
    let mut i: usize = 0;
    while i < bytes.len()
        invariant
            i <= bytes@.len(),
            out@ == start + bytes@.subrange(0, i as int),
        decreases bytes@.len() - i,
    {
        out.push(bytes[i]);
        i = i + 1;
        assert(out@ =~= start + bytes@.subrange(0, i as int));
    }
    assert(bytes@.subrange(0, i as int) =~= bytes@);
}

/// The 16-bit value at `pos`.
pub fn get_u16(b: &[u8], pos: usize) -> (r: u16)
    requires
        pos + 2 <= b@.len(),
    ensures
        r == read16(b@, pos as int),
{
    (b[pos] as u16) * 256 + (b[pos + 1] as u16)
}

/// The 32-bit value at `pos`.
pub fn get_u32(b: &[u8], pos: usize) -> (r: u32)
    requires
        pos + 4 <= b@.len(),
    ensures
        r == read32(b@, pos as int),
{
    (b[pos] as u32) * 0x100_0000 + (b[pos + 1] as u32) * 0x1_0000 + (b[pos + 2] as u32) * 256
        + (b[pos + 3] as u32)
}

/// A part of a run of octets found in `b` is found in `b` at the matching place.
pub proof fn lemma_subrange_part(b: Seq<u8>, pos: int, whole: Seq<u8>, off: int, part: Seq<u8>)
    requires
        0 <= pos,
        pos + whole.len() <= b.len(),
        b.subrange(pos, pos + whole.len()) == whole,
        0 <= off,
        off + part.len() <= whole.len(),
        whole.subrange(off, off + part.len()) == part,
    ensures
        b.subrange(pos + off, pos + off + part.len()) == part,
{
    assert(b.subrange(pos + off, pos + off + part.len()) =~= whole.subrange(off, off + part.len()));
}

} // verus!
