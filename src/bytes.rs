//! Little-endian integers inside byte sequences.
use vstd::prelude::*;

verus! {

/// The four little-endian bytes of `x`.
pub open spec fn le32(x: u32) -> Seq<u8> {
    seq![
        (x % 0x100) as u8,
        ((x / 0x100) % 0x100) as u8,
        ((x / 0x1_0000) % 0x100) as u8,
        ((x / 0x100_0000) % 0x100) as u8,
    ]
}

/// The eight little-endian bytes of `x`.
pub open spec fn le64(x: u64) -> Seq<u8> {
    le32((x % 0x1_0000_0000) as u32) + le32((x / 0x1_0000_0000) as u32)
}

/// The integer that four little-endian bytes stand for.
pub open spec fn from_le32(s: Seq<u8>) -> u32 {
    (s[0] as int + s[1] as int * 0x100 + s[2] as int * 0x1_0000 + s[3] as int * 0x100_0000) as u32
}

/// The integer that eight little-endian bytes stand for.
pub open spec fn from_le64(s: Seq<u8>) -> u64 {
    (from_le32(s.subrange(0, 4)) as int + from_le32(s.subrange(4, 8)) as int * 0x1_0000_0000) as u64
}

pub proof fn lemma_le32_round_trip(x: u32)
    ensures
        le32(x).len() == 4,
        from_le32(le32(x)) == x,
{
}

pub proof fn lemma_le64_round_trip(x: u64)
    ensures
        le64(x).len() == 8,
        from_le64(le64(x)) == x,
{
    let lo = (x % 0x1_0000_0000) as u32;
    let hi = (x / 0x1_0000_0000) as u32;
    lemma_le32_round_trip(lo);
    lemma_le32_round_trip(hi);
    assert(le64(x).subrange(0, 4) =~= le32(lo));
    assert(le64(x).subrange(4, 8) =~= le32(hi));
}

pub proof fn lemma_from_le32_injective(s: Seq<u8>)
    requires
        s.len() == 4,
    ensures
        le32(from_le32(s)) =~= s,
{
}

/// Appends the little-endian bytes of `x` to `out`.
pub fn push_u32(out: &mut Vec<u8>, x: u32)
    ensures
        final(out)@ == old(out)@ + le32(x),
{
    out.push((x % 0x100) as u8);
    out.push(((x / 0x100) % 0x100) as u8);
    out.push(((x / 0x1_0000) % 0x100) as u8);
    out.push(((x / 0x100_0000) % 0x100) as u8);
    assert(out@ =~= old(out)@ + le32(x));
}

/// Appends the little-endian bytes of `x` to `out`.
pub fn push_u64(out: &mut Vec<u8>, x: u64)
    ensures
        final(out)@ == old(out)@ + le64(x),
{
    push_u32(out, (x % 0x1_0000_0000) as u32);
    push_u32(out, (x / 0x1_0000_0000) as u32);
    assert(out@ =~= old(out)@ + le64(x));
}

/// Reads four little-endian bytes at `pos`.
pub fn read_u32(b: &[u8], pos: usize) -> (r: u32)
    requires
        pos + 4 <= b@.len(),
    ensures
        r == from_le32(b@.subrange(pos as int, pos + 4)),
{
    let _len = b.len();
    let r = (b[pos] as u32) + (b[pos + 1] as u32) * 0x100 + (b[pos + 2] as u32) * 0x1_0000
        + (b[pos + 3] as u32) * 0x100_0000;
    r
}

/// Reads eight little-endian bytes at `pos`.
pub fn read_u64(b: &[u8], pos: usize) -> (r: u64)
    requires
        pos + 8 <= b@.len(),
    ensures
        r == from_le64(b@.subrange(pos as int, pos + 8)),
{
    let _len = b.len();
    let lo = read_u32(b, pos);
    let hi = read_u32(b, pos + 4);
    assert(b@.subrange(pos as int, pos + 8).subrange(0, 4) =~= b@.subrange(pos as int, pos + 4));
    assert(b@.subrange(pos as int, pos + 8).subrange(4, 8) =~= b@.subrange(pos + 4, pos + 8));
    (lo as u64) + (hi as u64) * 0x1_0000_0000
}

/// Overwrites the four bytes at `pos` with the little-endian bytes of `x`.
pub fn write_u32_at(b: &mut Vec<u8>, pos: usize, x: u32)
    requires
        pos + 4 <= old(b)@.len(),
    ensures
        final(b)@ == old(b)@.subrange(0, pos as int) + le32(x) + old(b)@.subrange(
            pos + 4,
            old(b)@.len() as int,
        ),
{
    let _len = b.len();
    b.set(pos, (x % 0x100) as u8);
    b.set(pos + 1, ((x / 0x100) % 0x100) as u8);
    b.set(pos + 2, ((x / 0x1_0000) % 0x100) as u8);
    b.set(pos + 3, ((x / 0x100_0000) % 0x100) as u8);
    assert(b@ =~= old(b)@.subrange(0, pos as int) + le32(x) + old(b)@.subrange(
        pos + 4,
        old(b)@.len() as int,
    ));
}

/// Overwrites the eight bytes at `pos` with the little-endian bytes of `x`.
pub fn write_u64_at(b: &mut Vec<u8>, pos: usize, x: u64)
    requires
        pos + 8 <= old(b)@.len(),
    ensures
        final(b)@ == old(b)@.subrange(0, pos as int) + le64(x) + old(b)@.subrange(
            pos + 8,
            old(b)@.len() as int,
        ),
{
    let _len = b.len();
    write_u32_at(b, pos, (x % 0x1_0000_0000) as u32);
    write_u32_at(b, pos + 4, (x / 0x1_0000_0000) as u32);
    assert(b@ =~= old(b)@.subrange(0, pos as int) + le64(x) + old(b)@.subrange(
        pos + 8,
        old(b)@.len() as int,
    ));
}

} // verus!

verus! {

/// Appends `src[from..to]` to `out`.
pub fn push_range(out: &mut Vec<u8>, src: &[u8], from: usize, to: usize)
    requires
        from <= to <= src@.len(),
    ensures
        final(out)@ == old(out)@ + src@.subrange(from as int, to as int),
{
    let mut i = from;
    while i < to
        invariant
            from <= i <= to <= src@.len(),
            out@ == old(out)@ + src@.subrange(from as int, i as int),
        decreases to - i,
    {
        out.push(src[i]);
        i = i + 1;
        assert(out@ =~= old(out)@ + src@.subrange(from as int, i as int));
    }
}

/// A copy of `src[from..to]`.
pub fn copy_range(src: &[u8], from: usize, to: usize) -> (r: Vec<u8>)
    requires
        from <= to <= src@.len(),
    ensures
        r@ == src@.subrange(from as int, to as int),
{
    let mut r: Vec<u8> = Vec::new();
    push_range(&mut r, src, from, to);
    assert(r@ =~= src@.subrange(from as int, to as int));
    r
}

} // verus!
