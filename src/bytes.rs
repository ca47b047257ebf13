use vstd::prelude::*;

verus! {

/// The unsigned little-endian 16-bit number stored at `b[i..i+2]`.
pub open spec fn le16(b: Seq<u8>, i: int) -> int {
    b[i] as int + b[i + 1] as int * 256
}

/// The unsigned little-endian 32-bit number stored at `b[i..i+4]`.
pub open spec fn le32(b: Seq<u8>, i: int) -> int {
    le16(b, i) + le16(b, i + 2) * 65536
}

/// The two little-endian bytes of `v`.
pub open spec fn le16_bytes(v: u16) -> Seq<u8> {
    seq![(v % 256) as u8, (v / 256) as u8]
}

/// The four little-endian bytes of `v`.
pub open spec fn le32_bytes(v: u32) -> Seq<u8> {
    seq![(v % 256) as u8, (v / 256 % 256) as u8, (v / 65536 % 256) as u8, (v / 16777216) as u8]
}

/// `img` with the bytes from `pos` on replaced by `data`.
pub open spec fn splice(img: Seq<u8>, pos: int, data: Seq<u8>) -> Seq<u8> {
    img.subrange(0, pos) + data + img.subrange(pos + data.len(), img.len() as int)
}

pub fn read_le16(b: &Vec<u8>, i: usize) -> (r: u16)
    requires
        i + 2 <= b.len(),
    ensures
        r as int == le16(b@, i as int),
{
    (b[i] as u16) + (b[i + 1] as u16) * 256
}

pub fn read_le32(b: &Vec<u8>, i: usize) -> (r: u32)
    requires
        i + 4 <= b.len(),
    ensures
        r as int == le32(b@, i as int),
{
    let lo = read_le16(b, i);
    let hi = read_le16(b, i + 2);
    (lo as u32) + (hi as u32) * 65536
}

pub proof fn lemma_le16_bytes(v: u16)
    ensures
        le16(le16_bytes(v), 0) == v,
{
}

pub proof fn lemma_le32_bytes(v: u32)
    ensures
        le32(le32_bytes(v), 0) == v,
{
    let s = le32_bytes(v);
    assert(s[0] as int == v % 256);
    assert(s[1] as int == v / 256 % 256);
    assert(s[2] as int == v / 65536 % 256);
    assert(s[3] as int == v / 16777216);
    assert((v % 256) + (v / 256 % 256) * 256 + (v / 65536 % 256) * 65536 + (v / 16777216)
        * 16777216 == v) by (nonlinear_arith);
}

/// Appends the little-endian bytes of `v`.
pub fn push_le16(out: &mut Vec<u8>, v: u16)
    ensures
        final(out)@ == old(out)@ + le16_bytes(v),
{
    out.push((v % 256) as u8);
    out.push((v / 256) as u8);
    assert(final(out)@ =~= old(out)@ + le16_bytes(v));
}

/// Appends the little-endian bytes of `v`.
pub fn push_le32(out: &mut Vec<u8>, v: u32)
    ensures
        final(out)@ == old(out)@ + le32_bytes(v),
{
    out.push((v % 256) as u8);
    out.push((v / 256 % 256) as u8);
    out.push((v / 65536 % 256) as u8);
    out.push((v / 16777216) as u8);
    assert(final(out)@ =~= old(out)@ + le32_bytes(v));
}

} // verus!
