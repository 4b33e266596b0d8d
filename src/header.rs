//! The 12-byte stream header: magic, width, height and image-data length.
use vstd::prelude::*;

verus! {

/// Length of the header in bytes.
pub const HEADER_LEN: usize = 12;

/// The ASCII bytes `qoif` that open every stream.
pub open spec fn magic() -> Seq<u8> {
    seq![0x71u8, 0x6fu8, 0x69u8, 0x66u8]
}

/// A 16-bit value, little-endian.
pub open spec fn le16(v: u16) -> Seq<u8> {
    seq![(v % 256) as u8, (v / 256) as u8]
}

/// A 32-bit value, little-endian.
pub open spec fn le32(v: u32) -> Seq<u8> {
    seq![
        (v % 256) as u8,
        ((v / 256) % 256) as u8,
        ((v / 65536) % 256) as u8,
        (v / 16777216) as u8,
    ]
}

/// The value of two little-endian bytes.
pub open spec fn read_le16(b0: u8, b1: u8) -> u16 {
    (b0 + 256 * b1) as u16
}

/// The value of four little-endian bytes.
pub open spec fn read_le32(b0: u8, b1: u8, b2: u8, b3: u8) -> u32 {
    (b0 + 256 * b1 + 65536 * b2 + 16777216 * b3) as u32
}

/// The header of an image of `w` by `h` pixels whose image data is `size` bytes.
pub open spec fn header_bytes(w: u16, h: u16, size: u32) -> Seq<u8> {
    magic() + le16(w) + le16(h) + le32(size)
}

/// `v` with the four bytes at `offset` replaced by `size`, little-endian.
pub open spec fn with_size(v: Seq<u8>, offset: int, size: u32) -> Seq<u8> {
    v.take(offset) + le32(size) + v.skip(offset + 4)
}

fn push_le16(out: &mut Vec<u8>, v: u16)
    ensures
        final(out)@ == old(out)@ + le16(v),
{
    out.push((v % 256) as u8);
    out.push((v / 256) as u8);
    assert(final(out)@ =~= old(out)@ + le16(v));
}

fn le32_bytes(v: u32) -> (r: (u8, u8, u8, u8))
    ensures
        seq![r.0, r.1, r.2, r.3] == le32(v),
{
    ((v % 256) as u8, ((v / 256) % 256) as u8, ((v / 65536) % 256) as u8, (v / 16777216) as u8)
}

/// Appends the header with a zero size field, and returns the offset of that
/// field so that it can be filled in once the image data is known.
pub fn encode_header(out: &mut Vec<u8>, width: u16, height: u16) -> (offset: usize)
    requires
        old(out)@.len() + HEADER_LEN <= usize::MAX,
    ensures
        final(out)@ == old(out)@ + header_bytes(width, height, 0),
        offset == old(out)@.len() + 8,
{
    out.push(0x71);
    out.push(0x6f);
    out.push(0x69);
    out.push(0x66);
    push_le16(out, width);
    push_le16(out, height);
    let offset = out.len();
    let (b0, b1, b2, b3) = le32_bytes(0);
    out.push(b0);
    out.push(b1);
    out.push(b2);
    out.push(b3);
    assert(final(out)@ =~= old(out)@ + header_bytes(width, height, 0));
    offset
}

/// Writes `size` little-endian into the four bytes at `offset`.
pub fn encode_size(out: &mut Vec<u8>, size: u32, offset: usize)
    requires
        offset + 4 <= old(out)@.len(),
    ensures
        final(out)@ == with_size(old(out)@, offset as int, size),
{
    let (b0, b1, b2, b3) = le32_bytes(size);
    let len = out.len();
    assert(offset + 3 < len);
    let (o1, o2, o3) = (offset + 1, offset + 2, offset + 3);
    out.set(offset, b0);
    out.set(o1, b1);
    out.set(o2, b2);
    out.set(o3, b3);
    assert(final(out)@ =~= with_size(old(out)@, offset as int, size));
}

} // verus!
