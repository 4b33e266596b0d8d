//! Pixels, the cache hash, channel deltas and the flat channel layout.
use vstd::prelude::*;

verus! {

/// Number of channels of a flat pixel buffer.
#[derive(Clone, Copy, Debug, PartialEq, Eq, Structural)]
pub enum ChannelCount {
    Rgb,
    Rgba,
}

impl ChannelCount {
    pub open spec fn spec_size(self) -> nat {
        match self {
            ChannelCount::Rgb => 3,
            ChannelCount::Rgba => 4,
        }
    }

    /// The number of bytes per pixel: 3 or 4.
    pub fn size(self) -> (r: usize)
        ensures
            r == self.spec_size(),
    {
        match self {
            ChannelCount::Rgb => 3,
            ChannelCount::Rgba => 4,
        }
    }
}

/// A pixel of four 8-bit channels.
#[derive(Clone, Copy, Debug, PartialEq, Eq, Structural)]
pub struct Pixel {
    pub r: u8,
    pub g: u8,
    pub b: u8,
    pub a: u8,
}

/// Opaque black, the predictor's value before the first pixel.
pub open spec fn opaque_black() -> Pixel {
    Pixel { r: 0, g: 0, b: 0, a: 255 }
}

/// All channels zero, the initial content of every cache slot.
pub open spec fn transparent_black() -> Pixel {
    Pixel { r: 0, g: 0, b: 0, a: 0 }
}

/// The cache slot of a pixel: the XOR of its channels, modulo 64.
pub open spec fn slot(p: Pixel) -> int {
    ((p.r ^ p.g ^ p.b ^ p.a) % 64) as int
}

/// The XOR of the four channels.
pub fn color_hash(p: Pixel) -> (r: u8)
    ensures
        r == p.r ^ p.g ^ p.b ^ p.a,
{
    p.r ^ p.g ^ p.b ^ p.a
}

/// The signed channel-wise difference `x - y`, in the order R, G, B, A.
pub fn subtract_pixels(x: Pixel, y: Pixel) -> (d: (i32, i32, i32, i32))
    ensures
        d.0 == x.r - y.r,
        d.1 == x.g - y.g,
        d.2 == x.b - y.b,
        d.3 == x.a - y.a,
{
    (
        x.r as i32 - y.r as i32,
        x.g as i32 - y.g as i32,
        x.b as i32 - y.b as i32,
        x.a as i32 - y.a as i32,
    )
}

/// The pixel whose channels start at byte `i * c` of a flat buffer; a
/// three-channel buffer gives alpha 255.
pub open spec fn pixel_at(data: Seq<u8>, c: nat, i: int) -> Pixel {
    Pixel {
        r: data[i * c],
        g: data[i * c + 1],
        b: data[i * c + 2],
        a: if c == 4 { data[i * c + 3] } else { 255 },
    }
}

/// The pixels of a flat buffer of `c` channels, in row-major order.
pub open spec fn pixels_of(data: Seq<u8>, c: nat) -> Seq<Pixel> {
    Seq::new(data.len() / c, |i: int| pixel_at(data, c, i))
}

/// The channels of one pixel as stored in a buffer of `c` channels.
pub open spec fn channel_bytes(p: Pixel, c: nat) -> Seq<u8> {
    if c == 4 {
        seq![p.r, p.g, p.b, p.a]
    } else {
        seq![p.r, p.g, p.b]
    }
}

/// A pixel sequence laid out flat with `c` channels per pixel.
pub open spec fn flatten(ps: Seq<Pixel>, c: nat) -> Seq<u8>
    decreases ps.len(),
{
    if ps.len() == 0 {
        Seq::empty()
    } else {
        flatten(ps.drop_last(), c) + channel_bytes(ps.last(), c)
    }
}

/// Laying the pixels of a buffer out again gives back the buffer.
pub proof fn lemma_flatten_pixels_of(data: Seq<u8>, c: nat)
    requires
        c == 3 || c == 4,
        data.len() % c == 0,
    ensures
        flatten(pixels_of(data, c), c) == data,
{
    let ps = pixels_of(data, c);
    let n = data.len() / c;
    assert(n * c == data.len());
    lemma_flatten_prefix(data, c, n);
    assert(ps.take(n as int) == ps);
    assert(data.take(data.len() as int) == data);
}

proof fn lemma_flatten_prefix(data: Seq<u8>, c: nat, k: nat)
    requires
        c == 3 || c == 4,
        k <= data.len() / c,
    ensures
        flatten(pixels_of(data, c).take(k as int), c) == data.take((k * c) as int),
    decreases k,
{
    let ps = pixels_of(data, c);
    if k == 0 {
        assert(data.take(0) =~= Seq::<u8>::empty());
    } else {
        lemma_flatten_prefix(data, c, (k - 1) as nat);
        let t = ps.take(k as int);
        assert(t.drop_last() =~= ps.take(k - 1));
        assert(k * c <= data.len());
        assert(data.take((k * c) as int) =~= data.take(((k - 1) * c) as int) + channel_bytes(
            pixel_at(data, c, k - 1),
            c,
        ));
    }
}

} // verus!
