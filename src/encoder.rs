//! The encoder: a state machine over pixels that emits tagged instructions.
use vstd::prelude::*;
use crate::codec::{
    CACHE_SIZE, CodecState, MAX_RUN_8_LENGTH, MAX_RUN_LENGTH, initial_state, new_cache,
};
use crate::header::{HEADER_LEN, encode_header, encode_size, header_bytes};
use crate::pixel::{ChannelCount, Pixel, color_hash, pixels_of, slot, subtract_pixels};

verus! {

/// The geometry that the encoder accepts for a buffer of `len` bytes of
/// `c` channels, `width` pixels wide: whole pixels, whole rows, and a width
/// and height that fit in 16 bits.
pub open spec fn valid_dims(len: nat, width: nat, c: ChannelCount) -> bool {
    &&& width > 0
    &&& width <= 0xffff
    &&& len % c.spec_size() == 0
    &&& len % (width * c.spec_size()) == 0
    &&& len / (width * c.spec_size()) <= 0xffff
}

/// The run instruction for a run of `n` pixels, 1 <= n <= 0x2020.
pub open spec fn run_bytes(n: nat) -> Seq<u8> {
    if n < MAX_RUN_8_LENGTH {
        seq![(0x40 + n - 1) as u8]
    } else {
        seq![(0x60 + (n - 33) / 256) as u8, ((n - 33) % 256) as u8]
    }
}

/// `lo < d < hi`.
pub open spec fn within(d: int, lo: int, hi: int) -> bool {
    lo < d && d < hi
}

/// The COLOR instruction: a bitmap of the channels given (R 8, G 4, B 2,
/// A 1), then the raw value of each of them.
pub open spec fn color_bytes(px: Pixel, wr: bool, wg: bool, wb: bool, wa: bool) -> Seq<u8> {
    seq![
        (0xf0 + (if wr { 8int } else { 0 }) + (if wg { 4int } else { 0 }) + (if wb { 2int } else { 0 })
            + (if wa { 1int } else { 0 })) as u8,
    ] + (if wr { seq![px.r] } else { seq![] }) + (if wg { seq![px.g] } else { seq![] }) + (if wb {
        seq![px.b]
    } else {
        seq![]
    }) + (if wa { seq![px.a] } else { seq![] })
}

/// The instruction that moves the predictor from `prev` to `px` without the
/// cache: the smallest DIFF tag that holds the delta, else COLOR.
pub open spec fn diff_bytes(px: Pixel, prev: Pixel) -> Seq<u8> {
    let dr = px.r - prev.r;
    let dg = px.g - prev.g;
    let db = px.b - prev.b;
    let da = px.a - prev.a;
    if within(dr, -16, 17) && within(dg, -16, 17) && within(db, -16, 17) && within(da, -16, 17) {
        if da == 0 && within(dr, -2, 3) && within(dg, -2, 3) && within(db, -2, 3) {
            seq![(0x80 + (dr + 1) * 16 + (dg + 1) * 4 + (db + 1)) as u8]
        } else if da == 0 && within(dg, -8, 9) && within(db, -8, 9) {
            seq![(0xc0 + dr + 15) as u8, ((dg + 7) * 16 + db + 7) as u8]
        } else {
            let (r, g, b, a) = (dr + 15, dg + 15, db + 15, da + 15);
            seq![
                (0xe0 + r / 2) as u8,
                ((r % 2) * 128 + g * 4 + b / 8) as u8,
                ((b % 8) * 32 + a) as u8,
            ]
        }
    } else {
        color_bytes(px, dr != 0, dg != 0, db != 0, da != 0)
    }
}

/// One encoder step on pixel `px` (`last` when it is the final pixel): the
/// next state and the bytes emitted.
#[verifier::opaque]
pub open spec fn enc_step(s: CodecState, px: Pixel, last: bool) -> (CodecState, Seq<u8>) {
    let same = px == s.px;
    let run = if same { s.run + 1 } else { s.run };
    let flush = run > 0 && (run == MAX_RUN_LENGTH || !same || last);
    let flushed = if flush { run_bytes(run) } else { Seq::empty() };
    let rest = if flush { 0 } else { run };
    if same {
        (CodecState { px: s.px, cache: s.cache, run: rest }, flushed)
    } else if s.cache[slot(px)] == px {
        (CodecState { px, cache: s.cache, run: rest }, flushed.push(slot(px) as u8))
    } else {
        (
            CodecState { px, cache: s.cache.update(slot(px), px), run: rest },
            flushed + diff_bytes(px, s.px),
        )
    }
}

/// The encoder's state and output after the first `n` pixels of `ps`.
pub open spec fn enc_prefix(ps: Seq<Pixel>, n: nat) -> (CodecState, Seq<u8>)
    decreases n,
{
    if n == 0 {
        (initial_state(), Seq::empty())
    } else {
        let (s, out) = enc_prefix(ps, (n - 1) as nat);
        let (s2, more) = enc_step(s, ps[n - 1], n == ps.len());
        (s2, out + more)
    }
}

/// The image data of a pixel sequence: its instructions and the padding.
pub open spec fn image_data(ps: Seq<Pixel>) -> Seq<u8> {
    enc_prefix(ps, ps.len()).1 + seq![0u8, 0u8, 0u8, 0u8]
}

/// The complete stream for a buffer of `c` channels, `width` pixels wide:
/// header, then image data, whose length (modulo 2^32) the header holds.
pub open spec fn encoded(data: Seq<u8>, width: nat, c: ChannelCount) -> Seq<u8> {
    let body = image_data(pixels_of(data, c.spec_size()));
    header_bytes(
        width as u16,
        (data.len() / (width * c.spec_size())) as u16,
        (body.len() % 0x1_0000_0000) as u32,
    ) + body
}

/// Whether [`encode`] accepts a buffer of `len` bytes with this width and
/// channel count.
pub fn dims_valid(len: usize, width: usize, channels: ChannelCount) -> (r: bool)
    ensures
        r == valid_dims(len as nat, width as nat, channels),
{
    let c = channels.size();
    if width == 0 || width > 0xffff {
        return false;
    }
    len % c == 0 && len % (width * c) == 0 && len / (width * c) <= 0xffff
}

/// Returns (width, height, number of pixels) of a valid buffer.
pub fn verify_and_calculate_dims(data: &[u8], width: usize, channels: ChannelCount) -> (r: (
    u16,
    u16,
    usize,
))
    requires
        valid_dims(data@.len(), width as nat, channels),
    ensures
        r.0 == width,
        r.1 == data@.len() / (width as nat * channels.spec_size()),
        r.2 == data@.len() / channels.spec_size(),
{
    let c = channels.size();
    let height = data.len() / (width * c);
    let total_pixels = data.len() / c;
    (width as u16, height as u16, total_pixels)
}

fn push_run(out: &mut Vec<u8>, run: u32)
    requires
        1 <= run <= MAX_RUN_LENGTH,
    ensures
        final(out)@ == old(out)@ + run_bytes(run as nat),
{
    if run < MAX_RUN_8_LENGTH {
        out.push((0x40 + (run - 1)) as u8);
    } else {
        let rest = run - MAX_RUN_8_LENGTH;
        out.push((0x60 + rest / 256) as u8);
        out.push((rest % 256) as u8);
    }
    assert(final(out)@ =~= old(out)@ + run_bytes(run as nat));
}

fn push_color(out: &mut Vec<u8>, px: Pixel, dr: i32, dg: i32, db: i32, da: i32)
    ensures
        final(out)@ == old(out)@ + color_bytes(px, dr != 0, dg != 0, db != 0, da != 0),
{
    let mut tag: u8 = 0xf0;
    if dr != 0 {
        tag = tag + 8;
    }
    if dg != 0 {
        tag = tag + 4;
    }
    if db != 0 {
        tag = tag + 2;
    }
    if da != 0 {
        tag = tag + 1;
    }
    out.push(tag);
    if dr != 0 {
        out.push(px.r);
    }
    if dg != 0 {
        out.push(px.g);
    }
    if db != 0 {
        out.push(px.b);
    }
    if da != 0 {
        out.push(px.a);
    }
    assert(final(out)@ =~= old(out)@ + color_bytes(px, dr != 0, dg != 0, db != 0, da != 0));
}

fn push_diff(out: &mut Vec<u8>, px: Pixel, prev: Pixel)
    ensures
        final(out)@ == old(out)@ + diff_bytes(px, prev),
{
    let (vr, vg, vb, va) = subtract_pixels(px, prev);
    let small = -16 < vr && vr < 17 && -16 < vg && vg < 17 && -16 < vb && vb < 17 && -16 < va
        && va < 17;
    if small {
        if va == 0 && -2 < vr && vr < 3 && -2 < vg && vg < 3 && -2 < vb && vb < 3 {
            out.push((0x80 + (vr + 1) * 16 + (vg + 1) * 4 + (vb + 1)) as u8);
        } else if va == 0 && -8 < vg && vg < 9 && -8 < vb && vb < 9 {
            out.push((0xc0 + vr + 15) as u8);
            out.push(((vg + 7) * 16 + vb + 7) as u8);
        } else {
            let (r, g, b, a) = (vr + 15, vg + 15, vb + 15, va + 15);
            out.push((0xe0 + r / 2) as u8);
            out.push(((r % 2) * 128 + g * 4 + b / 8) as u8);
            out.push(((b % 8) * 32 + a) as u8);
        }
        assert(final(out)@ =~= old(out)@ + diff_bytes(px, prev));
    } else {
        push_color(out, px, vr, vg, vb, va);
    }
}

/// Runs one encoder step on `px`: emits its bytes and updates the cache and
/// the run.
fn encode_pixel(
    out: &mut Vec<u8>,
    cache: &mut Vec<Pixel>,
    run: &mut u32,
    px_prev: Pixel,
    px: Pixel,
    last: bool,
)
    requires
        old(cache)@.len() == CACHE_SIZE,
        *old(run) < MAX_RUN_LENGTH,
    ensures
        final(out)@ == old(out)@ + enc_step(
            CodecState { px: px_prev, cache: old(cache)@, run: *old(run) as nat },
            px,
            last,
        ).1,
        enc_step(
            CodecState { px: px_prev, cache: old(cache)@, run: *old(run) as nat },
            px,
            last,
        ).0 == (CodecState { px, cache: final(cache)@, run: *final(run) as nat }),
        final(cache)@.len() == CACHE_SIZE,
        *final(run) < MAX_RUN_LENGTH,
{
    reveal(enc_step);
    let ghost s0 = CodecState { px: px_prev, cache: cache@, run: *run as nat };
    let ghost out0 = out@;
    let pixel_matches_last = px == px_prev;
    if pixel_matches_last {
        *run += 1;
    }
    if *run > 0 && (*run == MAX_RUN_LENGTH || !pixel_matches_last || last) {
        push_run(out, *run);
        *run = 0;
    }
    if !pixel_matches_last {
        let index_pos = (color_hash(px) % 64) as usize;
        if cache[index_pos] == px {
            out.push(index_pos as u8);
        } else {
            cache.set(index_pos, px);
            push_diff(out, px, px_prev);
        }
    }
    assert(out@ =~= out0 + enc_step(s0, px, last).1);
}

/// Encodes a buffer of `channels` channels per pixel, `width` pixels wide,
/// row-major, into a complete stream.
pub fn encode(data: &[u8], width: usize, channels: ChannelCount) -> (out: Vec<u8>)
    requires
        valid_dims(data@.len(), width as nat, channels),
    ensures
        out@ == encoded(data@, width as nat, channels),
{
    let (w, h, total_pixels) = verify_and_calculate_dims(data, width, channels);
    let c = channels.size();
    let ghost ps = pixels_of(data@, c as nat);
    let mut out: Vec<u8> = Vec::new();
    let size_field_offset = encode_header(&mut out, w, h);
    let mut run: u32 = 0;
    let mut px_prev = Pixel { r: 0, g: 0, b: 0, a: 255 };
    let mut cache = new_cache();
    let mut i: usize = 0;
    assert(data@.len() == data.len());
    while i < total_pixels
        invariant
            c == channels.spec_size(),
            total_pixels == data@.len() / (c as nat),
            ps == pixels_of(data@, c as nat),
            data@.len() <= usize::MAX,
            size_field_offset == 8,
            i <= total_pixels,
            out@ == header_bytes(w, h, 0) + enc_prefix(ps, i as nat).1,
            enc_prefix(ps, i as nat).0 == (CodecState { px: px_prev, cache: cache@, run: run as nat }),
            run < MAX_RUN_LENGTH,
            cache@.len() == CACHE_SIZE,
        decreases total_pixels - i,
    {
        assert((i + 1) * c <= data@.len() <= usize::MAX) by (nonlinear_arith)
            requires
                data@.len() <= usize::MAX,
                i < total_pixels,
                total_pixels == data@.len() / (c as nat),
                c == 3 || c == 4,
        ;
        let base = i * c;
        let a = if c == 4 {
            data[base + 3]
        } else {
            255
        };
        let px = Pixel { r: data[base], g: data[base + 1], b: data[base + 2], a };
        assert(px == ps[i as int]);
        let ghost out0 = out@;
        encode_pixel(&mut out, &mut cache, &mut run, px_prev, px, i + 1 == total_pixels);
        px_prev = px;
        i += 1;
        assert(out@ =~= header_bytes(w, h, 0) + enc_prefix(ps, i as nat).1);
    }
    out.push(0);
    out.push(0);
    out.push(0);
    out.push(0);
    let image_data_len = out.len() - HEADER_LEN;
    proof {
        assert(ps.len() == total_pixels);
        assert(out@ =~= header_bytes(w, h, 0) + image_data(ps));
    }
    let size = ((image_data_len as u64) % 0x1_0000_0000) as u32;
    encode_size(&mut out, size, size_field_offset);
    assert(out@ =~= encoded(data@, width as nat, channels));
    out
}

} // verus!
