//! The decoder: a state machine over instruction bytes that emits pixels.
use vstd::prelude::*;
use crate::codec::{CACHE_SIZE, CodecState, initial_state, new_cache};
use crate::header::{HEADER_LEN, magic, read_le16, read_le32};
use crate::pixel::{ChannelCount, Pixel, channel_bytes, color_hash, flatten, slot};

verus! {

/// Why a byte stream is not an image.
#[derive(Clone, Copy, Debug, PartialEq, Eq, Structural)]
pub enum DecodeError {
    /// The stream ends before the header or the last pixel.
    UnexpectedEnd,
    /// The stream does not begin with `qoif`.
    MissingMagic,
    /// The header gives a width of zero.
    ZeroWidth,
    /// The header gives a height of zero.
    ZeroHeight,
}

/// Width, height and image-data length that the header of `data` gives, or
/// the first fault found reading it in order.
pub open spec fn header_fields(data: Seq<u8>) -> Result<(u16, u16, u32), DecodeError> {
    if data.len() < 4 {
        Err(DecodeError::UnexpectedEnd)
    } else if data.take(4) != magic() {
        Err(DecodeError::MissingMagic)
    } else if data.len() < 8 {
        Err(DecodeError::UnexpectedEnd)
    } else if read_le16(data[4], data[5]) == 0 {
        Err(DecodeError::ZeroWidth)
    } else if read_le16(data[6], data[7]) == 0 {
        Err(DecodeError::ZeroHeight)
    } else if data.len() < 12 {
        Err(DecodeError::UnexpectedEnd)
    } else {
        Ok((read_le16(data[4], data[5]), read_le16(data[6], data[7]), read_le32(data[8], data[9], data[10], data[11])))
    }
}

/// Channel `c` plus `d`, modulo 256.
pub open spec fn add_wrap(c: u8, d: int) -> u8 {
    ((c + d) % 256) as u8
}

/// `p` with the four deltas added, each modulo 256.
pub open spec fn shifted(p: Pixel, dr: int, dg: int, db: int, da: int) -> Pixel {
    Pixel { r: add_wrap(p.r, dr), g: add_wrap(p.g, dg), b: add_wrap(p.b, db), a: add_wrap(p.a, da) }
}

/// 1 when `b` is set, else 0.
pub open spec fn bit(b: bool) -> int {
    if b { 1 } else { 0 }
}

/// The DIFF or COLOR instruction at `pos` (first byte at least 0x80) applied
/// to `prev`: the position after it and the new pixel; `None` where the
/// stream ends inside it.
pub open spec fn pixel_instr(data: Seq<u8>, pos: int, prev: Pixel) -> Option<(int, Pixel)> {
    let b1 = data[pos];
    if b1 < 0xc0 {
        Some((pos + 1, shifted(prev, (b1 / 16) % 4 - 1, (b1 / 4) % 4 - 1, b1 % 4 - 1, 0)))
    } else if b1 < 0xe0 {
        if pos + 2 > data.len() {
            None
        } else {
            let b2 = data[pos + 1];
            Some((pos + 2, shifted(prev, b1 % 32 - 15, b2 / 16 - 7, b2 % 16 - 7, 0)))
        }
    } else if b1 < 0xf0 {
        if pos + 3 > data.len() {
            None
        } else {
            let b2 = data[pos + 1];
            let b3 = data[pos + 2];
            Some(
                (
                    pos + 3,
                    shifted(
                        prev,
                        (b1 % 16) * 2 + b2 / 128 - 15,
                        (b2 % 128) / 4 - 15,
                        (b2 % 4) * 8 + b3 / 32 - 15,
                        b3 % 32 - 15,
                    ),
                ),
            )
        }
    } else {
        let (wr, wg, wb, wa) = ((b1 / 8) % 2 == 1, (b1 / 4) % 2 == 1, (b1 / 2) % 2 == 1, b1 % 2 == 1);
        let pr = pos + 1;
        let pg = pr + bit(wr);
        let pb = pg + bit(wg);
        let pa = pb + bit(wb);
        let end = pa + bit(wa);
        if end > data.len() {
            None
        } else {
            Some(
                (
                    end,
                    Pixel {
                        r: if wr { data[pr] } else { prev.r },
                        g: if wg { data[pg] } else { prev.g },
                        b: if wb { data[pb] } else { prev.b },
                        a: if wa { data[pa] } else { prev.a },
                    },
                ),
            )
        }
    }
}

/// One decoder step from position `pos` in state `s`: the position and the
/// state once the next pixel (the new state's `px`) is produced; `None`
/// where the stream ends first. A pending run is used up first; INDEX and
/// the run tags leave the cache as it is, the other tags store the new pixel
/// in it.
#[verifier::opaque]
pub open spec fn dec_step(data: Seq<u8>, pos: int, s: CodecState) -> Option<(int, CodecState)> {
    if s.run > 0 {
        Some((pos, CodecState { px: s.px, cache: s.cache, run: (s.run - 1) as nat }))
    } else if pos < 0 || pos >= data.len() {
        None
    } else {
        let b1 = data[pos];
        if b1 < 0x40 {
            Some((pos + 1, CodecState { px: s.cache[b1 as int], cache: s.cache, run: 0 }))
        } else if b1 < 0x60 {
            Some((pos + 1, CodecState { px: s.px, cache: s.cache, run: (b1 - 0x40) as nat }))
        } else if b1 < 0x80 {
            if pos + 2 > data.len() {
                None
            } else {
                Some(
                    (
                        pos + 2,
                        CodecState {
                            px: s.px,
                            cache: s.cache,
                            run: ((b1 - 0x60) * 256 + data[pos + 1] + 32) as nat,
                        },
                    ),
                )
            }
        } else {
            match pixel_instr(data, pos, s.px) {
                None => None,
                Some((end, px)) => Some(
                    (end, CodecState { px, cache: s.cache.update(slot(px), px), run: 0 }),
                ),
            }
        }
    }
}

/// Position and state after `k` pixels decoded from the start of the image
/// data of `data`.
pub open spec fn dec_after(data: Seq<u8>, k: nat) -> Option<(int, CodecState)>
    decreases k,
{
    if k == 0 {
        Some((HEADER_LEN as int, initial_state()))
    } else {
        match dec_after(data, (k - 1) as nat) {
            None => None,
            Some((pos, s)) => dec_step(data, pos, s),
        }
    }
}

/// The first `k` pixels decoded from `data`.
pub open spec fn decoded_pixels(data: Seq<u8>, k: nat) -> Seq<Pixel> {
    Seq::new(k, |j: int| dec_after(data, (j + 1) as nat).unwrap().1.px)
}

/// What decoding `data` to `c` channels gives: the flat pixels, the width and
/// the height, or the first fault.
pub open spec fn decoding(data: Seq<u8>, c: ChannelCount) -> Result<(Seq<u8>, u16, u16), DecodeError> {
    match header_fields(data) {
        Err(e) => Err(e),
        Ok((w, h, _)) => {
            let n = (w * h) as nat;
            if dec_after(data, n) is None {
                Err(DecodeError::UnexpectedEnd)
            } else {
                Ok((flatten(decoded_pixels(data, n), c.spec_size()), w, h))
            }
        },
    }
}

/// Reads the header: (width, height, image-data length).
pub fn decode_header(data: &[u8]) -> (r: Result<(u16, u16, u32), DecodeError>)
    ensures
        r == header_fields(data@),
{
    if data.len() < 4 {
        return Err(DecodeError::UnexpectedEnd);
    }
    if !(data[0] == 0x71 && data[1] == 0x6f && data[2] == 0x69 && data[3] == 0x66) {
        assert(data@.take(4) != magic()) by {
            if data@.take(4) == magic() {
                assert(data@.take(4)[0] == data@[0]);
                assert(data@.take(4)[1] == data@[1]);
                assert(data@.take(4)[2] == data@[2]);
                assert(data@.take(4)[3] == data@[3]);
            }
        }
        return Err(DecodeError::MissingMagic);
    }
    assert(data@.take(4) =~= magic());
    if data.len() < 8 {
        return Err(DecodeError::UnexpectedEnd);
    }
    let width = (data[4] as u16) + 256 * (data[5] as u16);
    let height = (data[6] as u16) + 256 * (data[7] as u16);
    if width == 0 {
        return Err(DecodeError::ZeroWidth);
    }
    if height == 0 {
        return Err(DecodeError::ZeroHeight);
    }
    if data.len() < HEADER_LEN {
        return Err(DecodeError::UnexpectedEnd);
    }
    let size = (data[8] as u32) + 256 * (data[9] as u32) + 65536 * (data[10] as u32) + 16777216 * (
    data[11] as u32);
    Ok((width, height, size))
}


fn shift(c: u8, d: i32) -> (r: u8)
    requires
        -16 < d < 17,
    ensures
        r == add_wrap(c, d as int),
{
    ((c as i32 + d + 256) % 256) as u8
}

fn shift_pixel(p: Pixel, dr: i32, dg: i32, db: i32, da: i32) -> (r: Pixel)
    requires
        -16 < dr < 17,
        -16 < dg < 17,
        -16 < db < 17,
        -16 < da < 17,
    ensures
        r == shifted(p, dr as int, dg as int, db as int, da as int),
{
    Pixel { r: shift(p.r, dr), g: shift(p.g, dg), b: shift(p.b, db), a: shift(p.a, da) }
}

/// Reads the DIFF or COLOR instruction at `pos` and applies it to `prev`.
fn read_pixel_instr(data: &[u8], pos: usize, prev: Pixel) -> (r: Option<(usize, Pixel)>)
    requires
        pos < data@.len(),
        data@[pos as int] >= 0x80,
    ensures
        match r {
            None => pixel_instr(data@, pos as int, prev) is None,
            Some((end, px)) => pixel_instr(data@, pos as int, prev) == Some((end as int, px))
                && end <= data@.len(),
        },
{
    let len = data.len();
    let b1 = data[pos];
    if b1 < 0xc0 {
        let px = shift_pixel(
            prev,
            ((b1 / 16) % 4) as i32 - 1,
            ((b1 / 4) % 4) as i32 - 1,
            (b1 % 4) as i32 - 1,
            0,
        );
        Some((pos + 1, px))
    } else if b1 < 0xe0 {
        if len - pos < 2 {
            return None;
        }
        let b2 = data[pos + 1];
        let px = shift_pixel(prev, (b1 % 32) as i32 - 15, (b2 / 16) as i32 - 7, (b2 % 16) as i32 - 7, 0);
        Some((pos + 2, px))
    } else if b1 < 0xf0 {
        if len - pos < 3 {
            return None;
        }
        let b2 = data[pos + 1];
        let b3 = data[pos + 2];
        let px = shift_pixel(
            prev,
            ((b1 % 16) * 2 + b2 / 128) as i32 - 15,
            ((b2 % 128) / 4) as i32 - 15,
            ((b2 % 4) * 8 + b3 / 32) as i32 - 15,
            (b3 % 32) as i32 - 15,
        );
        Some((pos + 3, px))
    } else {
        let mut px = prev;
        let mut at = pos + 1;
        if (b1 / 8) % 2 == 1 {
            if at >= len {
                return None;
            }
            px.r = data[at];
            at += 1;
        }
        if (b1 / 4) % 2 == 1 {
            if at >= len {
                return None;
            }
            px.g = data[at];
            at += 1;
        }
        if (b1 / 2) % 2 == 1 {
            if at >= len {
                return None;
            }
            px.b = data[at];
            at += 1;
        }
        if b1 % 2 == 1 {
            if at >= len {
                return None;
            }
            px.a = data[at];
            at += 1;
        }
        Some((at, px))
    }
}

/// Produces the next pixel: uses up the pending run, or reads and applies the
/// instruction at `pos`. Returns false where the stream ends first.
fn decode_pixel(
    data: &[u8],
    pos: &mut usize,
    px: &mut Pixel,
    cache: &mut Vec<Pixel>,
    run: &mut u32,
) -> (ok: bool)
    requires
        *old(pos) <= data@.len(),
        old(cache)@.len() == CACHE_SIZE,
        *old(run) < 0x2020,
    ensures
        ok == dec_step(
            data@,
            *old(pos) as int,
            CodecState { px: *old(px), cache: old(cache)@, run: *old(run) as nat },
        ) is Some,
        ok ==> dec_step(
            data@,
            *old(pos) as int,
            CodecState { px: *old(px), cache: old(cache)@, run: *old(run) as nat },
        ) == Some((*final(pos) as int, CodecState { px: *final(px), cache: final(cache)@, run: *final(run) as nat })),
        *final(pos) <= data@.len(),
        final(cache)@.len() == CACHE_SIZE,
        *final(run) < 0x2020,
{
    reveal(dec_step);
    if *run > 0 {
        *run -= 1;
        return true;
    }
    if *pos >= data.len() {
        return false;
    }
    let b1 = data[*pos];
    if b1 < 0x40 {
        *px = cache[b1 as usize];
        *pos += 1;
    } else if b1 < 0x60 {
        *run = (b1 - 0x40) as u32;
        *pos += 1;
    } else if b1 < 0x80 {
        if data.len() - *pos < 2 {
            return false;
        }
        *run = (b1 - 0x60) as u32 * 256 + data[*pos + 1] as u32 + 32;
        *pos += 2;
    } else {
        match read_pixel_instr(data, *pos, *px) {
            None => {
                return false;
            },
            Some((end, p)) => {
                *pos = end;
                *px = p;
                let index_pos = (color_hash(p) % 64) as usize;
                cache.set(index_pos, p);
            },
        }
    }
    true
}

proof fn lemma_dec_after_stuck(data: Seq<u8>, k: nat, m: nat)
    requires
        k <= m,
        dec_after(data, k) is None,
    ensures
        dec_after(data, m) is None,
    decreases m - k,
{
    if k < m {
        lemma_dec_after_stuck(data, k, (m - 1) as nat);
    }
}

/// Decodes a complete stream into a flat buffer of `channels` channels, with
/// the width and height of the image.
pub fn decode(data: &[u8], channels: ChannelCount) -> (r: Result<(Vec<u8>, u16, u16), DecodeError>)
    ensures
        match r {
            Ok((out, w, h)) => decoding(data@, channels) == Ok::<_, DecodeError>((out@, w, h)),
            Err(e) => decoding(data@, channels) == Err::<(Seq<u8>, u16, u16), _>(e),
        },
{
    let (width, height) = match decode_header(data) {
        Err(e) => {
            return Err(e);
        },
        Ok((w, h, _)) => (w, h),
    };
    let ghost size = header_fields(data@)->Ok_0.2;
    assert(width * height <= 0xfffe0001) by (nonlinear_arith)
        requires
            width <= 0xffff,
            height <= 0xffff,
    ;
    let total_pixels = width as usize * height as usize;
    let ghost n = (width * height) as nat;
    assert(total_pixels == n) by (nonlinear_arith)
        requires
            total_pixels == width as usize * height as usize,
            n == (width * height) as nat,
            width <= 0xffff,
            height <= 0xffff,
    ;
    let mut pos: usize = HEADER_LEN;
    let mut px = Pixel { r: 0, g: 0, b: 0, a: 255 };
    let mut cache = new_cache();
    let mut run: u32 = 0;
    let mut out: Vec<u8> = Vec::new();
    let ghost mut emitted: Seq<Pixel> = Seq::empty();
    let mut i: usize = 0;
    assert(emitted =~= decoded_pixels(data@, 0));
    while i < total_pixels
        invariant
            total_pixels == n,
            n == (width * height) as nat,
            header_fields(data@) == Ok::<_, DecodeError>((width, height, size)),
            i <= total_pixels,
            pos <= data@.len(),
            cache@.len() == CACHE_SIZE,
            run < 0x2020,
            dec_after(data@, i as nat) == Some(
                (pos as int, CodecState { px, cache: cache@, run: run as nat }),
            ),
            emitted == decoded_pixels(data@, i as nat),
            out@ == flatten(emitted, channels.spec_size()),
        decreases total_pixels - i,
    {
        if !decode_pixel(data, &mut pos, &mut px, &mut cache, &mut run) {
            proof {
                assert(dec_after(data@, (i + 1) as nat) is None);
                lemma_dec_after_stuck(data@, (i + 1) as nat, n);
                assert(header_fields(data@) is Ok);
            }
            return Err(DecodeError::UnexpectedEnd);
        }
        match channels {
            ChannelCount::Rgba => {
                out.push(px.r);
                out.push(px.g);
                out.push(px.b);
                out.push(px.a);
            },
            ChannelCount::Rgb => {
                out.push(px.r);
                out.push(px.g);
                out.push(px.b);
            },
        }
        proof {
            let e2 = emitted.push(px);
            assert(e2.drop_last() =~= emitted);
            assert(out@ =~= flatten(e2, channels.spec_size()));
            emitted = e2;
        }
        i += 1;
        assert(emitted =~= decoded_pixels(data@, i as nat));
    }
    Ok((out, width, height))
}

} // verus!
