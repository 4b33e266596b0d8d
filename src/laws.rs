//! Laws of the codec: decoding an encoded image gives it back, the encoder
//! and decoder keep the same predictor state, and the shape of the stream.
use vstd::prelude::*;
use crate::codec::{CACHE_SIZE, CodecState, MAX_RUN_LENGTH};
use crate::header::{HEADER_LEN, header_bytes, le16, le32, magic, read_le16, read_le32};
use crate::decoder::{DecodeError, add_wrap, dec_after, dec_step, decoded_pixels, decoding, header_fields, pixel_instr};
use crate::encoder::{color_bytes, diff_bytes, enc_prefix, enc_step, encoded, image_data, run_bytes, valid_dims};
use crate::pixel::{ChannelCount, Pixel, flatten, lemma_flatten_pixels_of, opaque_black, pixels_of, slot};

verus! {

/// The pixel before pixel `j`: pixel `j - 1`, or opaque black before the first.
pub open spec fn before(ps: Seq<Pixel>, j: int) -> Pixel {
    if j <= 0 {
        opaque_black()
    } else {
        ps[j - 1]
    }
}

/// `b` stands in `data` from position `pos` on.
pub open spec fn holds_at(data: Seq<u8>, pos: int, b: Seq<u8>) -> bool {
    0 <= pos && pos + b.len() <= data.len() && data.subrange(pos, pos + b.len()) == b
}

/// What the encoder's state after `n` pixels says of the pixels: its last
/// pixel is pixel `n - 1`, and the pending run repeats it.
pub open spec fn enc_inv(ps: Seq<Pixel>, n: nat, s: CodecState) -> bool {
    &&& s.run <= n
    &&& s.run < MAX_RUN_LENGTH
    &&& s.cache.len() == CACHE_SIZE
    &&& forall|j: int| n - s.run <= j <= n ==> #[trigger] before(ps, j) == s.px
}

proof fn lemma_enc_inv(ps: Seq<Pixel>, n: nat)
    requires
        n <= ps.len(),
    ensures
        enc_inv(ps, n, enc_prefix(ps, n).0),
        n == ps.len() && n > 0 ==> enc_prefix(ps, n).0.run == 0,
    decreases n,
{
    reveal(enc_step);
    if n > 0 {
        lemma_enc_inv(ps, (n - 1) as nat);
        let s = enc_prefix(ps, (n - 1) as nat).0;
        let s2 = enc_prefix(ps, n).0;
        assert forall|j: int| n - s2.run <= j <= n implies #[trigger] before(ps, j) == s2.px by {
            if j < n {
                assert(before(ps, j) == s.px);
            }
        }
    }
}

proof fn lemma_enc_prefix_grows(ps: Seq<Pixel>, n: nat, m: nat)
    requires
        n <= m <= ps.len(),
    ensures
        enc_prefix(ps, n).1.len() <= enc_prefix(ps, m).1.len(),
        enc_prefix(ps, m).1.take(enc_prefix(ps, n).1.len() as int) == enc_prefix(ps, n).1,
    decreases m - n,
{
    if n < m {
        lemma_enc_prefix_grows(ps, n, (m - 1) as nat);
        let b = enc_prefix(ps, n).1;
        let bm1 = enc_prefix(ps, (m - 1) as nat).1;
        let bm = enc_prefix(ps, m).1;
        assert(bm.take(b.len() as int) =~= bm1.take(b.len() as int));
    } else {
        assert(enc_prefix(ps, m).1.take(enc_prefix(ps, n).1.len() as int) =~= enc_prefix(ps, n).1);
    }
}

/// Decoding a run instruction for `r` pixels, then `t - 1` more pixels,
/// leaves the pixel and cache alone and `r - t` pixels of the run pending.
proof fn lemma_run_expands(data: Seq<u8>, k: nat, pos: int, s: CodecState, r: nat, t: nat)
    requires
        dec_after(data, k) == Some((pos, s)),
        s.run == 0,
        1 <= r <= MAX_RUN_LENGTH,
        holds_at(data, pos, run_bytes(r)),
        1 <= t <= r,
    ensures
        dec_after(data, k + t) == Some(
            (pos + run_bytes(r).len(), CodecState { px: s.px, cache: s.cache, run: (r - t) as nat }),
        ),
    decreases t,
{
    reveal(dec_step);
    if t == 1 {
        let rb = run_bytes(r);
        assert(data[pos] == rb[0]);
        if r >= 33 {
            assert(data[pos + 1] == rb[1]);
        }
        assert(dec_after(data, k + 1) == dec_step(data, pos, s));
    } else {
        lemma_run_expands(data, k, pos, s, r, (t - 1) as nat);
        assert(dec_after(data, k + t) == dec_step(
            data,
            pos + run_bytes(r).len(),
            CodecState { px: s.px, cache: s.cache, run: (r - (t - 1)) as nat },
        ));
    }
}


proof fn lemma_wrap_back(c: u8, x: u8)
    ensures
        add_wrap(c, x - c) == x,
{
}

proof fn lemma_diff8_fields(dr: int, dg: int, db: int)
    requires
        -2 < dr < 3,
        -2 < dg < 3,
        -2 < db < 3,
    ensures
        ({
            let b1 = 0x80 + (dr + 1) * 16 + (dg + 1) * 4 + (db + 1);
            &&& 0x80 <= b1 < 0xc0
            &&& (b1 / 16) % 4 - 1 == dr
            &&& (b1 / 4) % 4 - 1 == dg
            &&& b1 % 4 - 1 == db
        }),
{
}

proof fn lemma_diff16_fields(dr: int, dg: int, db: int)
    requires
        -16 < dr < 17,
        -8 < dg < 9,
        -8 < db < 9,
    ensures
        ({
            let b1 = 0xc0 + dr + 15;
            let b2 = (dg + 7) * 16 + db + 7;
            &&& 0xc0 <= b1 < 0xe0
            &&& 0 <= b2 < 256
            &&& b1 % 32 - 15 == dr
            &&& b2 / 16 - 7 == dg
            &&& b2 % 16 - 7 == db
        }),
{
}

proof fn lemma_diff24_fields(dr: int, dg: int, db: int, da: int)
    requires
        -16 < dr < 17,
        -16 < dg < 17,
        -16 < db < 17,
        -16 < da < 17,
    ensures
        ({
            let (r, g, b, a) = (dr + 15, dg + 15, db + 15, da + 15);
            let b1 = 0xe0 + r / 2;
            let b2 = (r % 2) * 128 + g * 4 + b / 8;
            let b3 = (b % 8) * 32 + a;
            &&& 0xe0 <= b1 < 0xf0
            &&& 0 <= b2 < 256
            &&& 0 <= b3 < 256
            &&& (b1 % 16) * 2 + b2 / 128 - 15 == dr
            &&& (b2 % 128) / 4 - 15 == dg
            &&& (b2 % 4) * 8 + b3 / 32 - 15 == db
            &&& b3 % 32 - 15 == da
        }),
{
}

proof fn lemma_diff_decodes(data: Seq<u8>, pos: int, prev: Pixel, px: Pixel)
    requires
        px != prev,
        holds_at(data, pos, diff_bytes(px, prev)),
    ensures
        data[pos] >= 0x80,
        pixel_instr(data, pos, prev) == Some((pos + diff_bytes(px, prev).len(), px)),
{
    let b = diff_bytes(px, prev);
    let dr = px.r - prev.r;
    let dg = px.g - prev.g;
    let db = px.b - prev.b;
    let da = px.a - prev.a;
    lemma_wrap_back(prev.r, px.r);
    lemma_wrap_back(prev.g, px.g);
    lemma_wrap_back(prev.b, px.b);
    lemma_wrap_back(prev.a, px.a);
    assert(data[pos] == b[0]);
    if -16 < dr < 17 && -16 < dg < 17 && -16 < db < 17 && -16 < da < 17 {
        if da == 0 && -2 < dr < 3 && -2 < dg < 3 && -2 < db < 3 {
            lemma_diff8_fields(dr, dg, db);
        } else if da == 0 && -8 < dg < 9 && -8 < db < 9 {
            lemma_diff16_fields(dr, dg, db);
            assert(data[pos + 1] == b[1]);
        } else {
            lemma_diff24_fields(dr, dg, db, da);
            assert(data[pos + 1] == b[1]);
            assert(data[pos + 2] == b[2]);
        }
    } else {
        lemma_color_decodes(data, pos, prev, px);
    }
}

proof fn lemma_color_tag(wr: bool, wg: bool, wb: bool, wa: bool)
    ensures
        ({
            let b1 = 0xf0 + (if wr { 8int } else { 0 }) + (if wg { 4int } else { 0 }) + (if wb {
                2int
            } else {
                0
            }) + (if wa { 1int } else { 0 });
            &&& 0xf0 <= b1 < 0x100
            &&& ((b1 / 8) % 2 == 1 <==> wr)
            &&& ((b1 / 4) % 2 == 1 <==> wg)
            &&& ((b1 / 2) % 2 == 1 <==> wb)
            &&& (b1 % 2 == 1 <==> wa)
        }),
{
}

proof fn lemma_color_decodes(data: Seq<u8>, pos: int, prev: Pixel, px: Pixel)
    requires
        holds_at(
            data,
            pos,
            color_bytes(
                px,
                px.r != prev.r,
                px.g != prev.g,
                px.b != prev.b,
                px.a != prev.a,
            ),
        ),
    ensures
        data[pos] >= 0xf0,
        pixel_instr(data, pos, prev) == Some(
            (
                pos + color_bytes(
                    px,
                    px.r != prev.r,
                    px.g != prev.g,
                    px.b != prev.b,
                    px.a != prev.a,
                ).len(),
                px,
            ),
        ),
{
    let (wr, wg, wb, wa) = (px.r != prev.r, px.g != prev.g, px.b != prev.b, px.a != prev.a);
    let b = color_bytes(px, wr, wg, wb, wa);
    let b1 = data[pos];
    assert(b1 == b[0]);
    lemma_color_tag(wr, wg, wb, wa);
    let bit = |x: bool| if x { 1int } else { 0int };
    let pr = pos + 1;
    let pg = pr + bit(wr);
    let pb = pg + bit(wg);
    let pa = pb + bit(wb);
    assert(b.len() == 1 + bit(wr) + bit(wg) + bit(wb) + bit(wa));
    if wr {
        assert(data[pr] == b[1]);
    }
    if wg {
        assert(data[pg] == b[pg - pos]);
    }
    if wb {
        assert(data[pb] == b[pb - pos]);
    }
    if wa {
        assert(data[pa] == b[pa - pos]);
    }
}


/// Pixel `j` as decoded from `data`, if the stream reaches it.
pub open spec fn decoded_at(data: Seq<u8>, j: int) -> Option<Pixel> {
    match dec_after(data, (j + 1) as nat) {
        Some((_, s)) => Some(s.px),
        None => None,
    }
}

/// After the encoder has taken `n` pixels of `ps` and emitted its output into
/// `data`, a decoder reading `data` has produced every pixel that output
/// stands for, correctly, and stands right after that output with the
/// encoder's last pixel and cache and no run of its own.
pub open spec fn coherent(data: Seq<u8>, ps: Seq<Pixel>, n: nat) -> bool {
    let (s, b) = enc_prefix(ps, n);
    let k = n - s.run;
    &&& dec_after(data, k as nat) == Some(
        (HEADER_LEN + b.len(), CodecState { px: s.px, cache: s.cache, run: 0 }),
    )
    &&& forall|j: int| 0 <= j < k ==> #[trigger] decoded_at(data, j) == Some(ps[j])
}

proof fn lemma_holds_inner(data: Seq<u8>, pos: int, big: Seq<u8>, i: int, small: Seq<u8>)
    requires
        holds_at(data, pos, big),
        0 <= i,
        i + small.len() <= big.len(),
        big.subrange(i, i + small.len()) == small,
    ensures
        holds_at(data, pos + i, small),
{
    assert(data.subrange(pos + i, pos + i + small.len()) =~= small) by {
        assert forall|t: int| 0 <= t < small.len() implies data[pos + i + t] == small[t] by {
            assert(data.subrange(pos, pos + big.len())[i + t] == big[i + t]);
            assert(big.subrange(i, i + small.len())[t] == big[i + t]);
        }
    }
}

/// Flushing a run of `r` pixels: the decoder produces them all.
proof fn lemma_flush_decodes(data: Seq<u8>, ps: Seq<Pixel>, k: nat, pos: int, s: CodecState, r: nat)
    requires
        dec_after(data, k) == Some((pos, CodecState { px: s.px, cache: s.cache, run: 0 })),
        1 <= r <= MAX_RUN_LENGTH,
        holds_at(data, pos, run_bytes(r)),
        k + r <= ps.len(),
        forall|j: int| k <= j < k + r ==> ps[j] == s.px,
    ensures
        dec_after(data, k + r) == Some(
            (pos + run_bytes(r).len(), CodecState { px: s.px, cache: s.cache, run: 0 }),
        ),
        forall|j: int| k <= j < k + r ==> #[trigger] decoded_at(data, j) == Some(ps[j]),
{
    let s0 = CodecState { px: s.px, cache: s.cache, run: 0 };
    lemma_run_expands(data, k, pos, s0, r, r);
    assert forall|j: int| k <= j < k + r implies #[trigger] decoded_at(data, j) == Some(ps[j]) by {
        lemma_run_expands(data, k, pos, s0, r, (j - k + 1) as nat);
        assert((k + (j - k + 1) as nat) as nat == (j + 1) as nat);
    }
}

/// The instruction the encoder emits for a new pixel `px` from state `s`.
pub open spec fn pixel_bytes(s: CodecState, px: Pixel) -> Seq<u8> {
    if s.cache[slot(px)] == px {
        seq![slot(px) as u8]
    } else {
        diff_bytes(px, s.px)
    }
}

/// The cache once the encoder has taken the new pixel `px` in state `s`.
pub open spec fn cache_after(s: CodecState, px: Pixel) -> Seq<Pixel> {
    if s.cache[slot(px)] == px {
        s.cache
    } else {
        s.cache.update(slot(px), px)
    }
}

/// The instruction for a new pixel: the decoder produces it and stores it as
/// the encoder did.
proof fn lemma_pixel_decodes(data: Seq<u8>, k: nat, pos: int, s: CodecState, px: Pixel)
    requires
        dec_after(data, k) == Some((pos, CodecState { px: s.px, cache: s.cache, run: 0 })),
        s.cache.len() == CACHE_SIZE,
        px != s.px,
        holds_at(data, pos, pixel_bytes(s, px)),
    ensures
        dec_after(data, k + 1) == Some(
            (pos + pixel_bytes(s, px).len(), CodecState { px, cache: cache_after(s, px), run: 0 }),
        ),
{
    reveal(dec_step);
    let s0 = CodecState { px: s.px, cache: s.cache, run: 0 };
    assert(dec_after(data, k + 1) == dec_step(data, pos, s0));
    let b = pixel_bytes(s, px);
    assert(data[pos] == b[0]);
    if s.cache[slot(px)] == px {
        assert(slot(px) < 64);
    } else {
        lemma_diff_decodes(data, pos, s.px, px);
    }
}

/// One more pixel keeps the decoder in step with the encoder.
proof fn lemma_coherent_step(data: Seq<u8>, ps: Seq<Pixel>, n: nat)
    requires
        n < ps.len(),
        coherent(data, ps, n),
        holds_at(data, HEADER_LEN as int, enc_prefix(ps, ps.len()).1),
    ensures
        coherent(data, ps, n + 1),
{
    reveal(enc_step);
    let (s, b) = enc_prefix(ps, n);
    let (s2, b2) = enc_prefix(ps, n + 1);
    let px = ps[n as int];
    let last = n + 1 == ps.len();
    let more = enc_step(s, px, last).1;
    assert(b2 == b + more);
    lemma_enc_inv(ps, n);
    lemma_enc_prefix_grows(ps, n + 1, ps.len());
    let big = enc_prefix(ps, ps.len()).1;
    let pos = HEADER_LEN + b.len();
    assert(big.subrange(b.len() as int, (b.len() + more.len()) as int) =~= more) by {
        assert(big.take(b2.len() as int) == b2);
        assert forall|t: int| 0 <= t < more.len() implies big[b.len() + t] == more[t] by {
            assert(big.take(b2.len() as int)[b.len() + t] == b2[b.len() + t]);
        }
    }
    lemma_holds_inner(data, HEADER_LEN as int, big, b.len() as int, more);
    let same = px == s.px;
    let run = if same { s.run + 1 } else { s.run };
    let flush = run > 0 && (run == MAX_RUN_LENGTH || !same || last);
    let k = (n - s.run) as nat;
    if !flush && same {
        assert(more =~= Seq::<u8>::empty());
        assert(b2 =~= b);
    } else {
        let flushed = if flush { run_bytes(run) } else { Seq::empty() };
        let pos2 = pos + flushed.len();
        let k2 = (k + run) as nat;
        assert(dec_after(data, k2) == Some(
            (pos2, CodecState { px: s.px, cache: s.cache, run: 0 }),
        ) && forall|j: int| 0 <= j < k2 ==> #[trigger] decoded_at(data, j) == Some(ps[j])) by {
            if flush {
                assert(more.subrange(0, flushed.len() as int) =~= flushed);
                lemma_holds_inner(data, pos, more, 0, flushed);
                assert forall|j: int| k <= j < k + run implies ps[j] == s.px by {
                    assert(before(ps, j + 1) == s.px);
                }
                lemma_flush_decodes(data, ps, k, pos, s, run);
            }
        }
        if !same {
            let pb = pixel_bytes(s, px);
            assert(more =~= flushed + pb);
            assert(more.subrange(flushed.len() as int, more.len() as int) =~= pb);
            lemma_holds_inner(data, pos, more, flushed.len() as int, pb);
            lemma_pixel_decodes(data, k2, pos2, s, px);
            assert(k2 == n);
            assert(decoded_at(data, n as int) == Some(ps[n as int]));
        }
    }
}


/// Cache coherence: wherever the output of the encoder's first `n` pixels
/// stands in a stream, after the header, a decoder of that stream has, on
/// reaching the end of that output, produced exactly the pixels it covers
/// and holds the same last pixel and the same cache as the encoder; the
/// encoder's pending run is what the decoder has still to produce.
pub proof fn lemma_cache_coherence(data: Seq<u8>, ps: Seq<Pixel>, n: nat)
    requires
        n <= ps.len(),
        holds_at(data, HEADER_LEN as int, enc_prefix(ps, ps.len()).1),
    ensures
        coherent(data, ps, n),
    decreases n,
{
    if n > 0 {
        lemma_cache_coherence(data, ps, (n - 1) as nat);
        lemma_coherent_step(data, ps, (n - 1) as nat);
    }
}

proof fn lemma_le16(v: u16)
    ensures
        read_le16(le16(v)[0], le16(v)[1]) == v,
{
}

proof fn lemma_le32(v: u32)
    ensures
        read_le32(le32(v)[0], le32(v)[1], le32(v)[2], le32(v)[3]) == v,
{
}

/// Header: every stream the encoder writes begins with `qoif`, then the
/// width and the height as 16-bit little-endian values, then the length of
/// the rest of the stream (modulo 2^32) as a 32-bit little-endian value.
pub proof fn lemma_header(data: Seq<u8>, width: nat, c: ChannelCount)
    requires
        valid_dims(data.len(), width, c),
    ensures
        ({
            let e = encoded(data, width, c);
            &&& e.len() >= HEADER_LEN + 4
            &&& e.take(4) == magic()
            &&& read_le16(e[4], e[5]) == width
            &&& read_le16(e[6], e[7]) == data.len() / (width * c.spec_size())
            &&& read_le32(e[8], e[9], e[10], e[11]) == (e.len() - HEADER_LEN) % 0x1_0000_0000
        }),
{
    let e = encoded(data, width, c);
    let body = image_data(pixels_of(data, c.spec_size()));
    let h = (data.len() / (width * c.spec_size())) as u16;
    let hd = header_bytes(width as u16, h, (body.len() % 0x1_0000_0000) as u32);
    assert(e == hd + body);
    assert(e.take(4) =~= magic());
    assert(e[4] == le16(width as u16)[0] && e[5] == le16(width as u16)[1]);
    assert(e[6] == le16(h)[0] && e[7] == le16(h)[1]);
    let sz = (body.len() % 0x1_0000_0000) as u32;
    assert(e[8] == le32(sz)[0] && e[9] == le32(sz)[1] && e[10] == le32(sz)[2] && e[11] == le32(sz)[3]);
    lemma_le16(width as u16);
    lemma_le16(h);
    lemma_le32(sz);
    assert(e.len() >= HEADER_LEN + 4);
    assert(read_le16(e[4], e[5]) == width);
    assert(read_le16(e[6], e[7]) == data.len() / (width * c.spec_size()));
    assert(e.len() - HEADER_LEN == body.len());
}

/// Padding: every stream the encoder writes ends in four zero bytes.
pub proof fn lemma_padding(data: Seq<u8>, width: nat, c: ChannelCount)
    requires
        valid_dims(data.len(), width, c),
    ensures
        ({
            let e = encoded(data, width, c);
            e.len() >= 4 && e.skip(e.len() - 4) == seq![0u8, 0u8, 0u8, 0u8]
        }),
{
    let e = encoded(data, width, c);
    assert(e.skip(e.len() - 4) =~= seq![0u8, 0u8, 0u8, 0u8]);
}

/// Round trip: decoding what the encoder writes for a non-empty buffer, at
/// the same channel count, gives back the buffer, its width and its height.
pub proof fn lemma_round_trip(data: Seq<u8>, width: nat, c: ChannelCount)
    requires
        valid_dims(data.len(), width, c),
        data.len() > 0,
    ensures
        decoding(encoded(data, width, c), c) == Ok::<_, DecodeError>(
            (data, width as u16, (data.len() / (width * c.spec_size())) as u16),
        ),
{
    let cs = c.spec_size();
    let ps = pixels_of(data, cs);
    let e = encoded(data, width, c);
    let body = image_data(ps);
    let instrs = enc_prefix(ps, ps.len()).1;
    let hnat = data.len() / (width * cs);
    lemma_header(data, width, c);
    assert(hnat >= 1 && width * hnat == ps.len()) by (nonlinear_arith)
        requires
            data.len() > 0,
            width > 0,
            cs == 3 || cs == 4,
            data.len() % (width * cs) == 0,
            hnat == data.len() / (width * cs),
            ps.len() == data.len() / cs,
    {
        assert(data.len() == (width * cs) * hnat);
        assert(data.len() == cs * (width * hnat));
    }
    assert(header_fields(e) == Ok::<_, DecodeError>(
        (width as u16, hnat as u16, (body.len() % 0x1_0000_0000) as u32),
    ));
    let n = ps.len();
    assert(holds_at(e, HEADER_LEN as int, instrs)) by {
        assert(e.subrange(HEADER_LEN as int, HEADER_LEN + instrs.len()) =~= instrs);
    }
    lemma_cache_coherence(e, ps, n);
    lemma_enc_inv(ps, n);
    assert(dec_after(e, n) is Some);
    assert(decoded_pixels(e, n) =~= ps) by {
        assert forall|j: int| 0 <= j < n implies #[trigger] decoded_pixels(e, n)[j] == ps[j] by {
            assert(decoded_at(e, j) == Some(ps[j]));
        }
    }
    lemma_flatten_pixels_of(data, cs);
}


/// Number of channels of `px` that differ from `prev`.
pub open spec fn changed_channels(px: Pixel, prev: Pixel) -> int {
    (if px.r != prev.r { 1int } else { 0 }) + (if px.g != prev.g { 1int } else { 0 }) + (if px.b
        != prev.b { 1int } else { 0 }) + (if px.a != prev.a { 1int } else { 0 })
}

/// Tag choice: for a pixel that differs from the last one, the encoder emits
/// INDEX when the cache holds it; else DIFF_8 when the alpha is unchanged and
/// R, G, B each change by -1 to 2; else DIFF_16 when the alpha is unchanged,
/// R changes by -15 to 16 and G, B by -7 to 8; else DIFF_24 when every
/// channel changes by -15 to 16; else COLOR with one byte per changed
/// channel. Each is told by its tag and its length.
pub proof fn lemma_tag_choice(s: CodecState, px: Pixel)
    requires
        px != s.px,
        s.cache.len() == CACHE_SIZE,
    ensures
        ({
            let b = pixel_bytes(s, px);
            let (dr, dg, db, da) = (px.r - s.px.r, px.g - s.px.g, px.b - s.px.b, px.a - s.px.a);
            if s.cache[slot(px)] == px {
                b.len() == 1 && b[0] < 0x40
            } else if da == 0 && -2 < dr < 3 && -2 < dg < 3 && -2 < db < 3 {
                b.len() == 1 && 0x80 <= b[0] < 0xc0
            } else if da == 0 && -16 < dr < 17 && -8 < dg < 9 && -8 < db < 9 {
                b.len() == 2 && 0xc0 <= b[0] < 0xe0
            } else if -16 < dr < 17 && -16 < dg < 17 && -16 < db < 17 && -16 < da < 17 {
                b.len() == 3 && 0xe0 <= b[0] < 0xf0
            } else {
                b.len() == 1 + changed_channels(px, s.px) && 0xf0 <= b[0]
            }
        }),
{
    let (dr, dg, db, da) = (px.r - s.px.r, px.g - s.px.g, px.b - s.px.b, px.a - s.px.a);
    if s.cache[slot(px)] == px {
        assert(slot(px) < 64);
    } else if da == 0 && -2 < dr < 3 && -2 < dg < 3 && -2 < db < 3 {
        lemma_diff8_fields(dr, dg, db);
    } else if da == 0 && -16 < dr < 17 && -8 < dg < 9 && -8 < db < 9 {
        lemma_diff16_fields(dr, dg, db);
    } else if -16 < dr < 17 && -16 < dg < 17 && -16 < db < 17 && -16 < da < 17 {
        lemma_diff24_fields(dr, dg, db, da);
    } else {
        let b = diff_bytes(px, s.px);
        assert(b.len() == 1 + changed_channels(px, s.px));
    }
}

/// Run lengths: a run of 1 to 32 pixels takes one RUN_8 byte, a run of 33
/// to 0x2020 pixels two bytes under RUN_16; at the edges, 32 pixels give
/// `5f`, 33 pixels `60 00` and 0x2020 pixels `7f ff`.
pub proof fn lemma_run_boundary(n: nat)
    requires
        1 <= n <= MAX_RUN_LENGTH,
    ensures
        n <= 32 ==> run_bytes(n).len() == 1 && 0x40 <= run_bytes(n)[0] < 0x60,
        n >= 33 ==> run_bytes(n).len() == 2 && 0x60 <= run_bytes(n)[0] < 0x80,
        run_bytes(32) == seq![0x5fu8],
        run_bytes(33) == seq![0x60u8, 0x00u8],
        run_bytes(0x2020) == seq![0x7fu8, 0xffu8],
{
    assert(run_bytes(32) =~= seq![0x5fu8]);
    assert(run_bytes(33) =~= seq![0x60u8, 0x00u8]);
    assert(run_bytes(0x2020) =~= seq![0x7fu8, 0xffu8]);
}

} // verus!
