use qoi_rs::{decode, dims_valid, encode, verify_and_calculate_dims, ChannelCount, DecodeError};

fn stream(width: u16, height: u16, body: &[u8]) -> Vec<u8> {
    let mut out = vec![0x71, 0x6f, 0x69, 0x66];
    out.extend_from_slice(&width.to_le_bytes());
    out.extend_from_slice(&height.to_le_bytes());
    let size = (body.len() + 4) as u32;
    out.extend_from_slice(&size.to_le_bytes());
    out.extend_from_slice(body);
    out.extend_from_slice(&[0, 0, 0, 0]);
    out
}

fn solid(n: usize, px: [u8; 4]) -> Vec<u8> {
    let mut data = Vec::new();
    for _ in 0..n {
        data.extend_from_slice(&px);
    }
    data
}

fn round_trip(data: &[u8], width: usize, channels: ChannelCount) {
    let c = channels.size();
    let enc = encode(data, width, channels);
    let (out, w, h) = decode(&enc, channels).unwrap();
    assert_eq!(out, data);
    assert_eq!(w as usize, width);
    assert_eq!(h as usize, data.len() / (width * c));
}

#[test]
fn single_black_rgba_pixel() {
    let enc = encode(&[0, 0, 0, 255], 1, ChannelCount::Rgba);
    assert_eq!(
        enc,
        vec![0x71, 0x6f, 0x69, 0x66, 1, 0, 1, 0, 5, 0, 0, 0, 0x40, 0, 0, 0, 0]
    );
    round_trip(&[0, 0, 0, 255], 1, ChannelCount::Rgba);
}

#[test]
fn two_identical_rgba_pixels() {
    let data = solid(2, [0, 0, 0, 255]);
    let enc = encode(&data, 2, ChannelCount::Rgba);
    assert_eq!(enc, stream(2, 1, &[0x41]));
    assert_eq!(&enc[8..12], &[5, 0, 0, 0]);
    round_trip(&data, 2, ChannelCount::Rgba);
}

#[test]
fn two_distinct_rgb_pixels() {
    let data = [10, 20, 30, 10, 20, 31];
    let enc = encode(&data, 2, ChannelCount::Rgb);
    // (10, 20, 30) from opaque black is too far for any DIFF tag: COLOR with
    // R, G, B; then +1 on blue is DIFF_8.
    assert_eq!(enc, stream(2, 1, &[0xfe, 10, 20, 30, 0x96]));
    round_trip(&data, 2, ChannelCount::Rgb);
}

#[test]
fn run_of_33_pixels() {
    let data = solid(33, [0, 0, 0, 255]);
    let enc = encode(&data, 33, ChannelCount::Rgba);
    assert_eq!(enc, stream(33, 1, &[0x60, 0x00]));
    assert_eq!(&enc[8..12], &[6, 0, 0, 0]);
    round_trip(&data, 33, ChannelCount::Rgba);
}

#[test]
fn run_of_32_pixels() {
    let data = solid(32, [0, 0, 0, 255]);
    assert_eq!(encode(&data, 32, ChannelCount::Rgba), stream(32, 1, &[0x5f]));
    round_trip(&data, 32, ChannelCount::Rgba);
}

#[test]
fn run_of_longest_length() {
    let data = solid(0x2020, [0, 0, 0, 255]);
    assert_eq!(encode(&data, 0x2020, ChannelCount::Rgba), stream(0x2020, 1, &[0x7f, 0xff]));
    round_trip(&data, 0x2020, ChannelCount::Rgba);
}

#[test]
fn run_past_longest_length_splits() {
    let data = solid(0x2021, [0, 0, 0, 255]);
    assert_eq!(
        encode(&data, 0x2021, ChannelCount::Rgba),
        stream(0x2021, 1, &[0x7f, 0xff, 0x40])
    );
    round_trip(&data, 0x2021, ChannelCount::Rgba);
}

#[test]
fn cache_hit_gives_index() {
    let data = [1, 2, 3, 255, 9, 9, 9, 255, 1, 2, 3, 255];
    let enc = encode(&data, 3, ChannelCount::Rgba);
    // DIFF_16 (+1, +2, +3), DIFF_16 (+8, +7, +6), INDEX 63.
    assert_eq!(enc, stream(3, 1, &[0xd0, 0x9a, 0xd7, 0xed, 0x3f]));
    round_trip(&data, 3, ChannelCount::Rgba);
}

#[test]
fn alpha_only_change() {
    let data = [10, 20, 30, 255, 10, 20, 30, 100];
    let enc = encode(&data, 2, ChannelCount::Rgba);
    assert_eq!(enc, stream(2, 1, &[0xfe, 10, 20, 30, 0xf1, 0x64]));
    round_trip(&data, 2, ChannelCount::Rgba);
}

#[test]
fn diff_24_packing() {
    // (+10, +5, +16, -15) from opaque black: DIFF_24 with biased 25, 20, 31, 0.
    let data = [10, 5, 16, 240];
    let enc = encode(&data, 1, ChannelCount::Rgba);
    assert_eq!(enc, stream(1, 1, &[0xec, 0xd3, 0xe0]));
    round_trip(&data, 1, ChannelCount::Rgba);
}

#[test]
fn final_run_is_flushed_for_rgba() {
    // Three opaque black RGBA pixels: the run covers the true last pixel.
    let data = solid(3, [0, 0, 0, 255]);
    assert_eq!(encode(&data, 3, ChannelCount::Rgba), stream(3, 1, &[0x42]));
    round_trip(&data, 3, ChannelCount::Rgba);
}

#[test]
fn run_then_new_pixel_then_run() {
    let mut data = solid(4, [0, 0, 0, 255]);
    data.extend(solid(3, [1, 1, 1, 255]));
    // run of 4, DIFF_8 (+1, +1, +1), run of 2.
    assert_eq!(encode(&data, 7, ChannelCount::Rgba), stream(7, 1, &[0x43, 0xaa, 0x41]));
    round_trip(&data, 7, ChannelCount::Rgba);
}

#[test]
fn empty_header_fields() {
    let data = [0u8; 0];
    let enc = encode(&data, 5, ChannelCount::Rgb);
    assert_eq!(enc, stream(5, 0, &[]));
}

#[test]
fn round_trip_rgba_varied() {
    let mut data = Vec::new();
    let mut x: u32 = 12345;
    for i in 0..(13 * 7) {
        x = x.wrapping_mul(1103515245).wrapping_add(12345);
        let r = (x >> 16) as u8;
        match i % 5 {
            0 => data.extend_from_slice(&[r, r / 2, 7, 255]),
            1 => data.extend_from_slice(&[r, r / 2, 8, 255]),
            2 => data.extend_from_slice(&[r, r / 2, 8, 250]),
            3 => data.extend_from_slice(&[r, r, r, r]),
            _ => data.extend_from_slice(&[r, r / 2, 8, 250]),
        }
    }
    round_trip(&data, 13, ChannelCount::Rgba);
}

#[test]
fn round_trip_rgb_gradient() {
    let mut data = Vec::new();
    for y in 0..9u32 {
        for x in 0..11u32 {
            data.extend_from_slice(&[(x * 3) as u8, (y * 20) as u8, ((x * y) % 256) as u8]);
        }
    }
    round_trip(&data, 11, ChannelCount::Rgb);
}

#[test]
fn rgba_stream_decoded_as_rgb_drops_alpha() {
    let data = [10, 20, 30, 255, 10, 20, 30, 100];
    let enc = encode(&data, 2, ChannelCount::Rgba);
    let (out, w, h) = decode(&enc, ChannelCount::Rgb).unwrap();
    assert_eq!(out, vec![10, 20, 30, 10, 20, 30]);
    assert_eq!((w, h), (2, 1));
}

#[test]
fn header_fields_of_encoded_stream() {
    let data = solid(6, [3, 4, 5, 6]);
    let enc = encode(&data, 3, ChannelCount::Rgba);
    assert_eq!(&enc[0..4], b"qoif");
    assert_eq!(u16::from_le_bytes([enc[4], enc[5]]), 3);
    assert_eq!(u16::from_le_bytes([enc[6], enc[7]]), 2);
    let size = u32::from_le_bytes([enc[8], enc[9], enc[10], enc[11]]) as usize;
    assert_eq!(size, enc.len() - 12);
    assert_eq!(&enc[enc.len() - 4..], &[0, 0, 0, 0]);
}

#[test]
fn decoder_wraps_channels() {
    // DIFF_8 of (-1, -1, -1) from opaque black.
    let enc = stream(1, 1, &[0x80]);
    let (out, _, _) = decode(&enc, ChannelCount::Rgba).unwrap();
    assert_eq!(out, vec![255, 255, 255, 255]);
}

#[test]
fn decoder_index_of_initial_cache() {
    // INDEX 5 reads an untouched slot: all channels zero.
    let enc = stream(1, 1, &[0x05]);
    let (out, _, _) = decode(&enc, ChannelCount::Rgba).unwrap();
    assert_eq!(out, vec![0, 0, 0, 0]);
}

#[test]
fn decoder_run_leaves_cache_alone() {
    // A run of opaque black, then INDEX 63: slot 63 still holds zero.
    let enc = stream(2, 1, &[0x40, 0x3f]);
    let (out, _, _) = decode(&enc, ChannelCount::Rgba).unwrap();
    assert_eq!(out, vec![0, 0, 0, 255, 0, 0, 0, 0]);
}

#[test]
fn decode_error_unexpected_end_in_header() {
    assert_eq!(decode(&[], ChannelCount::Rgba), Err(DecodeError::UnexpectedEnd));
    assert_eq!(decode(b"qoi", ChannelCount::Rgba), Err(DecodeError::UnexpectedEnd));
    assert_eq!(decode(&[0x71, 0x6f, 0x69, 0x66, 1, 0, 1], ChannelCount::Rgba), Err(DecodeError::UnexpectedEnd));
    assert_eq!(
        decode(&[0x71, 0x6f, 0x69, 0x66, 1, 0, 1, 0, 5, 0], ChannelCount::Rgba),
        Err(DecodeError::UnexpectedEnd)
    );
}

#[test]
fn decode_error_missing_magic() {
    let mut enc = encode(&[0, 0, 0, 255], 1, ChannelCount::Rgba);
    enc[0] = b'Q';
    assert_eq!(decode(&enc, ChannelCount::Rgba), Err(DecodeError::MissingMagic));
}

#[test]
fn decode_error_zero_width() {
    let enc = stream(0, 1, &[0x40]);
    assert_eq!(decode(&enc, ChannelCount::Rgba), Err(DecodeError::ZeroWidth));
}

#[test]
fn decode_error_zero_height() {
    let enc = stream(1, 0, &[0x40]);
    assert_eq!(decode(&enc, ChannelCount::Rgba), Err(DecodeError::ZeroHeight));
}

#[test]
fn decode_error_truncated_body() {
    let enc = encode(&[10, 20, 30, 255, 10, 20, 30, 100], 2, ChannelCount::Rgba);
    // Header and the first COLOR tag only.
    assert_eq!(decode(&enc[..14], ChannelCount::Rgba), Err(DecodeError::UnexpectedEnd));
    // Two pixels declared, no instruction at all.
    let bare = [0x71, 0x6f, 0x69, 0x66, 2, 0, 1, 0, 0, 0, 0, 0];
    assert_eq!(decode(&bare, ChannelCount::Rgba), Err(DecodeError::UnexpectedEnd));
}

#[test]
fn dims_are_checked() {
    assert!(dims_valid(12, 3, ChannelCount::Rgba));
    assert!(!dims_valid(12, 0, ChannelCount::Rgba));
    assert!(!dims_valid(10, 1, ChannelCount::Rgba));
    assert!(!dims_valid(9, 2, ChannelCount::Rgb));
    assert!(!dims_valid(0x10000 * 3, 0x10000, ChannelCount::Rgb));
    assert!(!dims_valid(0x10000 * 3, 1, ChannelCount::Rgb));
    assert!(dims_valid(0xffff * 3, 1, ChannelCount::Rgb));
}

#[test]
fn dims_are_computed() {
    let data = [0u8; 24];
    assert_eq!(verify_and_calculate_dims(&data, 2, ChannelCount::Rgba), (2, 3, 6));
    assert_eq!(verify_and_calculate_dims(&data, 4, ChannelCount::Rgb), (4, 2, 8));
}
