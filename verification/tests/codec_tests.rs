use qoi_codec::decode::decode;
use qoi_codec::encode::encode;
use qoi_codec::pixels_from_bytes;
use qoi_codec::qoi_calculate_index;
use qoi_codec::CodecError;
use qoi_codec::Pixel;
use qoi_codec::PixelHistoryCache;

fn px(r: u8, g: u8, b: u8, a: u8) -> Pixel {
    Pixel { r, g, b, a }
}

fn header(width: u32, height: u32, channels: u8, colorspace: u8) -> Vec<u8> {
    let mut h = vec![113u8, 111, 105, 102];
    h.extend_from_slice(&width.to_be_bytes());
    h.extend_from_slice(&height.to_be_bytes());
    h.push(channels);
    h.push(colorspace);
    h
}

const MARKER: [u8; 8] = [0, 0, 0, 0, 0, 0, 0, 1];

#[test]
fn index_of_start_pixel() {
    // (0*3 + 0*5 + 0*7 + 255*11) mod 64 == 2805 mod 64 == 53
    assert_eq!(qoi_calculate_index(px(0, 0, 0, 255)), 53);
}

#[test]
fn index_weighted_sum() {
    // (1*3 + 2*5 + 3*7 + 0*11) mod 64 == 34
    assert_eq!(qoi_calculate_index(px(1, 2, 3, 0)), 34);
    assert_eq!(qoi_calculate_index(px(255, 255, 255, 255)), (255u32 * 26 % 64) as usize);
}

#[test]
fn cache_starts_full_of_start_pixel() {
    let c = PixelHistoryCache::new();
    assert_eq!(c.lookup(0), px(0, 0, 0, 255));
    assert_eq!(c.lookup(63), px(0, 0, 0, 255));
}

#[test]
fn cache_store_overwrites_slot() {
    let mut c = PixelHistoryCache::new();
    c.store(5, px(9, 8, 7, 6));
    assert_eq!(c.lookup(5), px(9, 8, 7, 6));
    assert_eq!(c.lookup(4), px(0, 0, 0, 255));
    c.store(5, px(1, 1, 1, 1));
    assert_eq!(c.lookup(5), px(1, 1, 1, 1));
}

#[test]
fn scenario_two_identical_rgb_pixels() {
    // 2x1 image of (10,10,10): the first pixel is a LUMA op, the second
    // joins a run of one, flushed at end of stream.
    let pixels = vec![px(10, 10, 10, 255), px(10, 10, 10, 255)];
    let bytes = encode(&pixels, 2, 1, 3, 0).unwrap();
    let mut expected = header(2, 1, 3, 0);
    expected.extend_from_slice(&[170, 136, 192]);
    expected.extend_from_slice(&MARKER);
    assert_eq!(bytes, expected);

    let img = decode(&bytes).unwrap();
    assert_eq!(img.width, 2);
    assert_eq!(img.height, 1);
    assert_eq!(img.channels, 3);
    assert_eq!(img.colorspace, 0);
    assert_eq!(img.pixels, pixels);
}

#[test]
fn scenario_rgba_alpha_change() {
    // 1x1 RGBA image of (1,2,3,0): alpha differs from the implicit previous
    // pixel (0,0,0,255), so the pixel is stored verbatim as an RGBA op.
    let pixels = vec![px(1, 2, 3, 0)];
    let bytes = encode(&pixels, 1, 1, 4, 0).unwrap();
    let mut expected = header(1, 1, 4, 0);
    expected.extend_from_slice(&[255, 1, 2, 3, 0]);
    expected.extend_from_slice(&MARKER);
    assert_eq!(bytes, expected);

    let img = decode(&bytes).unwrap();
    assert_eq!(img.pixels, pixels);
}

#[test]
fn run_cap_uniform_image() {
    // 64 copies of the start pixel: ceil(64/62) == 2 RUN ops, nothing else.
    let pixels = vec![px(0, 0, 0, 255); 64];
    let bytes = encode(&pixels, 64, 1, 3, 0).unwrap();
    let mut expected = header(64, 1, 3, 0);
    expected.extend_from_slice(&[253, 193]); // RUN 62, RUN 2
    expected.extend_from_slice(&MARKER);
    assert_eq!(bytes, expected);

    let img = decode(&bytes).unwrap();
    assert_eq!(img.pixels, pixels);
}

#[test]
fn run_restarts_after_cap() {
    // 124 equal pixels fill exactly two full runs; 125 need a third op.
    let pixels = vec![px(0, 0, 0, 255); 124];
    let bytes = encode(&pixels, 124, 1, 3, 0).unwrap();
    assert_eq!(&bytes[14..16], &[253, 253]);
    assert_eq!(bytes.len(), 14 + 2 + 8);

    let pixels = vec![px(0, 0, 0, 255); 125];
    let bytes = encode(&pixels, 125, 1, 3, 0).unwrap();
    assert_eq!(&bytes[14..17], &[253, 253, 192]); // RUN 62, RUN 62, RUN 1
    let img = decode(&bytes).unwrap();
    assert_eq!(img.pixels, pixels);
}

#[test]
fn colliding_slot_is_not_a_hit() {
    // (3,4,5,255) hashes to slot 53, the same slot as the start pixel that
    // fills the fresh cache; the encoder must not mistake it for a hit, and
    // falls through to a LUMA op.
    assert_eq!(
        qoi_calculate_index(px(3, 4, 5, 255)),
        qoi_calculate_index(px(0, 0, 0, 255))
    );
    let pixels = vec![px(3, 4, 5, 255)];
    let bytes = encode(&pixels, 1, 1, 3, 0).unwrap();
    let mut expected = header(1, 1, 3, 0);
    expected.extend_from_slice(&[164, 121]); // LUMA, not INDEX
    expected.extend_from_slice(&MARKER);
    assert_eq!(bytes, expected);

    let img = decode(&bytes).unwrap();
    assert_eq!(img.pixels, pixels);
}

#[test]
fn diff_window_low_edge() {
    // Exactly 2 lower per channel encodes as a DIFF op (biased deltas 0).
    let pixels = vec![px(10, 10, 10, 255), px(8, 8, 8, 255)];
    let bytes = encode(&pixels, 2, 1, 3, 0).unwrap();
    assert_eq!(&bytes[14..17], &[170, 136, 64]);
    assert_eq!(decode(&bytes).unwrap().pixels, pixels);
}

#[test]
fn diff_window_high_edge() {
    // Exactly 1 higher per channel encodes as a DIFF op (biased deltas 3).
    let pixels = vec![px(10, 10, 10, 255), px(11, 11, 11, 255)];
    let bytes = encode(&pixels, 2, 1, 3, 0).unwrap();
    assert_eq!(&bytes[14..17], &[170, 136, 127]);
    assert_eq!(decode(&bytes).unwrap().pixels, pixels);
}

#[test]
fn diff_window_exceeded_low() {
    // 3 lower per channel no longer fits DIFF; a LUMA op is emitted instead.
    let pixels = vec![px(10, 10, 10, 255), px(7, 7, 7, 255)];
    let bytes = encode(&pixels, 2, 1, 3, 0).unwrap();
    assert_eq!(&bytes[14..18], &[170, 136, 157, 136]);
    assert!(bytes[16] >= 128); // LUMA tag, not DIFF
    assert_eq!(decode(&bytes).unwrap().pixels, pixels);
}

#[test]
fn diff_window_exceeded_high() {
    // 2 higher per channel no longer fits DIFF.
    let pixels = vec![px(10, 10, 10, 255), px(12, 12, 12, 255)];
    let bytes = encode(&pixels, 2, 1, 3, 0).unwrap();
    assert_eq!(&bytes[14..18], &[170, 136, 162, 136]);
    assert_eq!(decode(&bytes).unwrap().pixels, pixels);
}

#[test]
fn alpha_change_forces_rgba() {
    // Color channels identical, alpha one lower: still a full RGBA op.
    let pixels = vec![px(10, 10, 10, 255), px(10, 10, 10, 254)];
    let bytes = encode(&pixels, 2, 1, 3, 0).unwrap();
    assert_eq!(&bytes[14..21], &[170, 136, 255, 10, 10, 10, 254]);
    assert_eq!(decode(&bytes).unwrap().pixels, pixels);
}

#[test]
fn round_trip_all_op_kinds() {
    // One image that exercises LUMA, RUN, DIFF, RGB, INDEX and RGBA.
    let pixels = vec![
        px(10, 10, 10, 255),  // LUMA
        px(10, 10, 10, 255),  // run of 1
        px(8, 9, 10, 255),    // DIFF (-2,-1,0)
        px(200, 50, 90, 255), // RGB
        px(10, 10, 10, 255),  // INDEX (slot 11, stored by the first pixel)
        px(10, 10, 10, 128),  // RGBA (alpha change)
    ];
    let bytes = encode(&pixels, 6, 1, 4, 1).unwrap();
    let img = decode(&bytes).unwrap();
    assert_eq!(img.width, 6);
    assert_eq!(img.height, 1);
    assert_eq!(img.channels, 4);
    assert_eq!(img.colorspace, 1);
    assert_eq!(img.pixels, pixels);
}

#[test]
fn round_trip_wrapping_deltas() {
    // Deltas that wrap around 0 and 255 still round-trip.
    let pixels = vec![
        px(1, 0, 255, 255), // from (0,0,0): r +1, g 0, b -1 -> DIFF
        px(255, 254, 1, 255),
        px(0, 0, 0, 255),
    ];
    let bytes = encode(&pixels, 3, 1, 3, 0).unwrap();
    assert_eq!(decode(&bytes).unwrap().pixels, pixels);
}

#[test]
fn round_trip_two_rows() {
    let pixels = vec![
        px(1, 2, 3, 255),
        px(4, 5, 6, 255),
        px(7, 8, 9, 255),
        px(7, 8, 9, 255),
        px(90, 200, 33, 255),
        px(1, 2, 3, 255),
    ];
    let bytes = encode(&pixels, 3, 2, 3, 1).unwrap();
    let img = decode(&bytes).unwrap();
    assert_eq!(img.width, 3);
    assert_eq!(img.height, 2);
    assert_eq!(img.pixels, pixels);
}

#[test]
fn encode_rejects_zero_dimension() {
    let pixels = vec![px(1, 2, 3, 255)];
    assert_eq!(encode(&pixels, 0, 1, 3, 0), Err(CodecError::InvalidHeader));
    assert_eq!(encode(&pixels, 1, 0, 3, 0), Err(CodecError::InvalidHeader));
}

#[test]
fn encode_rejects_bad_channel_count() {
    let pixels = vec![px(1, 2, 3, 255)];
    assert_eq!(encode(&pixels, 1, 1, 2, 0), Err(CodecError::InvalidHeader));
    assert_eq!(encode(&pixels, 1, 1, 5, 0), Err(CodecError::InvalidHeader));
}

#[test]
fn encode_rejects_size_mismatch() {
    let pixels = vec![px(1, 2, 3, 255); 3];
    assert_eq!(encode(&pixels, 2, 2, 3, 0), Err(CodecError::BufferSizeMismatch));
}

#[test]
fn decode_rejects_short_header() {
    assert_eq!(decode(&vec![113u8, 111, 105, 102]).err(), Some(CodecError::InvalidHeader));
    assert_eq!(decode(&Vec::new()).err(), Some(CodecError::InvalidHeader));
}

#[test]
fn decode_rejects_bad_magic() {
    let mut bytes = header(1, 1, 3, 0);
    bytes[0] = 112;
    bytes.push(192);
    bytes.extend_from_slice(&MARKER);
    assert_eq!(decode(&bytes).err(), Some(CodecError::InvalidHeader));
}

#[test]
fn decode_rejects_zero_dimensions() {
    let mut bytes = header(0, 1, 3, 0);
    bytes.push(192);
    bytes.extend_from_slice(&MARKER);
    assert_eq!(decode(&bytes).err(), Some(CodecError::InvalidHeader));
}

#[test]
fn decode_rejects_bad_channel_count() {
    let mut bytes = header(1, 1, 5, 0);
    bytes.push(192);
    bytes.extend_from_slice(&MARKER);
    assert_eq!(decode(&bytes).err(), Some(CodecError::InvalidHeader));
}

#[test]
fn truncating_body_reports_truncated_stream() {
    // Drop the last body byte of a valid stream, keeping the end marker:
    // the decoder must report TruncatedStream, never a short pixel buffer.
    let pixels = vec![px(10, 10, 10, 255), px(10, 10, 10, 255)];
    let bytes = encode(&pixels, 2, 1, 3, 0).unwrap();
    let body_end = bytes.len() - 8;
    let mut cut: Vec<u8> = bytes[..body_end - 1].to_vec();
    cut.extend_from_slice(&bytes[body_end..]);
    assert_eq!(decode(&cut).err(), Some(CodecError::TruncatedStream));
}

#[test]
fn truncating_tail_reports_truncated_stream() {
    let pixels = vec![px(10, 10, 10, 255), px(10, 10, 10, 255)];
    let mut bytes = encode(&pixels, 2, 1, 3, 0).unwrap();
    bytes.pop();
    assert_eq!(decode(&bytes).err(), Some(CodecError::TruncatedStream));
}

#[test]
fn empty_body_reports_truncated_stream() {
    // Header promises one pixel, but the body is empty and only the marker
    // follows: the marker's INDEX-shaped bytes produce a pixel, and what
    // remains is too short to be the marker.
    let mut bytes = header(1, 1, 3, 0);
    bytes.extend_from_slice(&MARKER);
    assert_eq!(decode(&bytes).err(), Some(CodecError::TruncatedStream));
}

#[test]
fn run_past_pixel_count_reports_corrupt_op() {
    // A RUN of 6 in a 1x1 image overshoots the pixel count.
    let mut bytes = header(1, 1, 3, 0);
    bytes.push(197);
    bytes.extend_from_slice(&MARKER);
    assert_eq!(decode(&bytes).err(), Some(CodecError::CorruptOp));
}

#[test]
fn trailing_junk_reports_corrupt_op() {
    let pixels = vec![px(1, 2, 3, 0)];
    let mut bytes = encode(&pixels, 1, 1, 4, 0).unwrap();
    bytes.push(0);
    assert_eq!(decode(&bytes).err(), Some(CodecError::CorruptOp));
}

#[test]
fn pixels_from_bytes_three_channels() {
    let data = vec![10u8, 20, 30, 40, 50, 60];
    let pixels = pixels_from_bytes(&data, 3).unwrap();
    assert_eq!(pixels, vec![px(10, 20, 30, 255), px(40, 50, 60, 255)]);
}

#[test]
fn pixels_from_bytes_four_channels() {
    let data = vec![10u8, 20, 30, 7, 40, 50, 60, 8];
    let pixels = pixels_from_bytes(&data, 4).unwrap();
    assert_eq!(pixels, vec![px(10, 20, 30, 7), px(40, 50, 60, 8)]);
}

#[test]
fn pixels_from_bytes_rejects_ragged_length() {
    let data = vec![10u8, 20, 30, 40];
    assert_eq!(pixels_from_bytes(&data, 3), Err(CodecError::BufferSizeMismatch));
}

#[test]
fn pixels_from_bytes_rejects_bad_channel_count() {
    let data = vec![10u8, 20];
    assert_eq!(pixels_from_bytes(&data, 2), Err(CodecError::InvalidHeader));
}

#[test]
fn raw_buffer_to_stream_pipeline() {
    // The whole path a caller takes: raw row-major RGB bytes in, stream out.
    let data = vec![10u8, 10, 10, 10, 10, 10];
    let pixels = pixels_from_bytes(&data, 3).unwrap();
    let bytes = encode(&pixels, 2, 1, 3, 0).unwrap();
    let mut expected = header(2, 1, 3, 0);
    expected.extend_from_slice(&[170, 136, 192]);
    expected.extend_from_slice(&MARKER);
    assert_eq!(bytes, expected);
}
