//! The byte-exact stream format: header, op tags, end marker, and the
//! wraparound delta arithmetic shared by encoder and decoder.

use vstd::prelude::*;
use crate::pixel::Pixel;

verus! {

/// Why an encode or decode call failed.
#[derive(Clone, Copy, PartialEq, Eq, Structural, Debug)]
pub enum CodecError {
    /// Bad magic, zero dimension, or unsupported channel count.
    InvalidHeader,
    /// The stream ends before width * height pixels are produced.
    TruncatedStream,
    /// An op that no valid encoder emits at this point.
    CorruptOp,
    /// The encoder input length does not match the stated dimensions.
    BufferSizeMismatch,
}

/// The four magic bytes `qoif` that open every stream.
pub open spec fn magic_bytes() -> Seq<u8> {
    seq![113u8, 111u8, 105u8, 102u8]
}

/// The fixed end marker: seven zero bytes, then a single one byte.
pub open spec fn end_marker() -> Seq<u8> {
    seq![0u8, 0u8, 0u8, 0u8, 0u8, 0u8, 0u8, 1u8]
}

/// Big-endian bytes of a 32-bit value, most significant first.
pub open spec fn be32_bytes(x: u32) -> Seq<u8> {
    seq![
        ((x >> 24) & 0xff) as u8,
        ((x >> 16) & 0xff) as u8,
        ((x >> 8) & 0xff) as u8,
        (x & 0xff) as u8,
    ]
}

/// The 32-bit value carried by four big-endian bytes.
pub open spec fn be32_value(b0: u8, b1: u8, b2: u8, b3: u8) -> u32 {
    ((b0 as u32) << 24) | ((b1 as u32) << 16) | ((b2 as u32) << 8) | (b3 as u32)
}

/// Reading back the four big-endian bytes of `x` recovers `x`.
pub proof fn lemma_be32_round_trip(x: u32)
    ensures
        be32_value(be32_bytes(x)[0], be32_bytes(x)[1], be32_bytes(x)[2], be32_bytes(x)[3]) == x,
{
    let b0 = ((x >> 24) & 0xff) as u8;
    let b1 = ((x >> 16) & 0xff) as u8;
    let b2 = ((x >> 8) & 0xff) as u8;
    let b3 = (x & 0xff) as u8;
    assert(((b0 as u32) << 24) | ((b1 as u32) << 16) | ((b2 as u32) << 8) | (b3 as u32) == x)
        by (bit_vector)
        requires
            b0 == ((x >> 24) & 0xff) as u8,
            b1 == ((x >> 16) & 0xff) as u8,
            b2 == ((x >> 8) & 0xff) as u8,
            b3 == (x & 0xff) as u8,
    ;
}

/// The stream header: magic, width, height, channel count, colorspace flag.
pub open spec fn header_bytes(width: u32, height: u32, channels: u8, colorspace: u8) -> Seq<u8> {
    magic_bytes() + be32_bytes(width) + be32_bytes(height) + seq![channels, colorspace]
}

/// The channel delta from `prev` to `cur`, wrapped modulo 256 and shifted by
/// `bias`, as the wire carries it.
pub open spec fn wrap_delta(cur: u8, prev: u8, bias: int) -> int {
    (cur - prev + bias) % 256
}

/// Adds a (possibly negative) delta to a channel, wrapping modulo 256.
pub open spec fn add_wrapped(c: u8, d: int) -> u8 {
    ((c + d) % 256) as u8
}

/// A DIFF op applies when alpha is unchanged and each channel moved by
/// -2..=1, i.e. each biased delta fits two bits.
pub open spec fn diff_fits(prev: Pixel, p: Pixel) -> bool {
    &&& p.a == prev.a
    &&& wrap_delta(p.r, prev.r, 2) < 4
    &&& wrap_delta(p.g, prev.g, 2) < 4
    &&& wrap_delta(p.b, prev.b, 2) < 4
}

/// The single DIFF byte: tag 01, then two bits per channel delta.
pub open spec fn diff_byte(prev: Pixel, p: Pixel) -> u8 {
    (64 + wrap_delta(p.r, prev.r, 2) * 16 + wrap_delta(p.g, prev.g, 2) * 4 + wrap_delta(
        p.b,
        prev.b,
        2,
    )) as u8
}

/// The red-relative-to-green delta of a LUMA op, biased by 8.
pub open spec fn luma_rg(prev: Pixel, p: Pixel) -> int {
    (p.r - prev.r - (p.g - prev.g) + 8) % 256
}

/// The blue-relative-to-green delta of a LUMA op, biased by 8.
pub open spec fn luma_bg(prev: Pixel, p: Pixel) -> int {
    (p.b - prev.b - (p.g - prev.g) + 8) % 256
}

/// A LUMA op applies when alpha is unchanged, the green delta fits six bits
/// (bias 32), and both chroma deltas relative to green fit four bits (bias 8).
pub open spec fn luma_fits(prev: Pixel, p: Pixel) -> bool {
    &&& p.a == prev.a
    &&& wrap_delta(p.g, prev.g, 32) < 64
    &&& luma_rg(prev, p) < 16
    &&& luma_bg(prev, p) < 16
}

/// The two LUMA bytes: tag 10 with the green delta, then both chroma deltas.
pub open spec fn luma_bytes(prev: Pixel, p: Pixel) -> Seq<u8> {
    seq![
        (128 + wrap_delta(p.g, prev.g, 32)) as u8,
        (luma_rg(prev, p) * 16 + luma_bg(prev, p)) as u8,
    ]
}

/// The RUN byte for a run of `n` pixels (1..=62): tag 11, bias -1.
pub open spec fn run_byte(n: int) -> u8 {
    (192 + n - 1) as u8
}

/// The bytes that flush an open run: one RUN byte, or nothing if no run is
/// open.
pub open spec fn flush_bytes(run: int) -> Seq<u8> {
    if run == 0 {
        Seq::<u8>::empty()
    } else {
        seq![run_byte(run)]
    }
}

} // verus!
