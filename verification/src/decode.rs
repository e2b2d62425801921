//! The decoder: classifies each op byte by its top bits (the two full-byte
//! tags checked first), reconstructs one pixel per unit, and keeps prev,
//! cache and run bookkeeping in lockstep with the encoder.

use vstd::prelude::*;
use vstd::arithmetic::div_mod::lemma_mod_add_multiples_vanish;
use crate::cache::{PixelHistoryCache, start_cache};
use crate::format::{CodecError, add_wrapped, be32_value, end_marker, magic_bytes};
use crate::pixel::{Pixel, qoi_calculate_index, slot_index, start_pixel};

verus! {

/// A decoded image: the header fields read back verbatim, and the pixels.
#[verifier::ext_equal]
pub struct ImageModel {
    pub width: u32,
    pub height: u32,
    pub channels: u8,
    pub colorspace: u8,
    pub pixels: Seq<Pixel>,
}

/// What `decode` hands back on success.
pub struct DecodedImage {
    pub width: u32,
    pub height: u32,
    pub channels: u8,
    pub colorspace: u8,
    pub pixels: Vec<Pixel>,
}

impl View for DecodedImage {
    type V = ImageModel;

    open spec fn view(&self) -> ImageModel {
        ImageModel {
            width: self.width,
            height: self.height,
            channels: self.channels,
            colorspace: self.colorspace,
            pixels: self.pixels@,
        }
    }
}

/// The pixel a DIFF byte reconstructs: each channel moves by its two-bit
/// biased delta, alpha unchanged.
pub open spec fn diff_pixel(prev: Pixel, b: u8) -> Pixel {
    Pixel {
        r: add_wrapped(prev.r, (b - 64) / 16 - 2),
        g: add_wrapped(prev.g, ((b - 64) / 4) % 4 - 2),
        b: add_wrapped(prev.b, (b - 64) % 4 - 2),
        a: prev.a,
    }
}

/// The pixel a LUMA pair reconstructs: green moves by the six-bit biased
/// delta, red and blue by that plus their four-bit chroma offsets.
pub open spec fn luma_pixel(prev: Pixel, b0: u8, b1: u8) -> Pixel {
    Pixel {
        r: add_wrapped(prev.r, ((b0 - 128) - 32) + (b1 / 16 - 8)),
        g: add_wrapped(prev.g, (b0 - 128) - 32),
        b: add_wrapped(prev.b, ((b0 - 128) - 32) + (b1 % 16 - 8)),
        a: prev.a,
    }
}

/// Puts one decoded pixel in front of the rest of a decode result.
pub open spec fn prepend(p: Pixel, r: Result<Seq<Pixel>, CodecError>) -> Result<
    Seq<Pixel>,
    CodecError,
> {
    match r {
        Ok(t) => Ok(seq![p] + t),
        Err(e) => Err(e),
    }
}

/// Puts `n` copies of the previous pixel (a decoded run) in front of the
/// rest of a decode result.
pub open spec fn prepend_run(n: nat, p: Pixel, r: Result<Seq<Pixel>, CodecError>) -> Result<
    Seq<Pixel>,
    CodecError,
> {
    match r {
        Ok(t) => Ok(Seq::new(n, |i: int| p) + t),
        Err(e) => Err(e),
    }
}

/// Decodes the op stream: `need` more pixels, then exactly the end marker.
///
/// Errors: `TruncatedStream` when the bytes end first (or what remains after
/// the last pixel is shorter than the marker), `CorruptOp` when a run emits
/// past the pixel count or trailing bytes are not the marker.
#[verifier::opaque]
pub open spec fn decode_body(bytes: Seq<u8>, prev: Pixel, cache: Seq<Pixel>, need: nat) -> Result<
    Seq<Pixel>,
    CodecError,
>
    decreases need,
{
    if need == 0 {
        if bytes == end_marker() {
            Ok(Seq::<Pixel>::empty())
        } else if bytes.len() < 8 {
            Err(CodecError::TruncatedStream)
        } else {
            Err(CodecError::CorruptOp)
        }
    } else if bytes.len() == 0 {
        Err(CodecError::TruncatedStream)
    } else {
        let b = bytes[0];
        if b < 64 {
            let p = cache[b as int];
            prepend(p, decode_body(bytes.skip(1), p, cache, (need - 1) as nat))
        } else if b < 128 {
            let p = diff_pixel(prev, b);
            prepend(
                p,
                decode_body(bytes.skip(1), p, cache.update(slot_index(p), p), (need - 1) as nat),
            )
        } else if b < 192 {
            if bytes.len() < 2 {
                Err(CodecError::TruncatedStream)
            } else {
                let p = luma_pixel(prev, b, bytes[1]);
                prepend(
                    p,
                    decode_body(
                        bytes.skip(2),
                        p,
                        cache.update(slot_index(p), p),
                        (need - 1) as nat,
                    ),
                )
            }
        } else if b == 254 {
            if bytes.len() < 4 {
                Err(CodecError::TruncatedStream)
            } else {
                let p = Pixel { r: bytes[1], g: bytes[2], b: bytes[3], a: prev.a };
                prepend(
                    p,
                    decode_body(
                        bytes.skip(4),
                        p,
                        cache.update(slot_index(p), p),
                        (need - 1) as nat,
                    ),
                )
            }
        } else if b == 255 {
            if bytes.len() < 5 {
                Err(CodecError::TruncatedStream)
            } else {
                let p = Pixel { r: bytes[1], g: bytes[2], b: bytes[3], a: bytes[4] };
                prepend(
                    p,
                    decode_body(
                        bytes.skip(5),
                        p,
                        cache.update(slot_index(p), p),
                        (need - 1) as nat,
                    ),
                )
            }
        } else {
            let n = (b - 192 + 1) as nat;
            if n > need {
                Err(CodecError::CorruptOp)
            } else {
                prepend_run(n, prev, decode_body(bytes.skip(1), prev, cache, (need - n) as nat))
            }
        }
    }
}

/// What `decode` returns on every byte stream: the header checks, then the
/// body decoded from the start state.
pub open spec fn decode_stream(bytes: Seq<u8>) -> Result<ImageModel, CodecError> {
    if bytes.len() < 14 {
        Err(CodecError::InvalidHeader)
    } else if bytes.take(4) != magic_bytes() {
        Err(CodecError::InvalidHeader)
    } else {
        let w = be32_value(bytes[4], bytes[5], bytes[6], bytes[7]);
        let h = be32_value(bytes[8], bytes[9], bytes[10], bytes[11]);
        let ch = bytes[12];
        if w == 0 || h == 0 {
            Err(CodecError::InvalidHeader)
        } else if ch != 3 && ch != 4 {
            Err(CodecError::InvalidHeader)
        } else {
            match decode_body(bytes.skip(14), start_pixel(), start_cache(), (w * h) as nat) {
                Ok(px) => Ok(
                    ImageModel {
                        width: w,
                        height: h,
                        channels: ch,
                        colorspace: bytes[13],
                        pixels: px,
                    },
                ),
                Err(e) => Err(e),
            }
        }
    }
}

/// The pixels already emitted, then whatever the rest of the stream decodes
/// to; an error anywhere in the rest is the whole result.
pub open spec fn prefixed(s: Seq<Pixel>, r: Result<Seq<Pixel>, CodecError>) -> Result<
    Seq<Pixel>,
    CodecError,
> {
    match r {
        Ok(t) => Ok(s + t),
        Err(e) => Err(e),
    }
}

/// The decode result as seen from mid-stream: pixels emitted so far, then
/// the rest of the bytes decoded from the current cursor state.
pub open spec fn pending(
    bytes: Seq<u8>,
    out: Seq<Pixel>,
    pos: int,
    prev: Pixel,
    cache: Seq<Pixel>,
    produced: u64,
    need_total: u64,
) -> Result<Seq<Pixel>, CodecError> {
    prefixed(out, decode_body(bytes.skip(pos), prev, cache, (need_total - produced) as nat))
}

proof fn lemma_prefixed_one(s: Seq<Pixel>, p: Pixel, r: Result<Seq<Pixel>, CodecError>)
    ensures
        prefixed(s, prepend(p, r)) == prefixed(s.push(p), r),
{
    match r {
        Ok(t) => {
            assert(s + (seq![p] + t) =~= s.push(p) + t);
        },
        Err(_) => {},
    }
}

proof fn lemma_prefixed_run(s: Seq<Pixel>, n: nat, p: Pixel, r: Result<Seq<Pixel>, CodecError>)
    ensures
        prefixed(s, prepend_run(n, p, r)) == prefixed(s + Seq::new(n, |i: int| p), r),
{
    match r {
        Ok(t) => {
            assert(s + (Seq::new(n, |i: int| p) + t) =~= (s + Seq::new(n, |i: int| p)) + t);
        },
        Err(_) => {},
    }
}

/// Adds the biased delta `d - bias` to channel `c`, wrapping modulo 256.
fn add_delta(c: u8, d: u8, bias: u8) -> (r: u8)
    requires
        bias <= 40,
    ensures
        r == add_wrapped(c, d - bias),
{
    let wide: u16 = (c as u16 + d as u16 + 256) - bias as u16;
    proof {
        lemma_mod_add_multiples_vanish(c + d - bias, 256);
    }
    (wide % 256) as u8
}

/// Adds two biased deltas `d1 + d2 - bias` to channel `c`, wrapping modulo
/// 256.
fn add_delta2(c: u8, d1: u8, d2: u8, bias: u8) -> (r: u8)
    requires
        d1 < 64,
        d2 < 16,
        bias <= 40,
    ensures
        r == add_wrapped(c, d1 + d2 - bias),
{
    let wide: u16 = (c as u16 + d1 as u16 + d2 as u16 + 512) - bias as u16;
    proof {
        let base = c + d1 + d2 - bias;
        lemma_mod_add_multiples_vanish(base + 256, 256);
        lemma_mod_add_multiples_vanish(base, 256);
        assert(wide == base + 512);
    }
    (wide % 256) as u8
}

/// Decodes one op at the cursor: emits its pixels and advances the cursor,
/// or reports why the stream is bad at this point.
#[verifier::rlimit(100)]
fn decode_op(
    bytes: &Vec<u8>,
    pos: &mut usize,
    prev: &mut Pixel,
    cache: &mut PixelHistoryCache,
    out: &mut Vec<Pixel>,
    produced: &mut u64,
    need_total: u64,
) -> (r: Result<(), CodecError>)
    requires
        *old(pos) <= bytes@.len(),
        *old(produced) < need_total,
        old(cache).wf(),
        old(out)@.len() == *old(produced),
    ensures
        final(cache).wf(),
        final(out)@.len() == *final(produced),
        *old(pos) <= *final(pos) <= bytes@.len(),
        *old(produced) <= *final(produced) <= need_total,
        match r {
            Ok(()) => *final(produced) > *old(produced) && pending(
                bytes@,
                final(out)@,
                *final(pos) as int,
                *final(prev),
                final(cache)@,
                *final(produced),
                need_total,
            ) == pending(
                bytes@,
                old(out)@,
                *old(pos) as int,
                *old(prev),
                old(cache)@,
                *old(produced),
                need_total,
            ),
            Err(e) => pending(
                bytes@,
                old(out)@,
                *old(pos) as int,
                *old(prev),
                old(cache)@,
                *old(produced),
                need_total,
            ) == Err::<Seq<Pixel>, CodecError>(e),
        },
{
    let cur: usize = *pos;
    let done: u64 = *produced;
    let pv: Pixel = *prev;
    let ghost rem = bytes@.skip(cur as int);
    let ghost need = (need_total - done) as nat;
    let ghost out0 = out@;
    let ghost cache0 = cache@;
    let avail = bytes.len() - cur;
    if avail == 0 {
        proof {
            reveal(decode_body);
            assert(rem.len() == 0);
        }
        return Err(CodecError::TruncatedStream);
    }
    let b = bytes[cur];
    proof {
        assert(rem[0] == b);
    }
    if b < 64 {
        let p = cache.lookup(b as usize);
        out.push(p);
        proof {
            reveal(decode_body);
            assert(rem.skip(1) =~= bytes@.skip(cur as int + 1));
            lemma_prefixed_one(out0, p, decode_body(rem.skip(1), p, cache@, (need - 1) as nat));
        }
        *prev = p;
        *pos = cur + 1;
        *produced = done + 1;
        Ok(())
    } else if b < 128 {
        let low = b - 64;
        let p = Pixel {
            r: add_delta(pv.r, low / 16, 2),
            g: add_delta(pv.g, (low / 4) % 4, 2),
            b: add_delta(pv.b, low % 4, 2),
            a: pv.a,
        };
        proof {
            assert(p == diff_pixel(pv, b));
        }
        let idx = qoi_calculate_index(p);
        cache.store(idx, p);
        out.push(p);
        proof {
            reveal(decode_body);
            assert(cache@ =~= cache0.update(slot_index(p), p));
            assert(rem.skip(1) =~= bytes@.skip(cur as int + 1));
            lemma_prefixed_one(out0, p, decode_body(rem.skip(1), p, cache@, (need - 1) as nat));
        }
        *prev = p;
        *pos = cur + 1;
        *produced = done + 1;
        Ok(())
    } else if b < 192 {
        if avail < 2 {
            proof {
                reveal(decode_body);
                assert(rem.len() < 2);
            }
            return Err(CodecError::TruncatedStream);
        }
        let b1 = bytes[cur + 1];
        proof {
            assert(rem[1] == b1);
        }
        let vg = b - 128;
        let p = Pixel {
            r: add_delta2(pv.r, vg, b1 / 16, 40),
            g: add_delta(pv.g, vg, 32),
            b: add_delta2(pv.b, vg, b1 % 16, 40),
            a: pv.a,
        };
        proof {
            assert(p == luma_pixel(pv, b, b1));
        }
        let idx = qoi_calculate_index(p);
        cache.store(idx, p);
        out.push(p);
        proof {
            reveal(decode_body);
            assert(cache@ =~= cache0.update(slot_index(p), p));
            assert(rem.skip(2) =~= bytes@.skip(cur as int + 2));
            lemma_prefixed_one(out0, p, decode_body(rem.skip(2), p, cache@, (need - 1) as nat));
        }
        *prev = p;
        *pos = cur + 2;
        *produced = done + 1;
        Ok(())
    } else if b == 254 {
        if avail < 4 {
            proof {
                reveal(decode_body);
                assert(rem.len() < 4);
            }
            return Err(CodecError::TruncatedStream);
        }
        let p = Pixel { r: bytes[cur + 1], g: bytes[cur + 2], b: bytes[cur + 3], a: pv.a };
        proof {
            assert(rem[1] == bytes@[cur as int + 1]);
            assert(rem[2] == bytes@[cur as int + 2]);
            assert(rem[3] == bytes@[cur as int + 3]);
        }
        let idx = qoi_calculate_index(p);
        cache.store(idx, p);
        out.push(p);
        proof {
            reveal(decode_body);
            assert(cache@ =~= cache0.update(slot_index(p), p));
            assert(rem.skip(4) =~= bytes@.skip(cur as int + 4));
            lemma_prefixed_one(out0, p, decode_body(rem.skip(4), p, cache@, (need - 1) as nat));
        }
        *prev = p;
        *pos = cur + 4;
        *produced = done + 1;
        Ok(())
    } else if b == 255 {
        if avail < 5 {
            proof {
                reveal(decode_body);
                assert(rem.len() < 5);
            }
            return Err(CodecError::TruncatedStream);
        }
        let p = Pixel {
            r: bytes[cur + 1],
            g: bytes[cur + 2],
            b: bytes[cur + 3],
            a: bytes[cur + 4],
        };
        proof {
            assert(rem[1] == bytes@[cur as int + 1]);
            assert(rem[2] == bytes@[cur as int + 2]);
            assert(rem[3] == bytes@[cur as int + 3]);
            assert(rem[4] == bytes@[cur as int + 4]);
        }
        let idx = qoi_calculate_index(p);
        cache.store(idx, p);
        out.push(p);
        proof {
            reveal(decode_body);
            assert(cache@ =~= cache0.update(slot_index(p), p));
            assert(rem.skip(5) =~= bytes@.skip(cur as int + 5));
            lemma_prefixed_one(out0, p, decode_body(rem.skip(5), p, cache@, (need - 1) as nat));
        }
        *prev = p;
        *pos = cur + 5;
        *produced = done + 1;
        Ok(())
    } else {
        let n = b - 192 + 1;
        proof {
            assert(1 <= n <= 62);
        }
        if (n as u64) > need_total - done {
            proof {
                reveal(decode_body);
            }
            return Err(CodecError::CorruptOp);
        }
        let mut j: u8 = 0;
        while j < n
            invariant
                j <= n,
                out@ == out0 + Seq::new(j as nat, |k: int| pv),
            decreases n - j,
        {
            out.push(pv);
            proof {
                assert(out@ =~= out0 + Seq::new(j as nat + 1, |k: int| pv));
            }
            j = j + 1;
        }
        proof {
            reveal(decode_body);
            assert(rem.skip(1) =~= bytes@.skip(cur as int + 1));
            lemma_prefixed_run(
                out0,
                n as nat,
                pv,
                decode_body(rem.skip(1), pv, cache@, (need - n as nat) as nat),
            );
        }
        *pos = cur + 1;
        *produced = done + n as u64;
        Ok(())
    }
}

/// Decodes a byte stream into its header fields and pixels.
///
/// Returns exactly what `decode_stream` describes: each header defect and
/// stream defect its own error, and on success exactly width * height
/// pixels.
pub fn decode(bytes: &Vec<u8>) -> (r: Result<DecodedImage, CodecError>)
    ensures
        match r {
            Ok(img) => decode_stream(bytes@) == Ok::<ImageModel, CodecError>(img@),
            Err(e) => decode_stream(bytes@) == Err::<ImageModel, CodecError>(e),
        },
{
    if bytes.len() < 14 {
        return Err(CodecError::InvalidHeader);
    }
    if !(bytes[0] == 113 && bytes[1] == 111 && bytes[2] == 105 && bytes[3] == 102) {
        proof {
            assert(bytes@.take(4)[0] == bytes@[0]);
            assert(bytes@.take(4)[1] == bytes@[1]);
            assert(bytes@.take(4)[2] == bytes@[2]);
            assert(bytes@.take(4)[3] == bytes@[3]);
            assert(bytes@.take(4) != magic_bytes());
        }
        return Err(CodecError::InvalidHeader);
    }
    proof {
        assert(bytes@.take(4) =~= magic_bytes());
    }
    let width: u32 = ((bytes[4] as u32) << 24) | ((bytes[5] as u32) << 16) | ((bytes[6] as u32)
        << 8) | (bytes[7] as u32);
    let height: u32 = ((bytes[8] as u32) << 24) | ((bytes[9] as u32) << 16) | ((bytes[10] as u32)
        << 8) | (bytes[11] as u32);
    proof {
        assert(width == be32_value(bytes@[4], bytes@[5], bytes@[6], bytes@[7]));
        assert(height == be32_value(bytes@[8], bytes@[9], bytes@[10], bytes@[11]));
    }
    if width == 0 || height == 0 {
        return Err(CodecError::InvalidHeader);
    }
    let channels = bytes[12];
    if channels != 3 && channels != 4 {
        return Err(CodecError::InvalidHeader);
    }
    let colorspace = bytes[13];
    let w64: u64 = width as u64;
    let h64: u64 = height as u64;
    proof {
        assert(w64 * h64 < 0x1_0000_0000_0000_0000 && w64 * h64 >= 1) by (nonlinear_arith)
            requires
                1 <= w64 < 0x1_0000_0000,
                1 <= h64 < 0x1_0000_0000,
        ;
    }
    let need_total: u64 = w64 * h64;
    let ghost whole: Result<Seq<Pixel>, CodecError> = decode_body(
        bytes@.skip(14),
        start_pixel(),
        start_cache(),
        need_total as nat,
    );

    let mut pos: usize = 14;
    let mut prev = Pixel { r: 0, g: 0, b: 0, a: 255 };
    let mut cache = PixelHistoryCache::new();
    let mut out: Vec<Pixel> = Vec::new();
    let mut produced: u64 = 0;
    proof {
        match whole {
            Ok(t) => {
                assert(Seq::<Pixel>::empty() + t =~= t);
            },
            Err(_) => {},
        }
        assert(pending(bytes@, out@, 14, prev, cache@, 0, need_total) == whole);
    }
    while produced < need_total
        invariant
            14 <= pos <= bytes@.len(),
            produced <= need_total,
            out@.len() == produced,
            cache.wf(),
            pending(bytes@, out@, pos as int, prev, cache@, produced, need_total) == whole,
            decode_stream(bytes@) == (match whole {
                Ok(px) => Ok::<ImageModel, CodecError>(
                    ImageModel { width, height, channels, colorspace, pixels: px },
                ),
                Err(e) => Err::<ImageModel, CodecError>(e),
            }),
        decreases need_total - produced,
    {
        match decode_op(bytes, &mut pos, &mut prev, &mut cache, &mut out, &mut produced,
            need_total) {
            Ok(()) => {},
            Err(e) => {
                return Err(e);
            },
        }
    }
    let ghost rem = bytes@.skip(pos as int);
    let avail = bytes.len() - pos;
    if avail < 8 {
        proof {
            reveal(decode_body);
            assert(rem.len() < 8);
            assert(rem != end_marker());
        }
        return Err(CodecError::TruncatedStream);
    }
    if avail == 8 && bytes[pos] == 0 && bytes[pos + 1] == 0 && bytes[pos + 2] == 0 && bytes[pos
        + 3] == 0 && bytes[pos + 4] == 0 && bytes[pos + 5] == 0 && bytes[pos + 6] == 0 && bytes[pos
        + 7] == 1 {
        proof {
            reveal(decode_body);
            assert(rem =~= end_marker());
            assert(out@ + Seq::<Pixel>::empty() =~= out@);
        }
        let img = DecodedImage { width, height, channels, colorspace, pixels: out };
        proof {
            assert(decode_stream(bytes@) == Ok::<ImageModel, CodecError>(img@));
        }
        Ok(img)
    } else {
        proof {
            reveal(decode_body);
            if rem == end_marker() {
                assert(rem.len() == 8);
                assert(bytes@[pos as int] == rem[0]);
                assert(bytes@[pos as int + 1] == rem[1]);
                assert(bytes@[pos as int + 2] == rem[2]);
                assert(bytes@[pos as int + 3] == rem[3]);
                assert(bytes@[pos as int + 4] == rem[4]);
                assert(bytes@[pos as int + 5] == rem[5]);
                assert(bytes@[pos as int + 6] == rem[6]);
                assert(bytes@[pos as int + 7] == rem[7]);
                assert(false);
            }
        }
        Err(CodecError::CorruptOp)
    }
}

} // verus!
