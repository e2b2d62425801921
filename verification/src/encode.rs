//! The encoder: one left-to-right pass over the pixels, picking per pixel the
//! cheapest valid op among RUN, INDEX, DIFF, LUMA, RGB and RGBA.

use vstd::prelude::*;
use vstd::arithmetic::div_mod::lemma_mod_add_multiples_vanish;
use crate::cache::{PixelHistoryCache, start_cache};
use crate::format::{
    CodecError, diff_byte, diff_fits, end_marker, flush_bytes, header_bytes, luma_bytes,
    luma_fits, run_byte, wrap_delta,
};
use crate::pixel::{Pixel, qoi_calculate_index, slot_index, start_pixel};

verus! {

/// The bytes that encode one pixel `p` that does not extend a run: INDEX on a
/// cache hit, else DIFF, LUMA, RGB or RGBA, in that priority order.
pub open spec fn op_bytes(prev: Pixel, cache: Seq<Pixel>, p: Pixel) -> Seq<u8> {
    if cache[slot_index(p)] == p {
        seq![slot_index(p) as u8]
    } else if diff_fits(prev, p) {
        seq![diff_byte(prev, p)]
    } else if luma_fits(prev, p) {
        luma_bytes(prev, p)
    } else if p.a == prev.a {
        seq![0xFEu8, p.r, p.g, p.b]
    } else {
        seq![0xFFu8, p.r, p.g, p.b, p.a]
    }
}

/// The cache after encoding a non-run pixel: unchanged on a hit, else the
/// pixel overwrites its slot, whatever op was chosen.
pub open spec fn op_cache(cache: Seq<Pixel>, p: Pixel) -> Seq<Pixel> {
    if cache[slot_index(p)] == p {
        cache
    } else {
        cache.update(slot_index(p), p)
    }
}

/// The bytes one pixel appends to the stream, given the cursor state. A run
/// pixel emits nothing until the run reaches 62 or a non-run pixel flushes it.
pub open spec fn step_bytes(prev: Pixel, cache: Seq<Pixel>, run: int, p: Pixel) -> Seq<u8> {
    if p == prev {
        if run + 1 == 62 {
            seq![run_byte(62)]
        } else {
            Seq::<u8>::empty()
        }
    } else {
        flush_bytes(run) + op_bytes(prev, cache, p)
    }
}

/// The run counter after one pixel: up on a run pixel, back to zero when the
/// run reaches 62 or breaks.
pub open spec fn step_run(prev: Pixel, run: int, p: Pixel) -> int {
    if p == prev {
        if run + 1 == 62 {
            0
        } else {
            run + 1
        }
    } else {
        0
    }
}

/// The cache after one pixel: untouched by run pixels.
pub open spec fn step_cache(prev: Pixel, cache: Seq<Pixel>, p: Pixel) -> Seq<Pixel> {
    if p == prev {
        cache
    } else {
        op_cache(cache, p)
    }
}

/// The op stream for a pixel sequence, starting from cursor state
/// (`prev`, `cache`, `run`); any run still open at the end is flushed.
pub open spec fn encode_body(pixels: Seq<Pixel>, prev: Pixel, cache: Seq<Pixel>, run: int) -> Seq<
    u8,
>
    decreases pixels.len(),
{
    if pixels.len() == 0 {
        flush_bytes(run)
    } else {
        step_bytes(prev, cache, run, pixels[0]) + encode_body(
            pixels.skip(1),
            pixels[0],
            step_cache(prev, cache, pixels[0]),
            step_run(prev, run, pixels[0]),
        )
    }
}

/// The whole stream: header, op stream from the start state, end marker.
pub open spec fn encode_stream(
    pixels: Seq<Pixel>,
    width: u32,
    height: u32,
    channels: u8,
    colorspace: u8,
) -> Seq<u8> {
    header_bytes(width, height, channels, colorspace) + encode_body(
        pixels,
        start_pixel(),
        start_cache(),
        0,
    ) + end_marker()
}

/// What `encode` returns, for every input: which error on which bad input,
/// and the exact byte stream otherwise.
pub open spec fn encode_result(
    pixels: Seq<Pixel>,
    width: u32,
    height: u32,
    channels: u8,
    colorspace: u8,
) -> Result<Seq<u8>, CodecError> {
    if width == 0 || height == 0 || (channels != 3 && channels != 4) {
        Err(CodecError::InvalidHeader)
    } else if pixels.len() != width * height {
        Err(CodecError::BufferSizeMismatch)
    } else {
        Ok(encode_stream(pixels, width, height, channels, colorspace))
    }
}

/// Computes `wrap_delta(cur, prev, bias)` without overflow: the difference is
/// taken in 16-bit space with 256 added, which the modulo cancels.
fn wrap_delta_exec(cur: u8, prev: u8, bias: u8) -> (d: u8)
    requires
        bias <= 64,
    ensures
        d == wrap_delta(cur, prev, bias as int),
{
    let wide: u16 = (cur as u16 + 256 + bias as u16) - prev as u16;
    proof {
        lemma_mod_add_multiples_vanish(cur - prev + bias, 256);
    }
    (wide % 256) as u8
}

/// Computes a chroma-relative-to-green delta `(dc - dg + 8) mod 256`, the
/// wrapped channel difference relative to the wrapped green difference.
fn chroma_delta_exec(cur_c: u8, prev_c: u8, cur_g: u8, prev_g: u8) -> (d: u8)
    ensures
        d == (cur_c - prev_c - (cur_g - prev_g) + 8) % 256,
{
    let wide: u16 = (cur_c as u16 + prev_g as u16 + 8 + 512) - (prev_c as u16 + cur_g as u16);
    proof {
        let base = cur_c - prev_c - (cur_g - prev_g) + 8;
        lemma_mod_add_multiples_vanish(base + 256, 256);
        lemma_mod_add_multiples_vanish(base, 256);
        assert(wide == base + 512);
    }
    (wide % 256) as u8
}

/// Appends the four big-endian bytes of `x`.
fn push_be32(out: &mut Vec<u8>, x: u32)
    ensures
        final(out)@ == old(out)@ + crate::format::be32_bytes(x),
{
    proof {
        assert((x >> 24) & 0xff < 256 && (x >> 16) & 0xff < 256 && (x >> 8) & 0xff < 256 && x
            & 0xff < 256) by (bit_vector);
    }
    out.push(((x >> 24) & 0xff) as u8);
    out.push(((x >> 16) & 0xff) as u8);
    out.push(((x >> 8) & 0xff) as u8);
    out.push((x & 0xff) as u8);
    proof {
        assert(out@ =~= old(out)@ + crate::format::be32_bytes(x));
    }
}

/// Encodes a pixel buffer of the stated dimensions into a byte stream.
///
/// Rejects a zero dimension or an unsupported channel count, then a buffer
/// whose length is not width * height; otherwise returns exactly the stream
/// `encode_stream` describes.
pub fn encode(
    pixels: &Vec<Pixel>,
    width: u32,
    height: u32,
    channels: u8,
    colorspace: u8,
) -> (r: Result<Vec<u8>, CodecError>)
    ensures
        match r {
            Ok(out) => encode_result(pixels@, width, height, channels, colorspace) == Ok::<
                Seq<u8>,
                CodecError,
            >(out@),
            Err(e) => encode_result(pixels@, width, height, channels, colorspace) == Err::<
                Seq<u8>,
                CodecError,
            >(e),
        },
{
    if width == 0 || height == 0 || (channels != 3 && channels != 4) {
        return Err(CodecError::InvalidHeader);
    }
    let w64: u64 = width as u64;
    let h64: u64 = height as u64;
    proof {
        assert(w64 * h64 < 0x1_0000_0000_0000_0000) by (nonlinear_arith)
            requires
                w64 < 0x1_0000_0000,
                h64 < 0x1_0000_0000,
        ;
    }
    if !(pixels.len() as u64 == w64 * h64) {
        return Err(CodecError::BufferSizeMismatch);
    }
    let mut out: Vec<u8> = Vec::new();
    out.push(113);
    out.push(111);
    out.push(105);
    out.push(102);
    push_be32(&mut out, width);
    push_be32(&mut out, height);
    out.push(channels);
    out.push(colorspace);
    proof {
        assert(out@ =~= header_bytes(width, height, channels, colorspace));
    }

    let ghost total: Seq<u8> = header_bytes(width, height, channels, colorspace) + encode_body(
        pixels@,
        start_pixel(),
        start_cache(),
        0,
    );
    let mut prev = Pixel { r: 0, g: 0, b: 0, a: 255 };
    let mut cache = PixelHistoryCache::new();
    let mut run: u8 = 0;
    let mut i: usize = 0;
    proof {
        assert(pixels@.skip(0) =~= pixels@);
        assert(out@ + encode_body(pixels@.skip(0), prev, cache@, 0) =~= total);
    }
    while i < pixels.len()
        invariant
            i <= pixels.len(),
            cache.wf(),
            run < 62,
            out@ + encode_body(pixels@.skip(i as int), prev, cache@, run as int) == total,
        decreases pixels.len() - i,
    {
        let ghost rest = pixels@.skip(i as int);
        let ghost out0 = out@;
        let ghost cache0 = cache@;
        let ghost run0 = run as int;
        let p = pixels[i];
        proof {
            assert(rest[0] == pixels@[i as int]);
        }
        if p == prev {
            if run == 61 {
                out.push(253);
                run = 0;
                proof {
                    assert(run_byte(62) == 253);
                    assert(out@ =~= out0 + step_bytes(prev, cache0, run0, p));
                }
            } else {
                run = run + 1;
                proof {
                    assert(out@ =~= out0 + step_bytes(prev, cache0, run0, p));
                }
            }
        } else {
            if run > 0 {
                out.push(192 + (run - 1));
                run = 0;
            }
            proof {
                assert(out@ =~= out0 + flush_bytes(run0));
            }
            let ghost out1 = out@;
            let idx = qoi_calculate_index(p);
            let hit = cache.lookup(idx);
            if hit == p {
                out.push(idx as u8);
                proof {
                    assert(op_bytes(prev, cache0, p) =~= seq![slot_index(p) as u8]);
                }
            } else {
                cache.store(idx, p);
                proof {
                    assert(cache@ =~= op_cache(cache0, p));
                }
                let dr = wrap_delta_exec(p.r, prev.r, 2);
                let dg = wrap_delta_exec(p.g, prev.g, 2);
                let db = wrap_delta_exec(p.b, prev.b, 2);
                if p.a == prev.a && dr < 4 && dg < 4 && db < 4 {
                    out.push(64 + (dr * 16 + dg * 4 + db));
                    proof {
                        assert(diff_fits(prev, p));
                        assert(op_bytes(prev, cache0, p) =~= seq![diff_byte(prev, p)]);
                    }
                } else {
                    proof {
                        assert(!diff_fits(prev, p));
                    }
                    let vg = wrap_delta_exec(p.g, prev.g, 32);
                    let vrg = chroma_delta_exec(p.r, prev.r, p.g, prev.g);
                    let vbg = chroma_delta_exec(p.b, prev.b, p.g, prev.g);
                    if p.a == prev.a && vg < 64 && vrg < 16 && vbg < 16 {
                        out.push(128 + vg);
                        out.push(vrg * 16 + vbg);
                        proof {
                            assert(luma_fits(prev, p));
                            assert(op_bytes(prev, cache0, p) =~= luma_bytes(prev, p));
                            assert(out@ =~= out1 + luma_bytes(prev, p));
                        }
                    } else {
                        proof {
                            assert(!luma_fits(prev, p));
                        }
                        if p.a == prev.a {
                            out.push(254);
                            out.push(p.r);
                            out.push(p.g);
                            out.push(p.b);
                            proof {
                                assert(out@ =~= out1 + op_bytes(prev, cache0, p));
                            }
                        } else {
                            out.push(255);
                            out.push(p.r);
                            out.push(p.g);
                            out.push(p.b);
                            out.push(p.a);
                            proof {
                                assert(out@ =~= out1 + op_bytes(prev, cache0, p));
                            }
                        }
                    }
                }
            }
            proof {
                assert(out@ =~= out1 + op_bytes(prev, cache0, p));
                assert(out@ =~= out0 + (flush_bytes(run0) + op_bytes(prev, cache0, p)));
                assert(out@ =~= out0 + step_bytes(prev, cache0, run0, p));
            }
        }
        proof {
            assert(rest.skip(1) =~= pixels@.skip(i as int + 1));
            assert(cache@ == step_cache(prev, cache0, p));
            assert(run as int == step_run(prev, run0, p));
            assert(encode_body(rest, prev, cache0, run0) == step_bytes(prev, cache0, run0, p)
                + encode_body(rest.skip(1), p, step_cache(prev, cache0, p), step_run(
                prev,
                run0,
                p,
            )));
            assert(out@ + encode_body(pixels@.skip(i as int + 1), p, cache@, run as int) =~= out0
                + encode_body(rest, prev, cache0, run0));
        }
        prev = p;
        i = i + 1;
    }
    proof {
        assert(pixels@.skip(pixels@.len() as int) =~= Seq::<Pixel>::empty());
    }
    if run > 0 {
        out.push(192 + (run - 1));
    }
    proof {
        assert(out@ =~= total);
    }
    out.push(0);
    out.push(0);
    out.push(0);
    out.push(0);
    out.push(0);
    out.push(0);
    out.push(0);
    out.push(1);
    proof {
        assert(out@ =~= encode_stream(pixels@, width, height, channels, colorspace));
    }
    Ok(out)
}

} // verus!
