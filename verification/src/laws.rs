//! The codec's laws: the encoder and decoder are exact mirrors (round-trip
//! identity), a uniform stretch is pure RUN ops with the 62-pixel cap, a
//! colliding cache slot is never mistaken for a hit, the DIFF window is
//! sharp, an alpha change forces a full RGBA op, a decoded image is never
//! silently short, and a body truncated by one byte decodes to
//! `TruncatedStream`.

use vstd::prelude::*;
use vstd::arithmetic::div_mod::{
    lemma_add_mod_noop, lemma_basic_div, lemma_div_multiples_vanish_fancy,
    lemma_fundamental_div_mod, lemma_mod_add_multiples_vanish,
    lemma_mod_division_less_than_divisor, lemma_mod_twice, lemma_small_mod,
};
use crate::cache::start_cache;
use crate::decode::{decode_body, decode_stream, prepend, prepend_run, ImageModel};
use crate::encode::{encode_body, encode_stream, op_bytes, op_cache, step_bytes, step_cache, step_run};
use crate::format::{
    add_wrapped, be32_bytes, be32_value, diff_byte, diff_fits, end_marker, flush_bytes,
    header_bytes, luma_bg, luma_bytes, luma_fits, luma_rg, magic_bytes, run_byte, wrap_delta,
    CodecError,
};
use crate::pixel::{slot_index, start_pixel, Pixel};

verus! {

/// Adding a term reduced modulo 256 is the same as adding the term itself.
proof fn lemma_mod256_add_noop(a: int, x: int)
    ensures
        (a + x % 256) % 256 == (a + x) % 256,
{
    lemma_add_mod_noop(a, x % 256, 256);
    lemma_mod_twice(x, 256);
    lemma_add_mod_noop(a, x, 256);
}

/// Undoing a biased wrapped delta recovers the encoded channel: the decoder's
/// add is the exact inverse of the encoder's subtract.
proof fn lemma_delta_inverse(cur: u8, prev: u8, bias: int)
    ensures
        add_wrapped(prev, wrap_delta(cur, prev, bias) - bias) == cur,
{
    let x = cur - prev + bias;
    lemma_mod256_add_noop(prev - bias, x);
    lemma_small_mod(cur as nat, 256);
}

/// Undoing a LUMA channel reconstruction recovers the channel: the green
/// delta plus the chroma offset add back to the full wrapped difference.
proof fn lemma_luma_channel_inverse(cur: u8, prev: u8, cur_g: u8, prev_g: u8)
    ensures
        add_wrapped(
            prev,
            (wrap_delta(cur_g, prev_g, 32) - 32) + (((cur - prev - (cur_g - prev_g) + 8) % 256)
                - 8),
        ) == cur,
{
    let x1 = cur_g - prev_g + 32;
    let x2 = cur - prev - (cur_g - prev_g) + 8;
    lemma_mod256_add_noop(prev + (x1 % 256) - 40, x2);
    lemma_mod256_add_noop(prev + x2 - 40, x1);
    lemma_small_mod(cur as nat, 256);
}

/// A slot index is always in range.
proof fn lemma_slot_index_range(p: Pixel)
    ensures
        0 <= slot_index(p) < 64,
{
    lemma_mod_division_less_than_divisor(p.r * 3 + p.g * 5 + p.b * 7 + p.a * 11, 64);
}

/// Wrapped deltas are always in range.
proof fn lemma_wrap_delta_range(cur: u8, prev: u8, bias: int)
    ensures
        0 <= wrap_delta(cur, prev, bias) < 256,
{
    lemma_mod_division_less_than_divisor(cur - prev + bias, 256);
}

/// Chroma deltas are always in range.
proof fn lemma_chroma_range(x: int)
    ensures
        0 <= x % 256 < 256,
{
    lemma_mod_division_less_than_divisor(x, 256);
}

/// Decoding a RUN byte in front of `rest` emits `run` copies of the previous
/// pixel, touches nothing else, and goes on with `rest`.
proof fn lemma_decode_run_chunk(rest: Seq<u8>, prev: Pixel, cache: Seq<Pixel>, run: int, need: nat)
    requires
        1 <= run <= 62,
        run <= need,
    ensures
        decode_body(seq![run_byte(run)] + rest, prev, cache, need) == prepend_run(
            run as nat,
            prev,
            decode_body(rest, prev, cache, (need - run) as nat),
        ),
{
    reveal(decode_body);
    let bs = seq![run_byte(run)] + rest;
    assert(bs[0] == run_byte(run));
    assert(192 <= run_byte(run) <= 253);
    assert(bs.skip(1) =~= rest);
    assert((run_byte(run) - 192 + 1) as nat == run as nat);
}

/// Decoding the op the encoder picked for a non-run pixel `p` reconstructs
/// exactly `p`, updates the cache exactly as the encoder did, and goes on
/// with the rest of the stream.
proof fn lemma_decode_op_step(rest: Seq<u8>, prev: Pixel, cache: Seq<Pixel>, p: Pixel, need: nat)
    requires
        cache.len() == 64,
        p != prev,
        need >= 1,
    ensures
        decode_body(op_bytes(prev, cache, p) + rest, prev, cache, need) == prepend(
            p,
            decode_body(rest, p, op_cache(cache, p), (need - 1) as nat),
        ),
{
    reveal(decode_body);
    lemma_slot_index_range(p);
    let ops = op_bytes(prev, cache, p);
    let bs = ops + rest;
    if cache[slot_index(p)] == p {
        assert(bs[0] == slot_index(p) as u8);
        assert(bs[0] < 64);
        assert(cache[bs[0] as int] == p);
        assert(bs.skip(1) =~= rest);
    } else if diff_fits(prev, p) {
        lemma_wrap_delta_range(p.r, prev.r, 2);
        lemma_wrap_delta_range(p.g, prev.g, 2);
        lemma_wrap_delta_range(p.b, prev.b, 2);
        let dru = wrap_delta(p.r, prev.r, 2) as u8;
        let dgu = wrap_delta(p.g, prev.g, 2) as u8;
        let dbu = wrap_delta(p.b, prev.b, 2) as u8;
        let e = diff_byte(prev, p);
        assert(e == 64 + dru * 16 + dgu * 4 + dbu);
        assert(bs[0] == e);
        assert((e - 64) / 16 == dru && ((e - 64) / 4) % 4 == dgu && (e - 64) % 4 == dbu && 64 <= e
            < 128) by (bit_vector)
            requires
                e == 64 + dru * 16 + dgu * 4 + dbu,
                dru < 4,
                dgu < 4,
                dbu < 4,
        ;
        lemma_delta_inverse(p.r, prev.r, 2);
        lemma_delta_inverse(p.g, prev.g, 2);
        lemma_delta_inverse(p.b, prev.b, 2);
        assert(crate::decode::diff_pixel(prev, e) == p);
        assert(bs.skip(1) =~= rest);
    } else if luma_fits(prev, p) {
        lemma_wrap_delta_range(p.g, prev.g, 32);
        lemma_chroma_range(p.r - prev.r - (p.g - prev.g) + 8);
        lemma_chroma_range(p.b - prev.b - (p.g - prev.g) + 8);
        let vg = wrap_delta(p.g, prev.g, 32) as u8;
        let vrg = luma_rg(prev, p) as u8;
        let vbg = luma_bg(prev, p) as u8;
        let b0 = luma_bytes(prev, p)[0];
        let b1 = luma_bytes(prev, p)[1];
        assert(b0 == 128 + vg);
        assert(b1 == vrg * 16 + vbg);
        assert(bs[0] == b0 && bs[1] == b1);
        assert(128 <= b0 < 192);
        assert(b1 / 16 == vrg && b1 % 16 == vbg) by (bit_vector)
            requires
                b1 == vrg * 16 + vbg,
                vrg < 16,
                vbg < 16,
        ;
        assert(b0 - 128 == vg);
        lemma_delta_inverse(p.g, prev.g, 32);
        lemma_luma_channel_inverse(p.r, prev.r, p.g, prev.g);
        lemma_luma_channel_inverse(p.b, prev.b, p.g, prev.g);
        assert(crate::decode::luma_pixel(prev, b0, b1) == p);
        assert(bs.len() >= 2);
        assert(bs.skip(2) =~= rest);
    } else if p.a == prev.a {
        assert(bs[0] == 254);
        assert(bs[1] == p.r && bs[2] == p.g && bs[3] == p.b);
        assert(bs.len() >= 4);
        assert(bs.skip(4) =~= rest);
        assert((Pixel { r: bs[1], g: bs[2], b: bs[3], a: prev.a }) == p);
    } else {
        assert(bs[0] == 255);
        assert(bs[1] == p.r && bs[2] == p.g && bs[3] == p.b && bs[4] == p.a);
        assert(bs.len() >= 5);
        assert(bs.skip(5) =~= rest);
        assert((Pixel { r: bs[1], g: bs[2], b: bs[3], a: bs[4] }) == p);
    }
}

/// Law: decoding what the encoder emits from any aligned cursor state — with
/// `run` pixels still buffered in the encoder — yields those buffered pixels
/// and then the encoded ones, exactly.
pub proof fn lemma_encode_decode_body(pixels: Seq<Pixel>, prev: Pixel, cache: Seq<Pixel>, run: int)
    requires
        cache.len() == 64,
        0 <= run < 62,
    ensures
        decode_body(
            encode_body(pixels, prev, cache, run) + end_marker(),
            prev,
            cache,
            (run + pixels.len()) as nat,
        ) == Ok::<Seq<Pixel>, CodecError>(Seq::new(run as nat, |i: int| prev) + pixels),
    decreases pixels.len(),
{
    if pixels.len() == 0 {
        assert(decode_body(end_marker(), prev, cache, 0) == Ok::<Seq<Pixel>, CodecError>(
            Seq::<Pixel>::empty(),
        )) by {
            reveal(decode_body);
        }
        if run == 0 {
            assert(flush_bytes(0) + end_marker() =~= end_marker());
            assert(Seq::new(0, |i: int| prev) + pixels =~= Seq::<Pixel>::empty());
        } else {
            assert(flush_bytes(run) + end_marker() =~= seq![run_byte(run)] + end_marker());
            lemma_decode_run_chunk(end_marker(), prev, cache, run, run as nat);
            assert(Seq::new(run as nat, |i: int| prev) + Seq::<Pixel>::empty() =~= Seq::new(
                run as nat,
                |i: int| prev,
            ) + pixels);
        }
    } else {
        let p = pixels[0];
        let rest = pixels.skip(1);
        if p == prev {
            if run + 1 == 62 {
                lemma_encode_decode_body(rest, p, cache, 0);
                let enc_rest = encode_body(rest, p, cache, 0);
                assert(Seq::new(0, |i: int| p) + rest =~= rest);
                assert(encode_body(pixels, prev, cache, run) + end_marker() =~= seq![
                    run_byte(62),
                ] + (enc_rest + end_marker()));
                lemma_decode_run_chunk(
                    enc_rest + end_marker(),
                    prev,
                    cache,
                    62,
                    (run + pixels.len()) as nat,
                );
                assert(Seq::new(62, |i: int| prev) + rest =~= Seq::new(run as nat, |i: int| prev)
                    + pixels);
            } else {
                lemma_encode_decode_body(rest, p, cache, run + 1);
                assert(encode_body(pixels, prev, cache, run) + end_marker() =~= encode_body(
                    rest,
                    p,
                    cache,
                    run + 1,
                ) + end_marker());
                assert(Seq::new((run + 1) as nat, |i: int| prev) + rest =~= Seq::new(
                    run as nat,
                    |i: int| prev,
                ) + pixels);
            }
        } else {
            let cache2 = op_cache(cache, p);
            assert(cache2.len() == 64);
            lemma_encode_decode_body(rest, p, cache2, 0);
            let enc_rest = encode_body(rest, p, cache2, 0);
            let tail = enc_rest + end_marker();
            assert(Seq::new(0, |i: int| p) + rest =~= rest);
            lemma_decode_op_step(tail, prev, cache, p, pixels.len() as nat);
            assert(seq![p] + rest =~= pixels);
            if run > 0 {
                assert(encode_body(pixels, prev, cache, run) + end_marker() =~= seq![
                    run_byte(run),
                ] + (op_bytes(prev, cache, p) + tail));
                lemma_decode_run_chunk(
                    op_bytes(prev, cache, p) + tail,
                    prev,
                    cache,
                    run,
                    (run + pixels.len()) as nat,
                );
            } else {
                assert(encode_body(pixels, prev, cache, run) + end_marker() =~= op_bytes(
                    prev,
                    cache,
                    p,
                ) + tail);
                assert(Seq::new(0, |i: int| prev) + pixels =~= pixels);
            }
        }
    }
}

/// Law (round-trip identity): decoding an encoded stream returns exactly the
/// pixels and header fields that went in.
pub proof fn lemma_round_trip(
    pixels: Seq<Pixel>,
    width: u32,
    height: u32,
    channels: u8,
    colorspace: u8,
)
    requires
        pixels.len() == width * height,
        width >= 1,
        height >= 1,
        channels == 3 || channels == 4,
    ensures
        decode_stream(encode_stream(pixels, width, height, channels, colorspace)) == Ok::<
            ImageModel,
            CodecError,
        >(ImageModel { width, height, channels, colorspace, pixels }),
{
    let hdr = header_bytes(width, height, channels, colorspace);
    let body = encode_body(pixels, start_pixel(), start_cache(), 0);
    let s = encode_stream(pixels, width, height, channels, colorspace);
    assert(hdr.len() == 14);
    assert(s =~= hdr + (body + end_marker()));
    assert(s.take(4) =~= magic_bytes());
    assert(s[4] == be32_bytes(width)[0] && s[5] == be32_bytes(width)[1] && s[6] == be32_bytes(
        width,
    )[2] && s[7] == be32_bytes(width)[3]);
    assert(s[8] == be32_bytes(height)[0] && s[9] == be32_bytes(height)[1] && s[10] == be32_bytes(
        height,
    )[2] && s[11] == be32_bytes(height)[3]);
    crate::format::lemma_be32_round_trip(width);
    crate::format::lemma_be32_round_trip(height);
    assert(be32_value(s[4], s[5], s[6], s[7]) == width);
    assert(be32_value(s[8], s[9], s[10], s[11]) == height);
    assert(s[12] == channels && s[13] == colorspace);
    assert(s.skip(14) =~= body + end_marker());
    lemma_encode_decode_body(pixels, start_pixel(), start_cache(), 0);
    assert(Seq::new(0, |i: int| start_pixel()) + pixels =~= pixels);
    assert(decode_body(s.skip(14), start_pixel(), start_cache(), (width * height) as nat) == Ok::<
        Seq<Pixel>,
        CodecError,
    >(pixels));
}


/// A uniform stretch of `n` copies of one pixel.
pub open spec fn uniform(p: Pixel, n: nat) -> Seq<Pixel> {
    Seq::new(n, |i: int| p)
}

/// The op bytes that carry `m` buffered run pixels: one RUN op per full 62,
/// then one for the remainder.
pub open spec fn run_ops(m: nat) -> Seq<u8> {
    Seq::new(m / 62, |i: int| run_byte(62)) + if m % 62 == 0 {
        Seq::<u8>::empty()
    } else {
        seq![run_byte((m % 62) as int)]
    }
}

/// Pulling one full 62-chunk out of a buffered count shifts quotient and
/// remainder by exactly one RUN op.
proof fn lemma_div62_shift(m: nat)
    ensures
        (62 + m) / 62 == m / 62 + 1,
        (62 + m) % 62 == m % 62,
{
    lemma_mod_add_multiples_vanish(m as int, 62);
    lemma_fundamental_div_mod(62 + m as int, 62);
    lemma_fundamental_div_mod(m as int, 62);
}

/// Law (run cap): a stretch of pixels equal to the previous pixel, with
/// `run` of them already buffered, compresses to RUN ops alone: one per full
/// 62 pixels and one for the remainder.
pub proof fn lemma_run_cap(p: Pixel, n: nat, cache: Seq<Pixel>, run: int)
    requires
        0 <= run < 62,
    ensures
        encode_body(uniform(p, n), p, cache, run) == run_ops((run + n) as nat),
    decreases n,
{
    if n == 0 {
        lemma_basic_div(run, 62);
        lemma_small_mod(run as nat, 62);
        assert(uniform(p, 0).len() == 0);
        assert(flush_bytes(run) =~= run_ops(run as nat));
    } else {
        assert(uniform(p, n)[0] == p);
        assert(uniform(p, n).skip(1) =~= uniform(p, (n - 1) as nat));
        if run + 1 == 62 {
            lemma_run_cap(p, (n - 1) as nat, cache, 0);
            lemma_div62_shift((n - 1) as nat);
            assert(encode_body(uniform(p, n), p, cache, run) =~= seq![run_byte(62)] + run_ops(
                (n - 1) as nat,
            ));
            assert(seq![run_byte(62)] + run_ops((n - 1) as nat) =~= run_ops((run + n) as nat));
        } else {
            lemma_run_cap(p, (n - 1) as nat, cache, run + 1);
            assert(encode_body(uniform(p, n), p, cache, run) =~= run_ops((run + n) as nat));
        }
    }
}

/// The RUN op count for `m` pixels is the ceiling of m / 62, and every one
/// of its bytes carries the RUN tag (and collides with no full-byte tag).
proof fn lemma_run_ops_shape(m: nat)
    requires
        m >= 1,
    ensures
        run_ops(m).len() == (m + 61) / 62,
        forall|i: int| 0 <= i < run_ops(m).len() ==> 192 <= #[trigger] run_ops(m)[i] <= 253,
{
    let q = m / 62;
    let r = m % 62;
    lemma_fundamental_div_mod(m as int, 62);
    lemma_mod_division_less_than_divisor(m as int, 62);
    if r == 0 {
        assert(m + 61 == 62 * q + 61);
        lemma_div_multiples_vanish_fancy(q as int, 61, 62);
    } else {
        assert(m + 61 == 62 * (q + 1) + (r - 1));
        lemma_div_multiples_vanish_fancy(q as int + 1, r as int - 1, 62);
    }
}

/// Law (run cap, uniform image of the start pixel): every pixel joins the
/// run, so the whole body is ceil(n / 62) RUN ops and nothing else.
pub proof fn lemma_uniform_start_image(n: nat)
    requires
        n >= 1,
    ensures
        encode_body(uniform(start_pixel(), n), start_pixel(), start_cache(), 0) == run_ops(n),
        run_ops(n).len() == (n + 61) / 62,
        forall|i: int| 0 <= i < run_ops(n).len() ==> 192 <= #[trigger] run_ops(n)[i] <= 253,
{
    lemma_run_cap(start_pixel(), n, start_cache(), 0);
    lemma_run_ops_shape(n);
}

/// Law (run cap, any other uniform image): the first pixel gets its own
/// non-run op; every pixel after it compresses to RUN ops alone.
pub proof fn lemma_uniform_image(p: Pixel, n: nat)
    requires
        n >= 1,
        p != start_pixel(),
    ensures
        encode_body(uniform(p, n), start_pixel(), start_cache(), 0) == op_bytes(
            start_pixel(),
            start_cache(),
            p,
        ) + run_ops((n - 1) as nat),
{
    assert(uniform(p, n)[0] == p);
    assert(uniform(p, n).skip(1) =~= uniform(p, (n - 1) as nat));
    lemma_run_cap(p, (n - 1) as nat, op_cache(start_cache(), p), 0);
    assert(step_bytes(start_pixel(), start_cache(), 0, p) =~= op_bytes(
        start_pixel(),
        start_cache(),
        p,
    ));
}

/// Law (cache-index collision safety): when a pixel's slot holds a different
/// pixel — however the two collided on the index — the encoder never calls it
/// a hit: it overwrites the slot and emits a non-INDEX op.
pub proof fn lemma_collision_safe(prev: Pixel, cache: Seq<Pixel>, p: Pixel)
    requires
        cache.len() == 64,
        p != prev,
        cache[slot_index(p)] != p,
    ensures
        op_cache(cache, p) == cache.update(slot_index(p), p),
        op_bytes(prev, cache, p).len() >= 1,
        64 <= op_bytes(prev, cache, p)[0],
{
    lemma_slot_index_range(p);
    if diff_fits(prev, p) {
        lemma_wrap_delta_range(p.r, prev.r, 2);
        lemma_wrap_delta_range(p.g, prev.g, 2);
        lemma_wrap_delta_range(p.b, prev.b, 2);
    } else if luma_fits(prev, p) {
        lemma_wrap_delta_range(p.g, prev.g, 32);
    }
}

/// Law (diff bias boundary): with a missed slot, the op is the single DIFF
/// byte exactly when alpha is unchanged and every channel moved within
/// -2..=1 (wrapped); one step outside that window and the op is not DIFF.
pub proof fn lemma_diff_boundary(prev: Pixel, cache: Seq<Pixel>, p: Pixel)
    requires
        cache.len() == 64,
        p != prev,
        cache[slot_index(p)] != p,
    ensures
        diff_fits(prev, p) <==> (op_bytes(prev, cache, p).len() == 1 && 64 <= op_bytes(
            prev,
            cache,
            p,
        )[0] < 128),
{
    lemma_slot_index_range(p);
    if diff_fits(prev, p) {
        lemma_wrap_delta_range(p.r, prev.r, 2);
        lemma_wrap_delta_range(p.g, prev.g, 2);
        lemma_wrap_delta_range(p.b, prev.b, 2);
    } else if luma_fits(prev, p) {
        lemma_wrap_delta_range(p.g, prev.g, 32);
    }
}

/// Law (alpha change forces a full pixel): with a missed slot, a pixel whose
/// alpha differs from its predecessor's is stored verbatim as RGBA, however
/// close its color channels are.
pub proof fn lemma_alpha_change_rgba(prev: Pixel, cache: Seq<Pixel>, p: Pixel)
    requires
        cache.len() == 64,
        p.a != prev.a,
        cache[slot_index(p)] != p,
    ensures
        op_bytes(prev, cache, p) == seq![255u8, p.r, p.g, p.b, p.a],
{
    lemma_slot_index_range(p);
    assert(!diff_fits(prev, p));
    assert(!luma_fits(prev, p));
}


/// Law (no silently short image): whenever the op-stream decoder succeeds,
/// it has produced exactly the demanded number of pixels — a truncated body
/// can only end in an error, never in a shorter pixel sequence.
pub proof fn lemma_decode_exact_count(bytes: Seq<u8>, prev: Pixel, cache: Seq<Pixel>, need: nat)
    ensures
        decode_body(bytes, prev, cache, need) matches Ok(px) ==> px.len() == need,
    decreases need,
{
    reveal(decode_body);
    if need == 0 {
    } else if bytes.len() == 0 {
    } else {
        let b = bytes[0];
        if b < 64 {
            lemma_decode_exact_count(bytes.skip(1), cache[b as int], cache, (need - 1) as nat);
        } else if b < 128 {
            let p = crate::decode::diff_pixel(prev, b);
            lemma_decode_exact_count(
                bytes.skip(1),
                p,
                cache.update(slot_index(p), p),
                (need - 1) as nat,
            );
        } else if b < 192 {
            if bytes.len() >= 2 {
                let p = crate::decode::luma_pixel(prev, b, bytes[1]);
                lemma_decode_exact_count(
                    bytes.skip(2),
                    p,
                    cache.update(slot_index(p), p),
                    (need - 1) as nat,
                );
            }
        } else if b == 254 {
            if bytes.len() >= 4 {
                let p = Pixel { r: bytes[1], g: bytes[2], b: bytes[3], a: prev.a };
                lemma_decode_exact_count(
                    bytes.skip(4),
                    p,
                    cache.update(slot_index(p), p),
                    (need - 1) as nat,
                );
            }
        } else if b == 255 {
            if bytes.len() >= 5 {
                let p = Pixel { r: bytes[1], g: bytes[2], b: bytes[3], a: bytes[4] };
                lemma_decode_exact_count(
                    bytes.skip(5),
                    p,
                    cache.update(slot_index(p), p),
                    (need - 1) as nat,
                );
            }
        } else {
            let n = (b - 192 + 1) as nat;
            if n <= need {
                lemma_decode_exact_count(bytes.skip(1), prev, cache, (need - n) as nat);
            }
        }
    }
}

/// Law (no silently short image, whole stream): a decoded image always holds
/// exactly width * height pixels.
pub proof fn lemma_decode_pixel_count(bytes: Seq<u8>)
    ensures
        decode_stream(bytes) matches Ok(img) ==> img.pixels.len() == img.width * img.height,
{
    if bytes.len() >= 14 && bytes.take(4) == magic_bytes() {
        let w = be32_value(bytes[4], bytes[5], bytes[6], bytes[7]);
        let h = be32_value(bytes[8], bytes[9], bytes[10], bytes[11]);
        if w != 0 && h != 0 {
            lemma_decode_exact_count(
                bytes.skip(14),
                start_pixel(),
                start_cache(),
                (w * h) as nat,
            );
        }
    }
}


/// Decoding that starts inside the end marker (at offset `k`), or at its
/// start while pixels are still owed, always reports a truncated stream:
/// the marker's bytes read as INDEX ops, and what remains after them is
/// never long enough to be the marker.
proof fn lemma_marker_tail_truncated(k: int, prev: Pixel, cache: Seq<Pixel>, need: nat)
    requires
        0 <= k <= 8,
        cache.len() == 64,
        k == 0 ==> need >= 1,
    ensures
        decode_body(end_marker().skip(k), prev, cache, need) == Err::<Seq<Pixel>, CodecError>(
            CodecError::TruncatedStream,
        ),
    decreases 8 - k,
{
    reveal(decode_body);
    let bytes = end_marker().skip(k);
    assert(bytes.len() == 8 - k);
    if need == 0 {
        assert(bytes != end_marker());
    } else if k == 8 {
    } else {
        assert(bytes[0] == end_marker()[k]);
        assert(bytes[0] < 64);
        assert(bytes.skip(1) =~= end_marker().skip(k + 1));
        lemma_marker_tail_truncated(k + 1, cache[bytes[0] as int], cache, (need - 1) as nat);
    }
}

/// The op stream of at least one pixel, or with a run still open, is never
/// empty: the last pixel either emits an op or leaves a run to flush.
proof fn lemma_encode_body_nonempty(pixels: Seq<Pixel>, prev: Pixel, cache: Seq<Pixel>, run: int)
    requires
        0 <= run < 62,
        pixels.len() >= 1 || run >= 1,
    ensures
        encode_body(pixels, prev, cache, run).len() >= 1,
    decreases pixels.len(),
{
    if pixels.len() == 0 {
    } else {
        let p = pixels[0];
        if p == prev && run + 1 != 62 {
            lemma_encode_body_nonempty(pixels.skip(1), p, cache, run + 1);
        }
    }
}

/// Truncating the single op of a non-run pixel by its last byte and letting
/// the end marker follow always reports a truncated stream: the shortened op
/// either leaves the marker to be read as pixels, or eats the marker's first
/// byte as payload.
proof fn lemma_truncated_op(prev: Pixel, cache: Seq<Pixel>, p: Pixel)
    requires
        cache.len() == 64,
        p != prev,
    ensures
        decode_body(
            op_bytes(prev, cache, p).take(op_bytes(prev, cache, p).len() - 1) + end_marker(),
            prev,
            cache,
            1,
        ) == Err::<Seq<Pixel>, CodecError>(CodecError::TruncatedStream),
{
    reveal(decode_body);
    lemma_slot_index_range(p);
    let ops = op_bytes(prev, cache, p);
    let m = end_marker();
    let bytes = ops.take(ops.len() - 1) + m;
    if cache[slot_index(p)] == p {
        assert(bytes =~= m.skip(0));
        lemma_marker_tail_truncated(0, prev, cache, 1);
    } else if diff_fits(prev, p) {
        assert(bytes =~= m.skip(0));
        lemma_marker_tail_truncated(0, prev, cache, 1);
    } else if luma_fits(prev, p) {
        lemma_wrap_delta_range(p.g, prev.g, 32);
        let b0 = luma_bytes(prev, p)[0];
        assert(bytes =~= seq![b0] + m);
        assert(bytes[0] == b0 && 128 <= b0 < 192);
        assert(bytes[1] == m[0] && m[0] == 0);
        assert(bytes.len() == 9);
        let p2 = crate::decode::luma_pixel(prev, b0, 0);
        assert(bytes.skip(2) =~= m.skip(1));
        lemma_marker_tail_truncated(1, p2, cache.update(slot_index(p2), p2), 0);
    } else if p.a == prev.a {
        assert(bytes =~= seq![254u8, p.r, p.g] + m);
        assert(bytes[0] == 254);
        assert(bytes[3] == m[0] && m[0] == 0);
        assert(bytes.len() == 11);
        let p2 = Pixel { r: bytes[1], g: bytes[2], b: bytes[3], a: prev.a };
        assert(bytes.skip(4) =~= m.skip(1));
        lemma_marker_tail_truncated(1, p2, cache.update(slot_index(p2), p2), 0);
    } else {
        assert(bytes =~= seq![255u8, p.r, p.g, p.b] + m);
        assert(bytes[0] == 255);
        assert(bytes[4] == m[0] && m[0] == 0);
        assert(bytes.len() == 12);
        let p2 = Pixel { r: bytes[1], g: bytes[2], b: bytes[3], a: bytes[4] };
        assert(bytes.skip(5) =~= m.skip(1));
        lemma_marker_tail_truncated(1, p2, cache.update(slot_index(p2), p2), 0);
    }
}

/// Law (malformed stream): drop the last byte of the op stream — from any
/// aligned cursor state — keep the end marker, and the decoder reports
/// `TruncatedStream`.
pub proof fn lemma_truncated_body(pixels: Seq<Pixel>, prev: Pixel, cache: Seq<Pixel>, run: int)
    requires
        cache.len() == 64,
        0 <= run < 62,
        pixels.len() >= 1 || run >= 1,
    ensures
        decode_body(
            encode_body(pixels, prev, cache, run).take(
                encode_body(pixels, prev, cache, run).len() - 1,
            ) + end_marker(),
            prev,
            cache,
            (run + pixels.len()) as nat,
        ) == Err::<Seq<Pixel>, CodecError>(CodecError::TruncatedStream),
    decreases pixels.len(),
{
    let enc = encode_body(pixels, prev, cache, run);
    let m = end_marker();
    lemma_encode_body_nonempty(pixels, prev, cache, run);
    if pixels.len() == 0 {
        assert(enc.take(enc.len() - 1) + m =~= m.skip(0));
        lemma_marker_tail_truncated(0, prev, cache, run as nat);
    } else {
        let p = pixels[0];
        let rest = pixels.skip(1);
        let st = step_bytes(prev, cache, run, p);
        let cache2 = step_cache(prev, cache, p);
        let run2 = step_run(prev, run, p);
        let enc_rest = encode_body(rest, p, cache2, run2);
        assert(enc == st + enc_rest);
        if enc_rest.len() >= 1 {
            let cut = enc_rest.take(enc_rest.len() - 1);
            assert(enc.take(enc.len() - 1) =~= st + cut);
            lemma_truncated_body(rest, p, cache2, run2);
            if p == prev {
                if run + 1 == 62 {
                    assert((st + cut) + m =~= seq![run_byte(62)] + (cut + m));
                    lemma_decode_run_chunk(cut + m, prev, cache, 62, (run + pixels.len()) as nat);
                } else {
                    assert((st + cut) + m =~= cut + m);
                }
            } else {
                let tail = cut + m;
                lemma_decode_op_step(tail, prev, cache, p, pixels.len() as nat);
                if run > 0 {
                    assert((st + cut) + m =~= seq![run_byte(run)] + (op_bytes(prev, cache, p)
                        + tail));
                    lemma_decode_run_chunk(
                        op_bytes(prev, cache, p) + tail,
                        prev,
                        cache,
                        run,
                        (run + pixels.len()) as nat,
                    );
                } else {
                    assert((st + cut) + m =~= op_bytes(prev, cache, p) + tail);
                }
            }
        } else {
            assert(rest.len() == 0 && run2 == 0) by {
                if rest.len() >= 1 || run2 >= 1 {
                    lemma_encode_body_nonempty(rest, p, cache2, run2);
                }
            }
            if p == prev {
                assert(enc =~= seq![run_byte(62)]);
                assert(enc.take(enc.len() - 1) + m =~= m.skip(0));
                lemma_marker_tail_truncated(0, prev, cache, (run + 1) as nat);
            } else {
                let ops = op_bytes(prev, cache, p);
                lemma_truncated_op(prev, cache, p);
                if run > 0 {
                    assert(enc.take(enc.len() - 1) + m =~= seq![run_byte(run)] + (ops.take(
                        ops.len() - 1,
                    ) + m));
                    lemma_decode_run_chunk(
                        ops.take(ops.len() - 1) + m,
                        prev,
                        cache,
                        run,
                        (run + 1) as nat,
                    );
                } else {
                    assert(enc.take(enc.len() - 1) + m =~= ops.take(ops.len() - 1) + m);
                }
            }
        }
    }
}

/// Law (malformed stream, whole stream): truncating the body of an encoded
/// stream by one byte before the end marker makes decoding report
/// `TruncatedStream` — never a silently short pixel sequence.
pub proof fn lemma_truncated_stream(
    pixels: Seq<Pixel>,
    width: u32,
    height: u32,
    channels: u8,
    colorspace: u8,
)
    requires
        pixels.len() == width * height,
        pixels.len() >= 1,
        width >= 1,
        height >= 1,
        channels == 3 || channels == 4,
    ensures
        ({
            let s = encode_stream(pixels, width, height, channels, colorspace);
            decode_stream(s.take(s.len() - 9) + end_marker()) == Err::<ImageModel, CodecError>(
                CodecError::TruncatedStream,
            )
        }),
{
    let hdr = header_bytes(width, height, channels, colorspace);
    let body = encode_body(pixels, start_pixel(), start_cache(), 0);
    let s = encode_stream(pixels, width, height, channels, colorspace);
    lemma_encode_body_nonempty(pixels, start_pixel(), start_cache(), 0);
    assert(hdr.len() == 14);
    assert(s =~= hdr + (body + end_marker()));
    let cut = s.take(s.len() - 9) + end_marker();
    assert(cut =~= hdr + (body.take(body.len() - 1) + end_marker()));
    assert(cut.take(4) =~= magic_bytes());
    assert(cut[4] == be32_bytes(width)[0] && cut[5] == be32_bytes(width)[1] && cut[6]
        == be32_bytes(width)[2] && cut[7] == be32_bytes(width)[3]);
    assert(cut[8] == be32_bytes(height)[0] && cut[9] == be32_bytes(height)[1] && cut[10]
        == be32_bytes(height)[2] && cut[11] == be32_bytes(height)[3]);
    crate::format::lemma_be32_round_trip(width);
    crate::format::lemma_be32_round_trip(height);
    assert(cut[12] == channels && cut[13] == colorspace);
    assert(cut.skip(14) =~= body.take(body.len() - 1) + end_marker());
    lemma_truncated_body(pixels, start_pixel(), start_cache(), 0);
}

} // verus!
