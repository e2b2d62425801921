//! Row-major sample buffers to pixels: the form a pixel source hands the
//! codec. A 3-channel buffer gets fully opaque alpha.

use vstd::prelude::*;
use vstd::arithmetic::div_mod::lemma_fundamental_div_mod;
use crate::format::CodecError;
use crate::pixel::Pixel;

verus! {

/// The pixels of a row-major sample buffer: groups of 3 bytes (alpha filled
/// with 255) or of 4, in order.
pub open spec fn pixels_of_bytes(data: Seq<u8>, channels: u8) -> Seq<Pixel> {
    if channels == 3 {
        Seq::new(
            data.len() / 3,
            |i: int| Pixel { r: data[3 * i], g: data[3 * i + 1], b: data[3 * i + 2], a: 255 },
        )
    } else {
        Seq::new(
            data.len() / 4,
            |i: int|
                Pixel {
                    r: data[4 * i],
                    g: data[4 * i + 1],
                    b: data[4 * i + 2],
                    a: data[4 * i + 3],
                },
        )
    }
}

/// What `pixels_from_bytes` returns, for every input.
pub open spec fn pixels_from_bytes_result(data: Seq<u8>, channels: u8) -> Result<
    Seq<Pixel>,
    CodecError,
> {
    if channels != 3 && channels != 4 {
        Err(CodecError::InvalidHeader)
    } else if data.len() % (channels as nat) != 0 {
        Err(CodecError::BufferSizeMismatch)
    } else {
        Ok(pixels_of_bytes(data, channels))
    }
}

/// Turns a row-major sample buffer into pixels, 3 or 4 bytes each; any other
/// channel count is rejected, as is a length that is not a whole number of
/// pixels.
pub fn pixels_from_bytes(data: &Vec<u8>, channels: u8) -> (r: Result<Vec<Pixel>, CodecError>)
    ensures
        match r {
            Ok(px) => pixels_from_bytes_result(data@, channels) == Ok::<Seq<Pixel>, CodecError>(
                px@,
            ),
            Err(e) => pixels_from_bytes_result(data@, channels) == Err::<Seq<Pixel>, CodecError>(
                e,
            ),
        },
{
    if channels != 3 && channels != 4 {
        return Err(CodecError::InvalidHeader);
    }
    let ch: usize = channels as usize;
    if data.len() % ch != 0 {
        return Err(CodecError::BufferSizeMismatch);
    }
    let count = data.len() / ch;
    proof {
        lemma_fundamental_div_mod(data@.len() as int, ch as int);
    }
    let mut out: Vec<Pixel> = Vec::new();
    let mut k: usize = 0;
    let mut base: usize = 0;
    if channels == 3 {
        while k < count
            invariant
                k <= count,
                base == 3 * k,
                data@.len() == 3 * count,
                data@.len() <= usize::MAX,
                out@.len() == k,
                forall|j: int| 0 <= j < k ==> out@[j] == pixels_of_bytes(data@, 3)[j],
            decreases count - k,
        {
            let p = Pixel { r: data[base], g: data[base + 1], b: data[base + 2], a: 255 };
            out.push(p);
            k = k + 1;
            base = base + 3;
        }
        proof {
            assert(out@ =~= pixels_of_bytes(data@, 3));
        }
    } else {
        while k < count
            invariant
                k <= count,
                base == 4 * k,
                data@.len() == 4 * count,
                data@.len() <= usize::MAX,
                out@.len() == k,
                forall|j: int| 0 <= j < k ==> out@[j] == pixels_of_bytes(data@, 4)[j],
            decreases count - k,
        {
            let p = Pixel {
                r: data[base],
                g: data[base + 1],
                b: data[base + 2],
                a: data[base + 3],
            };
            out.push(p);
            k = k + 1;
            base = base + 4;
        }
        proof {
            assert(out@ =~= pixels_of_bytes(data@, 4));
        }
    }
    Ok(out)
}

} // verus!
