//! Pixels and the hash that addresses the 64-slot history cache.

use vstd::prelude::*;

verus! {

/// One pixel: four 8-bit channels. A 3-channel source fills `a` with 255.
#[derive(Clone, Copy, PartialEq, Eq, Structural, Debug)]
pub struct Pixel {
    pub r: u8,
    pub g: u8,
    pub b: u8,
    pub a: u8,
}

/// The implicit pixel that both encoder and decoder start from.
pub open spec fn start_pixel() -> Pixel {
    Pixel { r: 0, g: 0, b: 0, a: 255 }
}

/// The cache slot a pixel hashes to: `(3r + 5g + 7b + 11a) mod 64`.
pub open spec fn slot_index(p: Pixel) -> int {
    (p.r * 3 + p.g * 5 + p.b * 7 + p.a * 11) % 64
}

/// Computes the cache slot of `p`; intermediates are 16-bit wide, so the
/// weighted sum (at most 255 * 26) never overflows before the modulo.
pub fn qoi_calculate_index(p: Pixel) -> (i: usize)
    ensures
        i == slot_index(p),
        i < 64,
{
    ((p.r as u16 * 3 + p.g as u16 * 5 + p.b as u16 * 7 + p.a as u16 * 11) % 64) as usize
}

} // verus!
