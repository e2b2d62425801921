//! The fixed 64-slot pixel history cache shared, by construction, between
//! encoder and decoder. Slots are never empty: they hold the last pixel
//! stored there, or the start pixel.

use vstd::prelude::*;
use vstd::pervasive::VecAdditionalExecFns;
use crate::pixel::{Pixel, start_pixel};

verus! {

/// The state every cache starts from: 64 copies of the start pixel.
pub open spec fn start_cache() -> Seq<Pixel> {
    Seq::new(64, |i: int| start_pixel())
}

/// Maps a pixel hash to the last pixel seen with that hash. Exactly 64
/// slots, overwrite on store, no chaining; this behaviour is part of the
/// wire-format contract.
pub struct PixelHistoryCache {
    slots: Vec<Pixel>,
}

impl View for PixelHistoryCache {
    type V = Seq<Pixel>;

    closed spec fn view(&self) -> Seq<Pixel> {
        self.slots@
    }
}

impl PixelHistoryCache {
    pub open spec fn wf(&self) -> bool {
        self@.len() == 64
    }

    /// A fresh cache, every slot holding the start pixel.
    pub fn new() -> (c: PixelHistoryCache)
        ensures
            c.wf(),
            c@ == start_cache(),
    {
        let mut slots: Vec<Pixel> = Vec::new();
        let mut i: usize = 0;
        while i < 64
            invariant
                i <= 64,
                slots@.len() == i,
                forall|j: int| 0 <= j < i ==> slots@[j] == start_pixel(),
            decreases 64 - i,
        {
            slots.push(Pixel { r: 0, g: 0, b: 0, a: 255 });
            i = i + 1;
        }
        let c = PixelHistoryCache { slots };
        proof {
            assert(c@ =~= start_cache());
        }
        c
    }

    /// Reads the slot at `i`; slots always hold a pixel.
    pub fn lookup(&self, i: usize) -> (p: Pixel)
        requires
            self.wf(),
            i < 64,
        ensures
            p == self@[i as int],
    {
        self.slots[i]
    }

    /// Overwrites the slot at `i` unconditionally.
    pub fn store(&mut self, i: usize, p: Pixel)
        requires
            old(self).wf(),
            i < 64,
        ensures
            final(self).wf(),
            final(self)@ == old(self)@.update(i as int, p),
    {
        self.slots.set(i, p);
    }
}

} // verus!
