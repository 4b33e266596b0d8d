//! The predictor state that the encoder and the decoder share.
use vstd::prelude::*;
use crate::pixel::{Pixel, opaque_black, transparent_black};

verus! {

/// Number of slots of the colour cache.
pub const CACHE_SIZE: usize = 64;

/// Longest run that one instruction holds.
pub const MAX_RUN_LENGTH: u32 = 0x2020;

/// Shortest run that takes the two-byte run instruction.
pub const MAX_RUN_8_LENGTH: u32 = 33;

/// Number of zero bytes that close the image data.
pub const PADDING_LEN: usize = 4;

/// The state of either side of the codec between two pixels: the last pixel,
/// the colour cache and the length of the pending run.
pub struct CodecState {
    pub px: Pixel,
    pub cache: Seq<Pixel>,
    pub run: nat,
}

/// Opaque black as the last pixel, an all-zero cache and no run.
pub open spec fn initial_state() -> CodecState {
    CodecState {
        px: opaque_black(),
        cache: Seq::new(CACHE_SIZE as nat, |i: int| transparent_black()),
        run: 0,
    }
}

/// A fresh all-zero cache.
pub fn new_cache() -> (cache: Vec<Pixel>)
    ensures
        cache@ == initial_state().cache,
{
    let mut cache: Vec<Pixel> = Vec::new();
    let mut i: usize = 0;
    while i < CACHE_SIZE
        invariant
            i <= CACHE_SIZE,
            cache@ == Seq::new(i as nat, |j: int| transparent_black()),
        decreases CACHE_SIZE - i,
    {
        cache.push(Pixel { r: 0, g: 0, b: 0, a: 0 });
        i += 1;
        assert(cache@ =~= Seq::new(i as nat, |j: int| transparent_black()));
    }
    cache
}

} // verus!
