//! A lossless image codec for an early revision of the QOI ("Quite OK Image")
//! format: a last-pixel predictor, a 64-entry colour cache indexed by an XOR
//! hash, run-length encoding and three sizes of colour-difference tags.
//!
//! Both directions are pure transducers over byte sequences. The behaviour of
//! each is stated as a spec function (`encoded`, `decoding`) and the two are
//! proved inverse to one another in `laws`.
use vstd::prelude::*;

pub mod codec;
pub mod decoder;
pub mod encoder;
pub mod header;
pub mod laws;
pub mod pixel;

pub use decoder::{DecodeError, decode};
pub use encoder::{dims_valid, encode, verify_and_calculate_dims};
pub use pixel::{ChannelCount, Pixel};
