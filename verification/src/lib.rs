//! Verified building blocks of a WebP codec: the boolean (VP8) range coder,
//! the VP8L bit writer, the lossless color cache, byte-order helpers and the
//! fast alpha-filter estimator.

pub mod utils;
pub mod webp;
