//! Lossless PNG re-encoding: color-model reduction, palette construction and
//! a brute-force search over scan-line filters for the smallest encoding.
pub mod layout;
pub mod reduce;
pub mod palette;
pub mod codec;
