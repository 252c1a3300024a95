//! Base64 in both directions, byte by byte and lane by lane.
//!
//! `alphabet` holds the sixty-four symbols, and `model` says what the text of
//! a byte sequence is and what bytes a text stands for. `base64` is the codec
//! that works a byte at a time. `base64_simd` is the codec that works on
//! vectors of a fixed number of byte lanes, with the operations on such
//! vectors in `lanes`. Both codecs are proved against `model`, and so against
//! each other. `common` holds what the two share.

pub mod alphabet;
pub mod base64;
pub mod base64_simd;
pub mod common;
pub mod lanes;
pub mod model;
