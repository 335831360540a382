//! Binary wire protocols for exchanging exact-cover problems and solutions
//! with an external solver over a byte stream, together with the domain
//! records that surround them.
//!
//! The core is the pair of codecs: DLXB carries a cover matrix to the
//! solver as counted sparse rows, and DLXS streams selected rows back,
//! terminated by a sentinel. Both sit on shared frame primitives that read
//! big-endian integers from an arbitrarily fragmented byte stream and keep
//! a clean end of stream apart from truncation.

pub mod chunk;
pub mod config;
pub mod dlxb;
pub mod dlxs;
pub mod errors;
pub mod extensions;
pub mod frame;
pub mod model;
pub mod net;
pub mod satellite;
pub mod stream;
