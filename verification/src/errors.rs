//! Error taxonomy shared by the DLXB and DLXS codecs.
//!
//! Every failure carries the field values that triggered it, so a caller can
//! diagnose a bad exchange without re-reading raw bytes.

use vstd::prelude::*;

verus! {

/// A fatal condition raised while encoding or decoding a packet.
///
/// `UnexpectedEof` is truncation: the stream ended after a frame had begun.
/// A clean end of stream between packets is never reported as an error;
/// the read entry points return "no packet" for that case instead.
#[derive(Debug, Clone, PartialEq, Eq)]
pub enum DlxError {
    /// The stream ended with `read` of the `needed` bytes of a field or row
    /// already consumed.
    UnexpectedEof { needed: usize, read: usize },
    /// A header carried `found` where the protocol's magic number was
    /// `expected`.
    InvalidMagic { found: u32, expected: u32 },
    /// A header carried version `found` where only `expected` is understood.
    UnsupportedVersion { found: u16, expected: u16 },
    /// A row declared `count` entries, more than the 16-bit entry-count field
    /// can carry.
    TooManyEntries { count: usize },
    /// A packet was built from `count` rows, more than the 32-bit row-count
    /// field can carry.
    RowCountOverflow { count: usize },
    /// A caller handed a solution row equal to the reserved sentinel to the
    /// packet constructor; the offending position is `index`.
    SentinelRow { index: usize },
    /// The underlying transport failed; the message is passed through
    /// unchanged.
    Transport { message: String },
}

} // verus!
