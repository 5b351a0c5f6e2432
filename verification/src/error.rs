use vstd::prelude::*;

verus! {

/// A terminal failure of a decode call. No variant is ever recovered from
/// locally: the caller may re-open and re-decode, but the decoder keeps no
/// partial state across an error.
#[derive(Debug, PartialEq, Eq, Structural, Clone, Copy)]
pub enum NcwError {
    /// The 8-byte magic at the start of the file matches neither accepted
    /// format sub-version.
    InvalidFileSignature,
    /// The 4-byte magic at the start of a block header is wrong.
    InvalidBlockSignature,
    /// Fewer bytes were available than a fixed-size read required; carries
    /// the number of bytes (or, for the final sample-count check, samples)
    /// that were required.
    ShortRead(usize),
    /// A block's flags select mid-side channel encoding, which this decoder
    /// does not support.
    UnsupportedChannelEncoding,
    /// A block's flags select floating-point sample payloads, which this
    /// decoder does not support.
    UnsupportedSampleFormat,
    /// A block declares a sample width the decoder cannot represent: a
    /// packed width outside 1..=32 bits, or a raw depth not 8, 16, 24 or 32.
    UnsupportedBitWidth,
    /// An error of the underlying byte source. Never produced by this
    /// library, which reads from memory; callers that fill the byte source
    /// from a file map their I/O failures to this variant.
    IoFailure,
}

} // verus!
