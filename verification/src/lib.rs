//! Decoder for the NCW compressed multichannel PCM audio container.
//!
//! An NCW file holds a 120-byte header, a table of 32-bit block offsets,
//! and a data region of block-groups (one fixed-capacity block per channel).
//! Each block is compressed by one of three schemes: raw samples at the
//! file's native bit depth, deltas from a running base value, or samples
//! bit-truncated to a reduced width. This crate parses the container from
//! an in-memory byte source and reconstructs the interleaved 32-bit samples.

pub mod bitstream;
pub mod error;
pub mod read_bytes;
pub mod reader;

pub use bitstream::read_packed_values_i32;
pub use error::NcwError;
pub use read_bytes::FromBytes;
pub use reader::{
    BlockHeader, ChannelEncoding, NcwHeader, NcwReader, SampleFormat, decode_delta_block_i32,
    decode_truncated_block_i32,
};
