//! NCW container parsing and the block decode pipeline.
//!
//! A file holds a 120-byte header, an offset table of 32-bit words, and a
//! data region of block-groups: at each table offset, one 16-byte block
//! header plus payload per channel, stored back to back. Every block
//! reconstructs to exactly 512 samples; the final block-group is trimmed so
//! each channel ends at the declared sample count, and the channels are then
//! interleaved frame-major.

use crate::bitstream::{packed_values, read_packed_values_i32, sign_extend};
use crate::error::NcwError;
use crate::read_bytes::{as_signed, be_val, le_val, le_bytes_to_u64, take_i16_le, take_i32_le,
    take_u16_le, take_u32_be, take_u32_le, take_u64_be};
use vstd::arithmetic::power2::pow2;
use vstd::prelude::*;
use vstd::slice::slice_subrange;

verus! {

/// Size of the fixed preamble at the start of a file.
pub const HEADER_SIZE: usize = 120;

/// Size of the header that starts each per-channel block.
pub const BLOCK_HEADER_SIZE: usize = 16;

/// Fixed sample capacity of one block.
pub const MAX_SAMPLES_PER_BLOCK: usize = 512;

/// Big-endian magic at the start of every block header.
pub const BLOCK_MAGIC: u32 = 0x160C9A3E;

/// A decoding session: the byte source it exclusively owns, the parsed
/// header, and the block-offset table.
#[derive(Debug)]
pub struct NcwReader {
    /// The whole file, held in memory.
    pub data: Vec<u8>,
    /// The parsed 120-byte preamble.
    pub header: NcwHeader,
    /// Byte offsets of the block-groups, relative to `header.data_offset`.
    pub block_offsets: Vec<u32>,
    /// Cursor over `block_offsets`; starts at 0.
    pub current_block: usize,
}

/// The fields of the fixed file preamble.
#[derive(Debug, PartialEq, Eq, Structural, Clone, Copy)]
pub struct NcwHeader {
    /// Number of channels per frame.
    pub channels: u16,
    /// Native bit depth of the stored samples: 8, 16, 24 or 32.
    pub bits_per_sample: u16,
    /// Frames per second.
    pub sample_rate: u32,
    /// Samples per channel, not total.
    pub num_samples: u32,
    /// File offset where the block-offset table starts.
    pub blocks_offset: u32,
    /// File offset where the block data region starts.
    pub data_offset: u32,
    /// Declared size of the data region.
    pub data_size: u32,
}

/// The fields of one 16-byte block header.
#[derive(Debug, PartialEq, Eq, Structural, Clone, Copy)]
pub struct BlockHeader {
    /// Seed of the running base value in delta mode; unused otherwise.
    pub base_value: i32,
    /// Mode selector: positive is the delta width in bits, negative the
    /// truncated width's negated magnitude, zero is raw mode.
    pub bits: i16,
    /// Bit 0: channel-encoding mode; bit 1: sample format.
    pub flags: u16,
}

/// How the two channels of a stereo pair are stored.
#[derive(Debug, PartialEq, Eq, Structural, Clone, Copy)]
pub enum ChannelEncoding {
    /// Channels are stored independently.
    LeftRight,
    /// Mid-side encoding; not supported by this decoder.
    MidSide,
}

/// The numeric format of the stored samples.
#[derive(Debug, PartialEq, Eq, Structural, Clone, Copy)]
pub enum SampleFormat {
    /// Integer samples.
    PCM,
    /// Floating-point samples; not supported by this decoder.
    Float,
}

/// Whether a block's flags select mid-side channel encoding.
pub open spec fn midside_flag(flags: u16) -> bool {
    flags & 1 == 1
}

/// Whether a block's flags select floating-point samples.
pub open spec fn float_flag(flags: u16) -> bool {
    flags & 2 == 2
}

impl BlockHeader {
    /// The channel-encoding mode bit 0 of the flags selects.
    pub fn channel_encoding(&self) -> (r: ChannelEncoding)
        ensures
            r == (if midside_flag(self.flags) {
                ChannelEncoding::MidSide
            } else {
                ChannelEncoding::LeftRight
            }),
    {
        if self.flags & 1 == 1 {
            ChannelEncoding::MidSide
        } else {
            ChannelEncoding::LeftRight
        }
    }

    /// The sample format bit 1 of the flags selects.
    pub fn sample_format(&self) -> (r: SampleFormat)
        ensures
            r == (if float_flag(self.flags) {
                SampleFormat::Float
            } else {
                SampleFormat::PCM
            }),
    {
        if self.flags & 2 == 2 {
            SampleFormat::Float
        } else {
            SampleFormat::PCM
        }
    }
}

/// The two accepted 8-byte file magics, one per known format sub-version.
pub open spec fn valid_file_magic(m: nat) -> bool {
    m == 0x01A89ED631010000 || m == 0x01A89ED630010000
}

/// The header fields the preamble bytes denote: all little-endian, in fixed
/// declared order right after the 8-byte magic.
pub open spec fn spec_header(data: Seq<u8>) -> NcwHeader
    recommends
        data.len() >= 120,
{
    NcwHeader {
        channels: le_val(data.subrange(8, 10)) as u16,
        bits_per_sample: le_val(data.subrange(10, 12)) as u16,
        sample_rate: le_val(data.subrange(12, 16)) as u32,
        num_samples: le_val(data.subrange(16, 20)) as u32,
        blocks_offset: le_val(data.subrange(20, 24)) as u32,
        data_offset: le_val(data.subrange(24, 28)) as u32,
        data_size: le_val(data.subrange(28, 32)) as u32,
    }
}

/// What parsing the preamble returns: the header, or `ShortRead` when fewer
/// than 120 bytes are available, or `InvalidFileSignature` when the 8-byte
/// big-endian magic matches neither accepted constant.
pub open spec fn spec_parse_header(data: Seq<u8>) -> Result<NcwHeader, NcwError> {
    if data.len() < 120 {
        Err(NcwError::ShortRead(120))
    } else if !valid_file_magic(be_val(data.subrange(0, 8))) {
        Err(NcwError::InvalidFileSignature)
    } else {
        Ok(spec_header(data))
    }
}

impl NcwHeader {
    /// Parse the fixed 120-byte preamble at the start of `data`: validate
    /// the magic, then read the fields little-endian.
    pub fn read(data: &[u8]) -> (r: Result<NcwHeader, NcwError>)
        ensures
            r == spec_parse_header(data@),
    {
        let n = data.len();
        if n < HEADER_SIZE {
            return Err(NcwError::ShortRead(HEADER_SIZE));
        }
        let magic = take_u64_be(data, 0);
        if !(magic == 0x01A89ED631010000u64 || magic == 0x01A89ED630010000u64) {
            return Err(NcwError::InvalidFileSignature);
        }
        Ok(
            NcwHeader {
                channels: take_u16_le(data, 8),
                bits_per_sample: take_u16_le(data, 10),
                sample_rate: take_u32_le(data, 12),
                num_samples: take_u32_le(data, 16),
                blocks_offset: take_u32_le(data, 20),
                data_offset: take_u32_le(data, 24),
                data_size: take_u32_le(data, 28),
            },
        )
    }
}

/// What parsing the block header at `pos` returns: its fields, or
/// `ShortRead` when fewer than 16 bytes remain, or `InvalidBlockSignature`
/// when the 4-byte big-endian magic is wrong. Of the 16 bytes, the last 4
/// are reserved padding.
pub open spec fn spec_parse_block_header(data: Seq<u8>, pos: int) -> Result<
    BlockHeader,
    NcwError,
> {
    if pos + 16 > data.len() {
        Err(NcwError::ShortRead(16))
    } else if be_val(data.subrange(pos, pos + 4)) != BLOCK_MAGIC {
        Err(NcwError::InvalidBlockSignature)
    } else {
        Ok(
            BlockHeader {
                base_value: as_signed(le_val(data.subrange(pos + 4, pos + 8)), 32) as i32,
                bits: as_signed(le_val(data.subrange(pos + 8, pos + 10)), 16) as i16,
                flags: le_val(data.subrange(pos + 10, pos + 12)) as u16,
            },
        )
    }
}

impl BlockHeader {
    /// Parse the 16-byte block header at byte position `pos` of `data`.
    pub fn read(data: &[u8], pos: usize) -> (r: Result<BlockHeader, NcwError>)
        ensures
            r == spec_parse_block_header(data@, pos as int),
    {
        let n = data.len();
        if n < BLOCK_HEADER_SIZE || pos > n - BLOCK_HEADER_SIZE {
            return Err(NcwError::ShortRead(BLOCK_HEADER_SIZE));
        }
        let magic = take_u32_be(data, pos);
        if magic != BLOCK_MAGIC {
            return Err(NcwError::InvalidBlockSignature);
        }
        Ok(
            BlockHeader {
                base_value: take_i32_le(data, pos + 4),
                bits: take_i16_le(data, pos + 8),
                flags: take_u16_le(data, pos + 10),
            },
        )
    }
}

/// The sample widths the decoder can represent: packed widths of 1..=32
/// bits, and raw depths of 8, 16, 24 or 32 bits.
pub open spec fn spec_width_ok(bits: int, bits_per_sample: nat) -> bool {
    if bits == 0 {
        bits_per_sample == 8 || bits_per_sample == 16 || bits_per_sample == 24 || bits_per_sample
            == 32
    } else {
        -32 <= bits <= 32
    }
}

/// Byte length of one block's payload: `|bits| * 64` in the packed modes
/// (512 samples at `|bits|` bits each), or 512 samples at the file's native
/// byte width in raw mode.
pub open spec fn spec_payload_len(bits: int, bits_per_sample: nat) -> int {
    if bits == 0 {
        512 * (bits_per_sample / 8) as int
    } else if bits < 0 {
        -bits * 64
    } else {
        bits * 64
    }
}

/// The 512 samples a raw-mode payload denotes: consecutive little-endian
/// fields of the native byte width, each sign-extended from that width.
pub open spec fn spec_raw_samples(payload: Seq<u8>, bytes_per_sample: nat) -> Seq<i32>
    recommends
        1 <= bytes_per_sample <= 4,
        payload.len() == 512 * bytes_per_sample,
{
    Seq::new(
        512,
        |i: int| as_signed(
            le_val(payload.subrange(i * bytes_per_sample, (i + 1) * bytes_per_sample)),
            8 * bytes_per_sample,
        ) as i32,
    )
}

/// Delta reconstruction: sample `i` is the base value advanced by the first
/// `i` deltas, each step wrapping as 32-bit two's complement.
pub open spec fn spec_delta_sample(base: i32, deltas: Seq<i32>, i: int) -> i32
    decreases i,
{
    if i <= 0 {
        base
    } else {
        vstd::wrapping::i32_specs::wrapping_add(spec_delta_sample(base, deltas, i - 1), deltas[i
            - 1])
    }
}

/// The 512 samples a delta-mode block reconstructs to. The last unpacked
/// delta seeds no sample here: 512 deltas are decoded but sample `i` only
/// consumes deltas `0 .. i`.
pub open spec fn spec_delta_samples(base: i32, deltas: Seq<i32>) -> Seq<i32> {
    Seq::new(512, |i: int| spec_delta_sample(base, deltas, i))
}

/// The samples one block's payload denotes, by the sign of the header's
/// `bits` field: positive is delta mode, negative truncated mode, zero raw
/// mode at the file's native depth.
pub open spec fn spec_block_samples(
    payload: Seq<u8>,
    bh: BlockHeader,
    bits_per_sample: u16,
) -> Seq<i32> {
    if bh.bits > 0 {
        spec_delta_samples(bh.base_value, packed_values(payload, bh.bits as nat))
    } else if bh.bits < 0 {
        packed_values(payload, (-(bh.bits as int)) as nat)
    } else {
        spec_raw_samples(payload, (bits_per_sample as nat) / 8)
    }
}

/// Unpack a truncated-mode payload: every `bit_size`-wide field is itself a
/// sample, sign-extended, with no delta accumulation.
pub fn decode_truncated_block_i32(data: &[u8], bit_size: usize) -> (samples: Vec<i32>)
    requires
        1 <= bit_size <= 32,
    ensures
        samples@ == packed_values(data@, bit_size as nat),
{
    read_packed_values_i32(data, bit_size)
}

/// Reconstruct a delta-mode block: unpack 512 deltas of width `bits`, then
/// run the base value through them, emitting the running value before each
/// step. Each step wraps as 32-bit two's complement.
pub fn decode_delta_block_i32(base_sample: i32, deltas: &[u8], bits: usize) -> (samples: Vec<
    i32,
>)
    requires
        1 <= bits <= 32,
        deltas@.len() == bits * 64,
    ensures
        samples@ == spec_delta_samples(base_sample, packed_values(deltas@, bits as nat)),
{
    let delta_values = read_packed_values_i32(deltas, bits);
    proof {
        assert(deltas@.len() * 8 == bits * 512) by (nonlinear_arith)
            requires
                deltas@.len() == bits * 64,
        ;
        vstd::arithmetic::div_mod::lemma_div_multiples_vanish(512, bits as int);
        assert(delta_values@.len() == 512);
    }
    let mut samples: Vec<i32> = Vec::new();
    let mut prev_base: i32 = base_sample;
    let mut i: usize = 0;
    while i < MAX_SAMPLES_PER_BLOCK
        invariant
            0 <= i <= 512,
            delta_values@ == packed_values(deltas@, bits as nat),
            delta_values@.len() == 512,
            samples@.len() == i,
            prev_base == spec_delta_sample(base_sample, delta_values@, i as int),
            forall|j: int|
                0 <= j < i ==> #[trigger] samples@[j] == spec_delta_sample(
                    base_sample,
                    delta_values@,
                    j,
                ),
        decreases 512 - i,
    {
        samples.push(prev_base);
        prev_base = prev_base.wrapping_add(delta_values[i]);
        i = i + 1;
    }
    proof {
        assert(samples@ =~= spec_delta_samples(base_sample, packed_values(deltas@, bits as nat)));
    }
    samples
}

/// Decode a raw-mode payload: 512 consecutive little-endian samples of
/// `bytes_per_sample` bytes each, sign-extended from the native width.
fn decode_raw_block_i32(payload: &[u8], bytes_per_sample: usize) -> (samples: Vec<i32>)
    requires
        1 <= bytes_per_sample <= 4,
        payload@.len() == 512 * bytes_per_sample,
    ensures
        samples@ == spec_raw_samples(payload@, bytes_per_sample as nat),
{
    let mut samples: Vec<i32> = Vec::new();
    let mut i: usize = 0;
    proof {
        vstd::arithmetic::power2::lemma2_to64();
    }
    while i < MAX_SAMPLES_PER_BLOCK
        invariant
            0 <= i <= 512,
            1 <= bytes_per_sample <= 4,
            payload@.len() == 512 * bytes_per_sample,
            samples@.len() == i,
            forall|j: int|
                0 <= j < i ==> #[trigger] samples@[j] == spec_raw_samples(
                    payload@,
                    bytes_per_sample as nat,
                )[j],
        decreases 512 - i,
    {
        proof {
            assert((i + 1) * bytes_per_sample <= 512 * bytes_per_sample && i * bytes_per_sample
                + bytes_per_sample == (i + 1) * bytes_per_sample) by (nonlinear_arith)
                requires
                    0 <= i < 512,
                    1 <= bytes_per_sample <= 4,
            ;
        }
        let start = i * bytes_per_sample;
        let s = slice_subrange(payload, start, start + bytes_per_sample);
        let v = le_bytes_to_u64(s);
        proof {
            crate::read_bytes::lemma_le_val_bound(s@);
            vstd::arithmetic::power2::lemma2_to64();
            if bytes_per_sample < 4 {
                vstd::arithmetic::power2::lemma_pow2_strictly_increases(
                    8 * bytes_per_sample as nat,
                    32,
                );
            }
        }
        let sample = sign_extend(v as u32, 8 * bytes_per_sample);
        samples.push(sample);
        proof {
            let j = i as int;
            let bps = bytes_per_sample as int;
            assert(s@ == payload@.subrange(j * bps, (j + 1) * bps));
            assert(samples@[j] == spec_raw_samples(payload@, bytes_per_sample as nat)[j]);
        }
        i = i + 1;
    }
    proof {
        assert(samples@ =~= spec_raw_samples(payload@, bytes_per_sample as nat));
    }
    samples
}

impl NcwReader {
    /// Decode one block's payload into its 512 samples, dispatching on the
    /// sign of the block header's `bits` field: positive widths are delta
    /// mode, negative truncated mode, zero raw mode at the file's native
    /// depth.
    pub fn read_i32_block(&self, block_data: &[u8], block_header: &BlockHeader) -> (samples: Vec<
        i32,
    >)
        requires
            spec_width_ok(block_header.bits as int, self.header.bits_per_sample as nat),
            block_data@.len() == spec_payload_len(
                block_header.bits as int,
                self.header.bits_per_sample as nat,
            ),
        ensures
            samples@ == spec_block_samples(
                block_data@,
                *block_header,
                self.header.bits_per_sample,
            ),
    {
        if block_header.bits > 0 {
            let bits = block_header.bits as usize;
            decode_delta_block_i32(block_header.base_value, block_data, bits)
        } else if block_header.bits < 0 {
            let bits = (-(block_header.bits as i32)) as usize;
            decode_truncated_block_i32(block_data, bits)
        } else {
            let bytes_per_sample = (self.header.bits_per_sample / 8) as usize;
            decode_raw_block_i32(block_data, bytes_per_sample)
        }
    }
}

/// Number of offset-table slots the header delimits: one word per 4 bytes
/// between `blocks_offset` and `data_offset`.
pub open spec fn spec_num_blocks(h: NcwHeader) -> int {
    (h.data_offset - h.blocks_offset) / 4
}

/// The block-offset table: `num_blocks - 1` little-endian words read
/// sequentially right after the 120-byte preamble. The table on disk omits
/// the first block's offset, and the decoder enumerates exactly the words
/// it reads: no zero entry is synthesized for a logical first block.
pub open spec fn spec_offsets(data: Seq<u8>, num_blocks: int) -> Seq<u32>
    recommends
        120 + 4 * (num_blocks - 1) <= data.len(),
{
    Seq::new(
        if num_blocks >= 1 {
            (num_blocks - 1) as nat
        } else {
            0
        },
        |j: int| le_val(data.subrange(120 + 4 * j, 124 + 4 * j)) as u32,
    )
}

/// What opening a byte source returns: the parsed header and offset table,
/// or the first error of header validation (`ShortRead`,
/// `InvalidFileSignature`, also for a table region that ends before it
/// starts) or of reading the table words (`ShortRead`).
pub open spec fn spec_read(data: Seq<u8>) -> Result<(NcwHeader, Seq<u32>), NcwError> {
    match spec_parse_header(data) {
        Err(e) => Err(e),
        Ok(h) => {
            if h.data_offset < h.blocks_offset {
                Err(NcwError::InvalidFileSignature)
            } else {
                let nb = spec_num_blocks(h);
                if nb >= 2 && data.len() < 120 + 4 * (nb - 1) {
                    Err(NcwError::ShortRead(4))
                } else {
                    Ok((h, spec_offsets(data, nb)))
                }
            }
        },
    }
}

impl NcwReader {
    /// Open a byte source: parse the 120-byte preamble, then read the
    /// offset table that follows it, and take ownership of the source for
    /// the decoding session.
    pub fn read(data: Vec<u8>) -> (r: Result<NcwReader, NcwError>)
        ensures
            match (r, spec_read(data@)) {
                (Ok(rd), Ok((h, offs))) => rd.data@ == data@ && rd.header == h
                    && rd.block_offsets@ == offs && rd.current_block == 0,
                (Err(e1), Err(e2)) => e1 == e2,
                _ => false,
            },
    {
        let header = match NcwHeader::read(data.as_slice()) {
            Ok(h) => h,
            Err(e) => { return Err(e) },
        };
        if header.data_offset < header.blocks_offset {
            return Err(NcwError::InvalidFileSignature);
        }
        let block_offsets_len = header.data_offset - header.blocks_offset;
        let num_blocks = block_offsets_len / 4;

        let mut block_offsets: Vec<u32> = Vec::new();
        let n = data.len();
        let mut j: u32 = 1;
        while j < num_blocks
            invariant
                1 <= j,
                num_blocks == 0 ==> j == 1,
                num_blocks >= 1 ==> j <= num_blocks,
                j > 1 ==> 120 + 4 * (j as int - 1) <= n,
                spec_parse_header(data@) == Ok::<NcwHeader, NcwError>(header),
                header.data_offset >= header.blocks_offset,
                num_blocks == spec_num_blocks(header),
                num_blocks <= 0x4000_0000,
                n == data@.len(),
                block_offsets@.len() == j - 1,
                forall|i: int|
                    0 <= i < j - 1 ==> #[trigger] block_offsets@[i] == le_val(
                        data@.subrange(120 + 4 * i, 124 + 4 * i),
                    ) as u32,
            decreases num_blocks - j,
    {
            let pos: u64 = 120u64 + 4u64 * ((j - 1) as u64);
            if pos + 4 > n as u64 {
                return Err(NcwError::ShortRead(4));
            }
            let word = take_u32_le(data.as_slice(), pos as usize);
            block_offsets.push(word);
            proof {
                assert(word == le_val(
                    data@.subrange(120 + 4 * (j as int - 1), 124 + 4 * (j as int - 1)),
                ) as u32);
            }
            j = j + 1;
        }
        proof {
            let nb = num_blocks as int;
            let so = spec_offsets(data@, nb);
            assert(block_offsets@.len() == so.len());
            assert forall|i: int| 0 <= i < so.len() implies block_offsets@[i] == so[i] by {
                assert(block_offsets@[i] == le_val(data@.subrange(120 + 4 * i, 124 + 4 * i))
                    as u32);
                assert(so[i] == le_val(data@.subrange(120 + 4 * i, 124 + 4 * i)) as u32);
            }
            assert(block_offsets@ =~= so);
        }
        Ok(
            NcwReader {
                data,
                header,
                block_offsets,
                current_block: 0,
            },
        )
    }
}

/// Decode of the single channel block at `pos`: parse and validate its
/// 16-byte header, reject unsupported flag modes and widths, read the
/// payload, and reconstruct the samples. Returns the samples together with
/// the position just past the payload, where the next channel's block
/// starts.
pub open spec fn spec_channel_block(data: Seq<u8>, pos: int, bits_per_sample: u16) -> Result<
    (Seq<i32>, int),
    NcwError,
> {
    match spec_parse_block_header(data, pos) {
        Err(e) => Err(e),
        Ok(bh) => {
            if midside_flag(bh.flags) {
                Err(NcwError::UnsupportedChannelEncoding)
            } else if float_flag(bh.flags) {
                Err(NcwError::UnsupportedSampleFormat)
            } else if !spec_width_ok(bh.bits as int, bits_per_sample as nat) {
                Err(NcwError::UnsupportedBitWidth)
            } else {
                let plen = spec_payload_len(bh.bits as int, bits_per_sample as nat);
                if pos + 16 + plen > data.len() {
                    Err(NcwError::ShortRead(plen as usize))
                } else {
                    Ok(
                        (
                            spec_block_samples(
                                data.subrange(pos + 16, pos + 16 + plen),
                                bh,
                                bits_per_sample,
                            ),
                            pos + 16 + plen,
                        ),
                    )
                }
            }
        },
    }
}

/// The `count` channel blocks of one block-group, stored back to back from
/// `pos`, each decoded by `spec_channel_block`. Stops at the first error.
pub open spec fn spec_group_channels(
    data: Seq<u8>,
    pos: int,
    count: nat,
    bits_per_sample: u16,
) -> Result<(Seq<Seq<i32>>, int), NcwError>
    decreases count,
{
    if count == 0 {
        Ok((Seq::empty(), pos))
    } else {
        match spec_channel_block(data, pos, bits_per_sample) {
            Err(e) => Err(e),
            Ok((s, p2)) => match spec_group_channels(
                data,
                p2,
                (count - 1) as nat,
                bits_per_sample,
            ) {
                Err(e) => Err(e),
                Ok((rest, p3)) => Ok((seq![s] + rest, p3)),
            },
        }
    }
}

/// Prepend already-decoded channels to the rest of a block-group decode.
pub open spec fn spec_group_prepend(
    done: Seq<Seq<i32>>,
    rest: Result<(Seq<Seq<i32>>, int), NcwError>,
) -> Result<(Seq<Seq<i32>>, int), NcwError> {
    match rest {
        Err(e) => Err(e),
        Ok((blocks, p)) => Ok((done + blocks, p)),
    }
}

/// Every successfully decoded block reconstructs exactly 512 samples.
pub proof fn lemma_block_samples_len(payload: Seq<u8>, bh: BlockHeader, bits_per_sample: u16)
    requires
        spec_width_ok(bh.bits as int, bits_per_sample as nat),
        payload.len() == spec_payload_len(bh.bits as int, bits_per_sample as nat),
    ensures
        spec_block_samples(payload, bh, bits_per_sample).len() == 512,
{
    if bh.bits > 0 {
        let w = bh.bits as nat;
        assert(payload.len() * 8 == w * 512) by (nonlinear_arith)
            requires
                payload.len() == w * 64,
        ;
        vstd::arithmetic::div_mod::lemma_div_multiples_vanish(512, w as int);
        assert(crate::bitstream::packed_count(payload.len(), w) == 512);
    } else if bh.bits < 0 {
        let w = (-(bh.bits as int)) as nat;
        assert(payload.len() * 8 == w * 512) by (nonlinear_arith)
            requires
                payload.len() == w * 64,
        ;
        vstd::arithmetic::div_mod::lemma_div_multiples_vanish(512, w as int);
        assert(crate::bitstream::packed_count(payload.len(), w) == 512);
    }
}

/// A successfully decoded channel block holds exactly 512 samples and ends
/// past its 16-byte header.
pub proof fn lemma_channel_block_shape(data: Seq<u8>, pos: int, bits_per_sample: u16)
    requires
        pos >= 0,
    ensures
        spec_channel_block(data, pos, bits_per_sample) matches Ok((s, p2)) ==> s.len() == 512
            && p2 >= pos + 16,
{
    match spec_channel_block(data, pos, bits_per_sample) {
        Err(_) => {},
        Ok((s, p2)) => {
            match spec_parse_block_header(data, pos) {
                Err(_) => {},
                Ok(bh) => {
                    let plen = spec_payload_len(bh.bits as int, bits_per_sample as nat);
                    lemma_block_samples_len(
                        data.subrange(pos + 16, pos + 16 + plen),
                        bh,
                        bits_per_sample,
                    );
                },
            }
        },
    }
}

/// A successfully decoded block-group holds one 512-sample block per
/// channel.
pub proof fn lemma_group_channels_shape(data: Seq<u8>, pos: int, count: nat, bits_per_sample: u16)
    requires
        pos >= 0,
    ensures
        spec_group_channels(data, pos, count, bits_per_sample) matches Ok(g) ==> g.0.len()
            == count && forall|c: int| 0 <= c < count ==> (#[trigger] g.0[c]).len() == 512,
    decreases count,
{
    if count > 0 {
        match spec_channel_block(data, pos, bits_per_sample) {
            Err(_) => {},
            Ok((s, p2)) => {
                lemma_channel_block_shape(data, pos, bits_per_sample);
                lemma_group_channels_shape(data, p2, (count - 1) as nat, bits_per_sample);
            },
        }
    }
}

impl NcwReader {
    /// Decode the single channel block at absolute byte position `p`:
    /// header, flag and width checks, payload, samples. Returns the samples
    /// and the position just past the payload.
    fn decode_channel_block(&self, p: u64) -> (r: Result<(Vec<i32>, u64), NcwError>)
        ensures
            match (r, spec_channel_block(self.data@, p as int, self.header.bits_per_sample)) {
                (Ok((v, p2)), Ok((s, q2))) => v@ == s && p2 as int == q2,
                (Err(e1), Err(e2)) => e1 == e2,
                _ => false,
            },
    {
        let bps = self.header.bits_per_sample;
        let n64 = self.data.len() as u64;
        if n64 < 16 || p > n64 - 16 {
            return Err(NcwError::ShortRead(BLOCK_HEADER_SIZE));
        }
        let bh = match BlockHeader::read(self.data.as_slice(), p as usize) {
            Ok(b) => b,
            Err(e) => { return Err(e) },
        };
        match bh.channel_encoding() {
            ChannelEncoding::MidSide => { return Err(NcwError::UnsupportedChannelEncoding) },
            ChannelEncoding::LeftRight => {},
        }
        match bh.sample_format() {
            SampleFormat::Float => { return Err(NcwError::UnsupportedSampleFormat) },
            SampleFormat::PCM => {},
        }
        let plen: u64 = if bh.bits == 0 {
            if !(bps == 8 || bps == 16 || bps == 24 || bps == 32) {
                return Err(NcwError::UnsupportedBitWidth);
            }
            512u64 * ((bps / 8) as u64)
        } else {
            if bh.bits > 32 || bh.bits < -32 {
                return Err(NcwError::UnsupportedBitWidth);
            }
            let mag: u64 = if bh.bits < 0 {
                (-(bh.bits as i32)) as u64
            } else {
                bh.bits as u64
            };
            mag * 64
        };
        proof {
            assert(plen == spec_payload_len(bh.bits as int, bps as nat));
            assert(spec_width_ok(bh.bits as int, bps as nat));
        }
        if plen > n64 - 16 - p {
            return Err(NcwError::ShortRead(plen as usize));
        }
        let pstart = (p + 16) as usize;
        let pend = pstart + (plen as usize);
        let payload = slice_subrange(self.data.as_slice(), pstart, pend);
        let samples = self.read_i32_block(payload, &bh);
        Ok((samples, p + 16 + plen))
    }

    /// Decode the block-group at absolute byte position `pos`: one block
    /// per channel, read back to back.
    fn decode_block_group(&self, pos: u64) -> (r: Result<Vec<Vec<i32>>, NcwError>)
        ensures
            match (r, spec_group_channels(
                self.data@,
                pos as int,
                self.header.channels as nat,
                self.header.bits_per_sample,
            )) {
                (Ok(g), Ok(br)) => g.deep_view() == br.0 && g@.len()
                    == self.header.channels as int && forall|c: int|
                    0 <= c < g@.len() ==> (#[trigger] g@[c])@.len() == 512,
                (Err(e1), Err(e2)) => e1 == e2,
                _ => false,
            },
    {
        let channels = self.header.channels as usize;
        let bps = self.header.bits_per_sample;
        let n64 = self.data.len() as u64;
        let ghost full = spec_group_channels(
            self.data@,
            pos as int,
            self.header.channels as nat,
            self.header.bits_per_sample,
        );
        let mut group: Vec<Vec<i32>> = Vec::new();
        let mut p: u64 = pos;
        let mut c: usize = 0;
        proof {
            if let Ok((blocks, q)) = full {
                assert(Seq::<Seq<i32>>::empty() + blocks =~= blocks);
            }
        }
        while c < channels
            invariant
                c <= channels,
                channels == self.header.channels as int,
                bps == self.header.bits_per_sample,
                n64 == self.data@.len(),
                group@.len() == c,
                forall|cc: int| 0 <= cc < c ==> (#[trigger] group@[cc])@.len() == 512,
                full == spec_group_channels(
                    self.data@,
                    pos as int,
                    self.header.channels as nat,
                    self.header.bits_per_sample,
                ),
                full == spec_group_prepend(
                    group.deep_view(),
                    spec_group_channels(self.data@, p as int, (channels - c) as nat, bps),
                ),
            decreases channels - c,
        {
            let ghost rest_before = spec_group_channels(
                self.data@,
                p as int,
                (channels - c) as nat,
                bps,
            );
            let (samples, p2) = match self.decode_channel_block(p) {
                Ok(sp) => sp,
                Err(e) => {
                    proof {
                        assert(rest_before == Err::<(Seq<Seq<i32>>, int), NcwError>(e));
                    }
                    return Err(e);
                },
            };
            proof {
                lemma_channel_block_shape(self.data@, p as int, bps);
            }
            let ghost old_dv = group.deep_view();
            group.push(samples);
            proof {
                assert(group.deep_view() =~~= old_dv.push(samples@));
                let rest_after = spec_group_channels(
                    self.data@,
                    p2 as int,
                    (channels - c - 1) as nat,
                    bps,
                );
                if let Ok((restb, p3)) = rest_after {
                    assert(old_dv + (seq![samples@] + restb) =~~= old_dv.push(samples@) + restb);
                }
            }
            p = p2;
            c = c + 1;
        }
        proof {
            assert(spec_group_channels(self.data@, p as int, 0, bps) == Ok::<
                (Seq<Seq<i32>>, int),
                NcwError,
            >((Seq::empty(), p as int)));
            if let Ok((blocks, q)) = full {
                assert(group.deep_view() + Seq::<Seq<i32>>::empty() =~~= group.deep_view());
            }
        }
        Ok(group)
    }
}

/// Every block-group of the offset table from index `i` on, decoded: group
/// `i` sits at `data_offset + offs[i]`. Stops at the first error.
pub open spec fn spec_collect_groups(data: Seq<u8>, h: NcwHeader, offs: Seq<u32>, i: int) -> Result<
    Seq<Seq<Seq<i32>>>,
    NcwError,
>
    decreases offs.len() - i,
{
    if i < 0 || i >= offs.len() {
        Ok(Seq::empty())
    } else {
        match spec_group_channels(
            data,
            h.data_offset + offs[i],
            h.channels as nat,
            h.bits_per_sample,
        ) {
            Err(e) => Err(e),
            Ok((blocks, _)) => match spec_collect_groups(data, h, offs, i + 1) {
                Err(e) => Err(e),
                Ok(rest) => Ok(seq![blocks] + rest),
            },
        }
    }
}

/// The samples one block contributes to its channel's buffer: all 512,
/// except in the final block-group, where only the first `overflow` are
/// appended and the rest are discarded as padding.
pub open spec fn spec_kept(samples: Seq<i32>, is_final: bool, overflow: int) -> Seq<i32> {
    if is_final {
        samples.take(overflow)
    } else {
        samples
    }
}

/// Channel `c`'s buffer built from block-group `i` on: the kept samples of
/// each of its blocks, concatenated in block order.
pub open spec fn spec_channel_tail(groups: Seq<Seq<Seq<i32>>>, c: int, i: int, overflow: int) -> Seq<
    i32,
>
    decreases groups.len() - i,
{
    if i < 0 || i >= groups.len() {
        Seq::empty()
    } else {
        spec_kept(groups[i][c], i == groups.len() - 1, overflow) + spec_channel_tail(
            groups,
            c,
            i + 1,
            overflow,
        )
    }
}

/// The per-channel count of samples kept from the final block-group:
/// trailing padding exists because blocks hold exactly 512 samples while
/// the declared total is arbitrary. Zero means the final block-group
/// contributes nothing.
pub open spec fn spec_overflow(h: NcwHeader) -> int
    recommends
        h.channels > 0,
{
    ((h.num_samples * h.channels) % 512) / (h.channels as int)
}

/// Frame-major interleave of the first `num` frames: frame `f` holds one
/// sample of every channel in channel order.
pub open spec fn spec_interleave(chans: Seq<Seq<i32>>, num: int) -> Seq<i32>
    recommends
        chans.len() > 0,
        num >= 0,
{
    Seq::new(
        (num * chans.len()) as nat,
        |j: int| chans[j % chans.len() as int][j / chans.len() as int],
    )
}

/// Every channel's complete buffer, built from the decoded block-groups.
pub open spec fn spec_channels(groups: Seq<Seq<Seq<i32>>>, h: NcwHeader) -> Seq<Seq<i32>> {
    Seq::new(h.channels as nat, |c: int| spec_channel_tail(groups, c, 0, spec_overflow(h)))
}

/// Whether every channel buffer reaches the declared per-channel count.
pub open spec fn spec_channels_full(chans: Seq<Seq<i32>>, h: NcwHeader) -> bool {
    forall|c: int| 0 <= c < chans.len() ==> (#[trigger] chans[c]).len() >= h.num_samples
}

/// The complete decode of a parsed session: decode every block-group,
/// build each channel's buffer with final-block trimming, demand that every
/// channel reaches the declared sample count, and interleave. With zero
/// declared channels the output is empty.
pub open spec fn spec_decode_samples(data: Seq<u8>, h: NcwHeader, offs: Seq<u32>) -> Result<
    Seq<i32>,
    NcwError,
> {
    if h.channels == 0 {
        Ok(Seq::empty())
    } else {
        match spec_collect_groups(data, h, offs, 0) {
            Err(e) => Err(e),
            Ok(groups) => {
                if spec_channels_full(spec_channels(groups, h), h) {
                    Ok(spec_interleave(spec_channels(groups, h), h.num_samples as int))
                } else {
                    Err(NcwError::ShortRead(h.num_samples as usize))
                }
            },
        }
    }
}

impl NcwReader {
    /// Decode all blocks into contiguous interleaved 32-bit PCM samples:
    /// every block-group in offset-table order, every channel within it,
    /// with the final block-group trimmed so each channel holds the
    /// declared sample count, then interleaved frame-major. The session
    /// itself is left unchanged.
    pub fn decode_samples(&mut self) -> (r: Result<Vec<i32>, NcwError>)
        ensures
            final(self).data@ == old(self).data@,
            final(self).header == old(self).header,
            final(self).block_offsets@ == old(self).block_offsets@,
            final(self).current_block == old(self).current_block,
            match (r, spec_decode_samples(
                old(self).data@,
                old(self).header,
                old(self).block_offsets@,
            )) {
                (Ok(v), Ok(s)) => v@ == s,
                (Err(e1), Err(e2)) => e1 == e2,
                _ => false,
            },
            r matches Ok(v) ==> v@.len() == old(self).header.num_samples as int * old(
                self,
            ).header.channels as int,
    {
        let ghost gdata = self.data@;
        let ghost h = self.header;
        let ghost offs = self.block_offsets@;
        let channels = self.header.channels as usize;
        if channels == 0 {
            let empty_out: Vec<i32> = Vec::new();
            return Ok(empty_out);
        }
        let num_samples = self.header.num_samples as usize;
        proof {
            assert((h.num_samples as int) * (h.channels as int) <= 0xFFFF_FFFF * 0xFFFF)
                by (nonlinear_arith)
                requires
                    h.num_samples <= 0xFFFF_FFFFu32,
                    h.channels <= 0xFFFFu16,
            ;
        }
        let total: u64 = (self.header.num_samples as u64) * (self.header.channels as u64);
        let overflow: usize = ((total % 512) / (self.header.channels as u64)) as usize;
        proof {
            assert(overflow == spec_overflow(h));
            assert(overflow < 512) by {
                assert(total % 512 < 512);
                vstd::arithmetic::div_mod::lemma_div_is_ordered(
                    (total % 512) as int,
                    511,
                    h.channels as int,
                );
                vstd::arithmetic::div_mod::lemma_div_nonincreasing(511, h.channels as int);
            }
        }

        // Decode every block-group in offset-table order.
        let mut groups: Vec<Vec<Vec<i32>>> = Vec::new();
        let nblocks = self.block_offsets.len();
        let mut i: usize = 0;
        proof {
            if let Ok(rest) = spec_collect_groups(gdata, h, offs, 0) {
                assert(Seq::<Seq<Seq<i32>>>::empty() + rest =~~= rest);
            }
        }
        while i < nblocks
            invariant
                i <= nblocks,
                self.data@ == gdata,
                self.header == h,
                self.block_offsets@ == offs,
                nblocks == offs.len(),
                channels == h.channels as int,
                channels >= 1,
                groups@.len() == i,
                forall|gi: int|
                    0 <= gi < i ==> (#[trigger] groups@[gi])@.len() == channels as int,
                forall|gi: int, cc: int|
                    0 <= gi < i && 0 <= cc < channels as int ==> (#[trigger] groups@[gi]@[cc])@.len()
                        == 512,
                spec_collect_groups(gdata, h, offs, 0) == (match spec_collect_groups(
                    gdata,
                    h,
                    offs,
                    i as int,
                ) {
                    Err(e) => Err::<Seq<Seq<Seq<i32>>>, NcwError>(e),
                    Ok(rest) => Ok(groups.deep_view() + rest),
                }),
            decreases nblocks - i,
        {
            let pos: u64 = (self.header.data_offset as u64) + (self.block_offsets[i] as u64);
            let g = match self.decode_block_group(pos) {
                Ok(g) => g,
                Err(e) => {
                    proof {
                        assert(spec_collect_groups(gdata, h, offs, i as int) == Err::<
                            Seq<Seq<Seq<i32>>>,
                            NcwError,
                        >(e));
                    }
                    return Err(e);
                },
            };
            let ghost old_dv = groups.deep_view();
            groups.push(g);
            proof {
                assert(groups.deep_view() =~~= old_dv.push(g.deep_view()));
                if let Ok(rest) = spec_collect_groups(gdata, h, offs, i as int + 1) {
                    assert(old_dv + (seq![g.deep_view()] + rest) =~~= old_dv.push(g.deep_view())
                        + rest);
                }
            }
            i = i + 1;
        }
        proof {
            assert(spec_collect_groups(gdata, h, offs, nblocks as int) == Ok::<
                Seq<Seq<Seq<i32>>>,
                NcwError,
            >(Seq::empty()));
            assert(groups.deep_view() + Seq::<Seq<Seq<i32>>>::empty() =~~= groups.deep_view());
            assert(spec_collect_groups(gdata, h, offs, 0) == Ok::<Seq<Seq<Seq<i32>>>, NcwError>(
                groups.deep_view(),
            ));
        }

        // Build each channel's buffer, trimming the final block-group.
        let ghost gdv = groups.deep_view();
        let ngroups = groups.len();
        let mut chans: Vec<Vec<i32>> = Vec::new();
        let mut c: usize = 0;
        while c < channels
            invariant
                c <= channels,
                ngroups == gdv.len(),
                overflow < 512,
                gdv == groups.deep_view(),
                chans@.len() == c,
                forall|gi: int| 0 <= gi < ngroups ==> (#[trigger] groups@[gi])@.len() == channels as int,
                forall|gi: int, cc: int|
                    0 <= gi < ngroups && 0 <= cc < channels as int ==> (#[trigger] groups@[gi]@[cc])@.len() == 512,
                forall|cc: int|
                    0 <= cc < c ==> (#[trigger] chans@[cc])@ == spec_channel_tail(
                        gdv,
                        cc,
                        0,
                        overflow as int,
                    ),
            decreases channels - c,
        {
            let mut col: Vec<i32> = Vec::new();
            let mut gi: usize = 0;
            proof {
                assert(Seq::<i32>::empty() + spec_channel_tail(gdv, c as int, 0, overflow as int)
                    =~= spec_channel_tail(gdv, c as int, 0, overflow as int));
            }
            while gi < ngroups
                invariant
                    gi <= ngroups,
                    c < channels,
                    ngroups == gdv.len(),
                    overflow < 512,
                    gdv == groups.deep_view(),
                    forall|gj: int|
                        0 <= gj < ngroups ==> (#[trigger] groups@[gj])@.len() == channels as int,
                    forall|gj: int, cc: int|
                        0 <= gj < ngroups && 0 <= cc < channels as int ==> (
                        #[trigger] groups@[gj]@[cc])@.len() == 512,
                    col@ + spec_channel_tail(gdv, c as int, gi as int, overflow as int)
                        == spec_channel_tail(gdv, c as int, 0, overflow as int),
                decreases ngroups - gi,
            {
                let is_final = gi == ngroups - 1;
                let limit: usize = if is_final {
                    overflow
                } else {
                    MAX_SAMPLES_PER_BLOCK
                };
                let ghost col_entry = col@;
                let ghost kept = spec_kept(
                    gdv[gi as int][c as int],
                    gi as int == gdv.len() - 1,
                    overflow as int,
                );
                let blk = &groups[gi][c];
                let mut j: usize = 0;
                while j < limit
                    invariant
                        j <= limit,
                        limit <= 512,
                        blk@.len() == 512,
                        col@ == col_entry + blk@.take(j as int),
                    decreases limit - j,
                {
                    proof {
                        assert(blk@.take(j as int + 1) =~= blk@.take(j as int).push(
                            blk@[j as int],
                        ));
                        assert(col_entry + blk@.take(j as int + 1) =~= (col_entry + blk@.take(
                            j as int,
                        )).push(blk@[j as int]));
                    }
                    col.push(blk[j]);
                    j = j + 1;
                }
                proof {
                    assert(blk@ == gdv[gi as int][c as int]);
                    if is_final {
                        assert(blk@.take(limit as int) == kept);
                    } else {
                        assert(blk@.take(512) =~= blk@);
                        assert(blk@.take(limit as int) == kept);
                    }
                    assert(col@ == col_entry + kept);
                    assert((col_entry + kept) + spec_channel_tail(
                        gdv,
                        c as int,
                        gi as int + 1,
                        overflow as int,
                    ) =~= col_entry + (kept + spec_channel_tail(
                        gdv,
                        c as int,
                        gi as int + 1,
                        overflow as int,
                    )));
                }
                gi = gi + 1;
            }
            proof {
                assert(spec_channel_tail(gdv, c as int, ngroups as int, overflow as int)
                    =~= Seq::<i32>::empty());
                assert(col@ + Seq::<i32>::empty() =~= col@);
            }
            chans.push(col);
            c = c + 1;
        }
        let ghost ov = spec_overflow(h);
        proof {
            assert(forall|cc: int|
                0 <= cc < channels as int ==> (#[trigger] chans@[cc])@ == spec_channel_tail(
                    gdv,
                    cc,
                    0,
                    ov,
                ));
        }

        // Every channel must reach the declared per-channel sample count.
        let mut c2: usize = 0;
        while c2 < channels
            invariant
                c2 <= channels,
                channels == h.channels as int,
                channels >= 1,
                num_samples == h.num_samples,
                chans@.len() == channels,
                ov == spec_overflow(h),
                gdata == old(self).data@,
                h == old(self).header,
                offs == old(self).block_offsets@,
                self.data@ == old(self).data@,
                self.header == old(self).header,
                self.block_offsets@ == old(self).block_offsets@,
                self.current_block == old(self).current_block,
                spec_collect_groups(gdata, h, offs, 0) == Ok::<Seq<Seq<Seq<i32>>>, NcwError>(gdv),
                forall|cc: int|
                    0 <= cc < channels as int ==> (#[trigger] chans@[cc])@ == spec_channel_tail(
                        gdv,
                        cc,
                        0,
                        ov,
                    ),
                forall|cc: int|
                    0 <= cc < c2 ==> (#[trigger] chans@[cc])@.len() >= num_samples as int,
            decreases channels - c2,
        {
            if chans[c2].len() < num_samples {
                proof {
                    let spec_chans = spec_channels(gdv, h);
                    assert(spec_chans[c2 as int] == chans@[c2 as int]@);
                    assert(spec_chans[c2 as int].len() < h.num_samples);
                    assert(!spec_channels_full(spec_chans, h));
                }
                return Err(NcwError::ShortRead(num_samples));
            }
            c2 = c2 + 1;
        }

        // Interleave frame-major.
        let mut out: Vec<i32> = Vec::new();
        let mut f: usize = 0;
        while f < num_samples
            invariant
                f <= num_samples,
                channels >= 1,
                channels == h.channels as int,
                num_samples == h.num_samples,
                chans@.len() == channels,
                ov == spec_overflow(h),
                forall|cc: int|
                    0 <= cc < channels as int ==> (#[trigger] chans@[cc])@ == spec_channel_tail(
                        gdv,
                        cc,
                        0,
                        ov,
                    ),
                forall|cc: int|
                    0 <= cc < channels as int ==> (#[trigger] chans@[cc])@.len()
                        >= num_samples as int,
                out@.len() == f * channels,
                forall|jj: int|
                    0 <= jj < out@.len() ==> out@[jj] == spec_channel_tail(
                        gdv,
                        jj % channels as int,
                        0,
                        ov,
                    )[jj / channels as int],
            decreases num_samples - f,
        {
            let mut c3: usize = 0;
            while c3 < channels
                invariant
                    c3 <= channels,
                    f < num_samples,
                    channels >= 1,
                    channels == h.channels as int,
                    num_samples == h.num_samples,
                    chans@.len() == channels,
                    ov == spec_overflow(h),
                    forall|cc: int|
                        0 <= cc < channels as int ==> (#[trigger] chans@[cc])@
                            == spec_channel_tail(gdv, cc, 0, ov),
                    forall|cc: int|
                        0 <= cc < channels as int ==> (#[trigger] chans@[cc])@.len()
                            >= num_samples as int,
                    out@.len() == f * channels + c3,
                    forall|jj: int|
                        0 <= jj < out@.len() ==> out@[jj] == spec_channel_tail(
                            gdv,
                            jj % channels as int,
                            0,
                            ov,
                        )[jj / channels as int],
                decreases channels - c3,
            {
                out.push(chans[c3][f]);
                proof {
                    let jj = f * channels + c3;
                    vstd::arithmetic::div_mod::lemma_fundamental_div_mod_converse(
                        jj as int,
                        channels as int,
                        f as int,
                        c3 as int,
                    );
                    assert(out@[jj as int] == spec_channel_tail(gdv, c3 as int, 0, ov)[f as int]);
                }
                c3 = c3 + 1;
            }
            proof {
                assert(f * channels + channels == (f + 1) * channels) by (nonlinear_arith);
            }
            f = f + 1;
        }
        proof {
            let spec_chans = spec_channels(gdv, h);
            assert forall|cc: int|
                0 <= cc < spec_chans.len() implies (#[trigger] spec_chans[cc]).len()
                >= h.num_samples by {
                assert(spec_chans[cc] == chans@[cc]@);
            }
            assert(spec_channels_full(spec_chans, h));
            assert forall|jj: int|
                0 <= jj < out@.len() implies out@[jj] == spec_chans[jj % channels as int][jj
                / channels as int] by {
                assert(spec_chans[jj % channels as int] == spec_channel_tail(
                    gdv,
                    jj % channels as int,
                    0,
                    ov,
                ));
            }
            assert(out@ =~= spec_interleave(spec_chans, h.num_samples as int));
        }
        Ok(out)
    }
}

/// The exact (unbounded) sum of the first `i` deltas.
pub open spec fn spec_delta_prefix_sum(deltas: Seq<i32>, i: int) -> int
    decreases i,
{
    if i <= 0 {
        0
    } else {
        spec_delta_prefix_sum(deltas, i - 1) + deltas[i - 1]
    }
}

/// Delta reconstruction is a cumulative sum: as long as no intermediate
/// value leaves the 32-bit range, sample `i` is exactly the base value plus
/// the sum of the first `i` deltas.
pub proof fn lemma_delta_is_cumulative_sum(base: i32, deltas: Seq<i32>, i: int)
    requires
        0 <= i,
        forall|j: int|
            0 <= j <= i ==> i32::MIN <= base + #[trigger] spec_delta_prefix_sum(deltas, j)
                <= i32::MAX,
    ensures
        spec_delta_sample(base, deltas, i) == base + spec_delta_prefix_sum(deltas, i),
    decreases i,
{
    if i > 0 {
        assert(forall|j: int|
            0 <= j <= i - 1 ==> i32::MIN <= base + #[trigger] spec_delta_prefix_sum(deltas, j)
                <= i32::MAX);
        lemma_delta_is_cumulative_sum(base, deltas, i - 1);
        assert(spec_delta_prefix_sum(deltas, i) == spec_delta_prefix_sum(deltas, i - 1) + deltas[i
            - 1]);
    }
}

/// A block whose flags declare mid-side channel encoding or float samples
/// makes the whole decode fail with the corresponding typed error: no
/// samples are ever produced from it. Stated for the first block of the
/// first block-group, where every decode begins.
pub proof fn lemma_unsupported_modes_rejected(data: Seq<u8>, h: NcwHeader, offs: Seq<u32>)
    requires
        h.channels >= 1,
        offs.len() >= 1,
        spec_parse_block_header(data, h.data_offset + offs[0]) is Ok,
    ensures
        midside_flag(spec_parse_block_header(data, h.data_offset + offs[0])->Ok_0.flags)
            ==> spec_decode_samples(data, h, offs) == Err::<Seq<i32>, NcwError>(
            NcwError::UnsupportedChannelEncoding,
        ),
        !midside_flag(spec_parse_block_header(data, h.data_offset + offs[0])->Ok_0.flags)
            && float_flag(spec_parse_block_header(data, h.data_offset + offs[0])->Ok_0.flags)
            ==> spec_decode_samples(data, h, offs) == Err::<Seq<i32>, NcwError>(
            NcwError::UnsupportedSampleFormat,
        ),
{
    let pos = h.data_offset + offs[0];
    let bh = spec_parse_block_header(data, pos)->Ok_0;
    if midside_flag(bh.flags) {
        assert(spec_channel_block(data, pos, h.bits_per_sample) == Err::<(Seq<i32>, int), NcwError>(
            NcwError::UnsupportedChannelEncoding,
        ));
        assert(spec_group_channels(data, pos, h.channels as nat, h.bits_per_sample) == Err::<
            (Seq<Seq<i32>>, int),
            NcwError,
        >(NcwError::UnsupportedChannelEncoding));
        assert(spec_collect_groups(data, h, offs, 0) == Err::<Seq<Seq<Seq<i32>>>, NcwError>(
            NcwError::UnsupportedChannelEncoding,
        ));
    } else if float_flag(bh.flags) {
        assert(spec_channel_block(data, pos, h.bits_per_sample) == Err::<(Seq<i32>, int), NcwError>(
            NcwError::UnsupportedSampleFormat,
        ));
        assert(spec_group_channels(data, pos, h.channels as nat, h.bits_per_sample) == Err::<
            (Seq<Seq<i32>>, int),
            NcwError,
        >(NcwError::UnsupportedSampleFormat));
        assert(spec_collect_groups(data, h, offs, 0) == Err::<Seq<Seq<Seq<i32>>>, NcwError>(
            NcwError::UnsupportedSampleFormat,
        ));
    }
}

/// The `n`-byte little-endian encoding of the natural number `u mod 256^n`.
pub open spec fn spec_le_bytes_of(u: nat, n: nat) -> Seq<u8>
    decreases n,
{
    if n == 0 {
        Seq::empty()
    } else {
        seq![(u % 256) as u8] + spec_le_bytes_of(u / 256, (n - 1) as nat)
    }
}

/// The two's-complement residue of sample `v` at byte width `n`: the
/// unsigned value its stored bytes denote.
pub open spec fn spec_unsigned_residue(v: int, n: nat) -> nat {
    (v % pow2(8 * n) as int) as nat
}

/// The raw-mode encoding of 512 samples at byte width `n`: each sample's
/// two's-complement bytes, little-endian, stored back to back.
pub open spec fn spec_raw_encode(samples: Seq<int>, n: nat) -> Seq<u8>
    recommends
        samples.len() == 512,
        1 <= n,
{
    Seq::new(
        (512 * n) as nat,
        |k: int| spec_le_bytes_of(spec_unsigned_residue(samples[k / n as int], n), n)[k % n as int],
    )
}

proof fn lemma_le_bytes_of_len(u: nat, n: nat)
    ensures
        spec_le_bytes_of(u, n).len() == n,
    decreases n,
{
    if n > 0 {
        lemma_le_bytes_of_len(u / 256, (n - 1) as nat);
    }
}

/// Decoding the encoding of a value recovers its residue: the little-endian
/// value of the stored bytes is the value modulo the width's capacity.
proof fn lemma_le_bytes_of_val(u: nat, n: nat)
    ensures
        le_val(spec_le_bytes_of(u, n)) == u % pow2(8 * n),
    decreases n,
{
    vstd::arithmetic::power2::lemma2_to64();
    if n == 0 {
        vstd::arithmetic::div_mod::lemma_small_mod(0, 1);
        assert(u % pow2(0) == 0) by {
            vstd::arithmetic::div_mod::lemma_mod_multiples_basic(u as int, 1);
        }
    } else {
        let b = spec_le_bytes_of(u, n);
        let rest = spec_le_bytes_of(u / 256, (n - 1) as nat);
        lemma_le_bytes_of_len(u, n);
        assert(b[0] == (u % 256) as u8);
        assert(b.drop_first() =~= rest);
        lemma_le_bytes_of_val(u / 256, (n - 1) as nat);
        vstd::arithmetic::power2::lemma_pow2_adds(8, 8 * (n - 1) as nat);
        assert(8 * n == 8 + 8 * (n - 1) as nat);
        vstd::arithmetic::power2::lemma_pow2_pos(8 * (n - 1) as nat);
        vstd::arithmetic::div_mod::lemma_mod_breakdown(
            u as int,
            256,
            pow2(8 * (n - 1) as nat) as int,
        );
        assert(le_val(b) == u % 256 + 256 * ((u / 256) % pow2(8 * (n - 1) as nat)));
    }
}

/// Sign extension inverts two's-complement encoding: for any value in the
/// signed range of an `8 * n`-bit sample, decoding its residue gives the
/// value back.
proof fn lemma_residue_round_trip(v: int, n: nat)
    requires
        1 <= n <= 4,
        -(pow2((8 * n - 1) as nat) as int) <= v < pow2((8 * n - 1) as nat),
    ensures
        as_signed(spec_unsigned_residue(v, n), 8 * n) == v,
{
    let w = 8 * n;
    let m = pow2(w) as int;
    vstd::arithmetic::power2::lemma_pow2_adds((w - 1) as nat, 1);
    vstd::arithmetic::power2::lemma2_to64();
    assert(m == 2 * pow2((w - 1) as nat));
    if v >= 0 {
        vstd::arithmetic::div_mod::lemma_small_mod(v as nat, m as nat);
        assert(spec_unsigned_residue(v, n) == v);
    } else {
        vstd::arithmetic::div_mod::lemma_fundamental_div_mod_converse(v, m, -1, v + m);
        assert(v % m == v + m);
        assert(spec_unsigned_residue(v, n) == v + m);
    }
}

/// Raw-mode round trip: decoding the raw encoding of any 512 samples that
/// fit the native width recovers exactly those samples, at every supported
/// byte depth.
pub proof fn lemma_raw_round_trip(samples: Seq<int>, n: nat)
    requires
        1 <= n <= 4,
        samples.len() == 512,
        forall|i: int|
            0 <= i < 512 ==> -(pow2((8 * n - 1) as nat) as int) <= #[trigger] samples[i] < pow2(
                (8 * n - 1) as nat,
            ),
    ensures
        spec_raw_samples(spec_raw_encode(samples, n), n).len() == 512,
        forall|i: int|
            0 <= i < 512 ==> #[trigger] spec_raw_samples(spec_raw_encode(samples, n), n)[i] as int
                == samples[i],
{
    let enc = spec_raw_encode(samples, n);
    let dec = spec_raw_samples(enc, n);
    assert forall|i: int| 0 <= i < 512 implies #[trigger] dec[i] as int == samples[i] by {
        let sub = enc.subrange(i * n as int, (i + 1) * n as int);
        let bytes = spec_le_bytes_of(spec_unsigned_residue(samples[i], n), n);
        lemma_le_bytes_of_len(spec_unsigned_residue(samples[i], n), n);
        assert((i + 1) * n == i * n + n) by (nonlinear_arith);
        assert((i + 1) * n <= 512 * n) by (nonlinear_arith)
            requires
                0 <= i < 512,
        ;
        assert forall|j: int| 0 <= j < n implies sub[j] == bytes[j] by {
            let k = i * n as int + j;
            vstd::arithmetic::div_mod::lemma_fundamental_div_mod_converse(k, n as int, i, j);
            assert(enc[k] == bytes[j]);
        }
        assert(sub =~= bytes);
        lemma_le_bytes_of_val(spec_unsigned_residue(samples[i], n), n);
        assert(spec_unsigned_residue(samples[i], n) < pow2(8 * n)) by {
            vstd::arithmetic::power2::lemma_pow2_pos(8 * n);
            vstd::arithmetic::div_mod::lemma_mod_bound(
                samples[i] % pow2(8 * n) as int,
                pow2(8 * n) as int,
            );
            vstd::arithmetic::div_mod::lemma_mod_twice(samples[i], pow2(8 * n) as int);
        }
        vstd::arithmetic::div_mod::lemma_small_mod(
            spec_unsigned_residue(samples[i], n),
            pow2(8 * n),
        );
        assert(le_val(sub) == spec_unsigned_residue(samples[i], n));
        lemma_residue_round_trip(samples[i], n);
        vstd::arithmetic::power2::lemma2_to64();
        if 8 * n < 32 {
            vstd::arithmetic::power2::lemma_pow2_strictly_increases((8 * n - 1) as nat, 31);
        }
    }
}

} // verus!
