use ncw::read_bytes::{take_u16_le, take_u32_be, take_u32_le};
use ncw::{
    decode_delta_block_i32, decode_truncated_block_i32, read_packed_values_i32, BlockHeader,
    ChannelEncoding, FromBytes, NcwError, NcwHeader, NcwReader, SampleFormat,
};

const FILE_MAGIC: u64 = 0x01A89ED631010000;
const FILE_MAGIC_ALT: u64 = 0x01A89ED630010000;
const BLOCK_MAGIC: u32 = 0x160C9A3E;

/// A 120-byte preamble with the given fields.
fn header_bytes(
    magic: u64,
    channels: u16,
    bits_per_sample: u16,
    sample_rate: u32,
    num_samples: u32,
    blocks_offset: u32,
    data_offset: u32,
    data_size: u32,
) -> Vec<u8> {
    let mut v = Vec::new();
    v.extend_from_slice(&magic.to_be_bytes());
    v.extend_from_slice(&channels.to_le_bytes());
    v.extend_from_slice(&bits_per_sample.to_le_bytes());
    v.extend_from_slice(&sample_rate.to_le_bytes());
    v.extend_from_slice(&num_samples.to_le_bytes());
    v.extend_from_slice(&blocks_offset.to_le_bytes());
    v.extend_from_slice(&data_offset.to_le_bytes());
    v.extend_from_slice(&data_size.to_le_bytes());
    while v.len() < 120 {
        v.push(0);
    }
    v
}

/// A 16-byte block header.
fn block_header_bytes(base_value: i32, bits: i16, flags: u16) -> Vec<u8> {
    let mut v = Vec::new();
    v.extend_from_slice(&BLOCK_MAGIC.to_be_bytes());
    v.extend_from_slice(&base_value.to_le_bytes());
    v.extend_from_slice(&bits.to_le_bytes());
    v.extend_from_slice(&flags.to_le_bytes());
    v.extend_from_slice(&[0u8; 4]);
    v
}

/// A whole single-block-group mono file: header, offset table with one
/// entry, one block. The table region spans `4 * (groups + 1)` bytes, since
/// the decoder reads one word fewer than the region holds.
fn single_block_file(bits_per_sample: u16, num_samples: u32, block: Vec<u8>) -> Vec<u8> {
    let blocks_offset = 120u32;
    let data_offset = blocks_offset + 8;
    let mut v = header_bytes(
        FILE_MAGIC,
        1,
        bits_per_sample,
        44100,
        num_samples,
        blocks_offset,
        data_offset,
        block.len() as u32,
    );
    v.extend_from_slice(&0u32.to_le_bytes());
    v.extend_from_slice(&[0u8; 4]);
    v.extend_from_slice(&block);
    v
}

#[test]
fn test_read_u32_le() {
    let bytes: &[u8] = &[32_u8, 1, 4, 56, 6, 6, 90, 4, 7];

    let num = take_u32_le(bytes, 0);
    assert_eq!(num, 939786528);

    let num = take_u32_le(bytes, 4);
    assert_eq!(num, 73008646);
}

#[test]
fn test_take_primitives() {
    let bytes: &[u8] = &[0x01, 0x02, 0x03, 0x04];
    assert_eq!(take_u16_le(bytes, 0), 0x0201);
    assert_eq!(take_u32_be(bytes, 0), 0x01020304);
}

#[test]
fn test_from_bytes_integers() {
    assert_eq!(<u32 as FromBytes>::from_le_bytes(&[0x78, 0x56, 0x34, 0x12]), 0x12345678);
    assert_eq!(<u32 as FromBytes>::from_be_bytes(&[0x12, 0x34, 0x56, 0x78]), 0x12345678);
    assert_eq!(<i16 as FromBytes>::from_le_bytes(&[0xFF, 0xFF]), -1);
    assert_eq!(<i16 as FromBytes>::from_be_bytes(&[0x80, 0x00]), -32768);
    assert_eq!(<i32 as FromBytes>::from_le_bytes(&[0x00, 0x00, 0x00, 0x80]), i32::MIN);
    assert_eq!(<u64 as FromBytes>::from_be_bytes(&[1, 2, 3, 4, 5, 6, 7, 8]), 0x0102030405060708);
    assert_eq!(<i8 as FromBytes>::from_le_bytes(&[0xFE]), -2);
    assert_eq!(<u8 as FromBytes>::from_be_bytes(&[0xAB]), 0xAB);
    assert_eq!(<i64 as FromBytes>::from_le_bytes(&[0, 0, 0, 0, 0, 0, 0, 0x80]), i64::MIN);
    assert_eq!(<u16 as FromBytes>::from_le_bytes(&[0x01, 0x02]), 0x0201);
}

#[test]
fn test_unpacker_width12_positive_across_bytes() {
    // The first 12-bit field takes all of byte 0 and the low 4 bits of
    // byte 1: 0xFF plus 0x0 above it is 0x0FF, positive since bit 11 is 0.
    let values = read_packed_values_i32(&[0xFF, 0x00, 0x00], 12);
    assert_eq!(values.len(), 2);
    assert_eq!(values[0], 0x0FF);
}

#[test]
fn test_unpacker_width12_negative_across_bytes() {
    // With the low nibble of byte 1 set, the first field is 0xFFF, whose
    // sign bit (bit 11) is set: it decodes to -1.
    let values = read_packed_values_i32(&[0xFF, 0x0F, 0x00], 12);
    assert_eq!(values.len(), 2);
    assert_eq!(values[0], -1);
    // The second field is bits 12..24: 0x000.
    assert_eq!(values[1], 0);
}

#[test]
fn test_unpacker_counts_whole_fields_only() {
    // 3 bytes = 24 bits hold exactly four 5-bit fields with 4 bits left.
    let values = read_packed_values_i32(&[0b00001_000, 0, 0], 5);
    assert_eq!(values.len(), 4);
    assert_eq!(values[0], 0b01000);
}

#[test]
fn test_unpacker_width1_and_width32() {
    // Width 1: each bit is its own field, and a set bit means -1.
    let values = read_packed_values_i32(&[0b0000_0101], 1);
    assert_eq!(values.len(), 8);
    assert_eq!(values[0], -1);
    assert_eq!(values[1], 0);
    assert_eq!(values[2], -1);
    assert_eq!(values[3], 0);

    // Width 32: the field is the whole two's-complement word.
    let values = read_packed_values_i32(&[0xFF, 0xFF, 0xFF, 0xFF, 0x2A, 0, 0, 0], 32);
    assert_eq!(values.len(), 2);
    assert_eq!(values[0], -1);
    assert_eq!(values[1], 42);
}

#[test]
fn test_delta_addition_wraps() {
    // The running base wraps as 32-bit two's complement.
    let mut payload = vec![0u8; 8 * 64];
    payload[0] = 1;
    let samples = decode_delta_block_i32(i32::MAX, &payload, 8);
    assert_eq!(samples[0], i32::MAX);
    assert_eq!(samples[1], i32::MIN);
}

#[test]
fn test_truncated_sign_extension_width4() {
    // Packed 4-bit fields, LSB-first: low nibble first. 0x78 holds the
    // fields [0b1000, 0b0111]: 0b1000 must decode to -8, 0b0111 to 7.
    let values = decode_truncated_block_i32(&[0x78], 4);
    assert_eq!(values.len(), 2);
    assert_eq!(values[0], -8);
    assert_eq!(values[1], 7);
}

#[test]
fn test_truncated_block_512_samples() {
    let mut payload = vec![0u8; 4 * 64];
    payload[0] = 0x78;
    let values = decode_truncated_block_i32(&payload, 4);
    assert_eq!(values.len(), 512);
    assert_eq!(values[0], -8);
    assert_eq!(values[1], 7);
    assert_eq!(values[2], 0);
}

#[test]
fn test_delta_reconstruction() {
    // base 100, 4-bit deltas [1, -1, 2, 0, 0, ...]: cumulative sums are
    // [100, 101, 100, 102, 102, ...].
    let mut payload = vec![0u8; 4 * 64];
    payload[0] = 0x1 | (0xF << 4); // deltas 1, -1
    payload[1] = 0x2; // deltas 2, 0
    let samples = decode_delta_block_i32(100, &payload, 4);
    assert_eq!(samples.len(), 512);
    assert_eq!(samples[0], 100);
    assert_eq!(samples[1], 101);
    assert_eq!(samples[2], 100);
    assert_eq!(samples[3], 102);
    assert_eq!(samples[4], 102);
    assert_eq!(samples[511], 102);
}

#[test]
fn test_delta_final_value_not_consumed() {
    // 512 deltas are unpacked; the last one seeds no output sample. An
    //8-bit delta stream of all ones ends at base + 511.
    let payload = vec![1u8; 8 * 64];
    let samples = decode_delta_block_i32(0, &payload, 8);
    assert_eq!(samples.len(), 512);
    assert_eq!(samples[511], 511);
}

#[test]
fn test_header_parse_fields() {
    let data = header_bytes(FILE_MAGIC, 2, 24, 48000, 1234, 120, 132, 9999);
    let h = NcwHeader::read(&data).unwrap();
    assert_eq!(h.channels, 2);
    assert_eq!(h.bits_per_sample, 24);
    assert_eq!(h.sample_rate, 48000);
    assert_eq!(h.num_samples, 1234);
    assert_eq!(h.blocks_offset, 120);
    assert_eq!(h.data_offset, 132);
    assert_eq!(h.data_size, 9999);
}

#[test]
fn test_header_alternate_magic_accepted() {
    let data = header_bytes(FILE_MAGIC_ALT, 1, 16, 44100, 0, 120, 120, 0);
    assert!(NcwHeader::read(&data).is_ok());
}

#[test]
fn test_header_invalid_signature() {
    let data = header_bytes(0x0102030405060708, 1, 16, 44100, 0, 120, 120, 0);
    assert_eq!(NcwHeader::read(&data).unwrap_err(), NcwError::InvalidFileSignature);
    // The whole open fails the same way, before any block is read.
    assert!(matches!(NcwReader::read(data), Err(NcwError::InvalidFileSignature)));
}

#[test]
fn test_header_short_read() {
    let data = vec![0u8; 119];
    assert_eq!(NcwHeader::read(&data).unwrap_err(), NcwError::ShortRead(120));
}

#[test]
fn test_header_inverted_offsets_rejected() {
    // data_offset < blocks_offset breaks the header invariant.
    let data = header_bytes(FILE_MAGIC, 1, 16, 44100, 0, 132, 120, 0);
    assert_eq!(NcwReader::read(data).unwrap_err(), NcwError::InvalidFileSignature);
}

#[test]
fn test_block_header_parse() {
    let data = block_header_bytes(-5, -9, 3);
    let bh = BlockHeader::read(&data, 0).unwrap();
    assert_eq!(bh.base_value, -5);
    assert_eq!(bh.bits, -9);
    assert_eq!(bh.flags, 3);
    assert_eq!(bh.channel_encoding(), ChannelEncoding::MidSide);
    assert_eq!(bh.sample_format(), SampleFormat::Float);
}

#[test]
fn test_block_header_flags_clear() {
    let data = block_header_bytes(0, 0, 0);
    let bh = BlockHeader::read(&data, 0).unwrap();
    assert_eq!(bh.channel_encoding(), ChannelEncoding::LeftRight);
    assert_eq!(bh.sample_format(), SampleFormat::PCM);
}

#[test]
fn test_block_header_bad_magic() {
    let mut data = block_header_bytes(0, 0, 0);
    data[0] = 0x00;
    assert_eq!(BlockHeader::read(&data, 0).unwrap_err(), NcwError::InvalidBlockSignature);
}

fn raw_block_16(samples: &[i16]) -> Vec<u8> {
    assert_eq!(samples.len(), 512);
    let mut block = block_header_bytes(0, 0, 0);
    for s in samples {
        block.extend_from_slice(&s.to_le_bytes());
    }
    block
}

#[test]
fn test_raw_round_trip_8bit() {
    let mut block = block_header_bytes(0, 0, 0);
    let mut expected = Vec::new();
    for i in 0..512i32 {
        let s = ((i * 7) % 256 - 128) as i8;
        block.extend_from_slice(&s.to_le_bytes());
        expected.push(s as i32);
    }
    let file = single_block_file(8, 500, block);
    let mut r = NcwReader::read(file).unwrap();
    let out = r.decode_samples().unwrap();
    assert_eq!(out.len(), 500);
    for i in 0..500 {
        assert_eq!(out[i], expected[i]);
    }
}

#[test]
fn test_raw_round_trip_16bit() {
    let mut samples = [0i16; 512];
    for i in 0..512 {
        samples[i] = ((i as i32) * 101 - 20000) as i16;
    }
    let file = single_block_file(16, 500, raw_block_16(&samples));
    let mut r = NcwReader::read(file).unwrap();
    let out = r.decode_samples().unwrap();
    assert_eq!(out.len(), 500);
    for i in 0..500 {
        assert_eq!(out[i], samples[i] as i32);
    }
}

#[test]
fn test_raw_round_trip_24bit() {
    let mut block = block_header_bytes(0, 0, 0);
    let mut expected = Vec::new();
    for i in 0..512i32 {
        let s = i * 30000 - 7_000_000;
        let b = s.to_le_bytes();
        block.extend_from_slice(&b[0..3]);
        expected.push(s);
    }
    let file = single_block_file(24, 500, block);
    let mut r = NcwReader::read(file).unwrap();
    let out = r.decode_samples().unwrap();
    assert_eq!(out.len(), 500);
    for i in 0..500 {
        assert_eq!(out[i], expected[i]);
    }
}

#[test]
fn test_raw_round_trip_32bit() {
    let mut block = block_header_bytes(0, 0, 0);
    let mut expected = Vec::new();
    for i in 0..512i64 {
        let s = (i * 8_000_000 - 2_000_000_000) as i32;
        block.extend_from_slice(&s.to_le_bytes());
        expected.push(s);
    }
    let file = single_block_file(32, 500, block);
    let mut r = NcwReader::read(file).unwrap();
    let out = r.decode_samples().unwrap();
    assert_eq!(out.len(), 500);
    for i in 0..500 {
        assert_eq!(out[i], expected[i]);
    }
}

#[test]
fn test_delta_block_through_pipeline() {
    // A delta-mode block: base 7, 8-bit deltas all 2. Sample i is 7 + 2*i.
    let mut block = block_header_bytes(7, 8, 0);
    block.extend_from_slice(&[2u8; 8 * 64]);
    let file = single_block_file(16, 100, block);
    let mut r = NcwReader::read(file).unwrap();
    let out = r.decode_samples().unwrap();
    assert_eq!(out.len(), 100);
    for i in 0..100i32 {
        assert_eq!(out[i as usize], 7 + 2 * i);
    }
}

#[test]
fn test_final_block_trimming_two_groups() {
    // Two block-groups, mono 16-bit raw, 612 declared samples: the first
    // group contributes all 512, the second only its first 100.
    let mut s0 = [0i16; 512];
    let mut s1 = [0i16; 512];
    for i in 0..512 {
        s0[i] = i as i16;
        s1[i] = (1000 + i) as i16;
    }
    let b0 = raw_block_16(&s0);
    let b1 = raw_block_16(&s1);
    let blocks_offset = 120u32;
    let data_offset = blocks_offset + 12;
    let mut file = header_bytes(FILE_MAGIC, 1, 16, 44100, 612, blocks_offset, data_offset, 0);
    file.extend_from_slice(&0u32.to_le_bytes());
    file.extend_from_slice(&(b0.len() as u32).to_le_bytes());
    file.extend_from_slice(&[0u8; 4]);
    file.extend_from_slice(&b0);
    file.extend_from_slice(&b1);

    let mut r = NcwReader::read(file).unwrap();
    assert_eq!(r.block_offsets.len(), 2);
    let out = r.decode_samples().unwrap();
    assert_eq!(out.len(), 612);
    for i in 0..512 {
        assert_eq!(out[i], i as i32);
    }
    for i in 0..100 {
        assert_eq!(out[512 + i], 1000 + i as i32);
    }
}

#[test]
fn test_stereo_interleave() {
    // One block-group, two channels, 100 declared samples per channel:
    // frame f holds channel 0 then channel 1.
    let mut s0 = [0i16; 512];
    let mut s1 = [0i16; 512];
    for i in 0..512 {
        s0[i] = i as i16;
        s1[i] = -(i as i16);
    }
    let b0 = raw_block_16(&s0);
    let b1 = raw_block_16(&s1);
    let blocks_offset = 120u32;
    let data_offset = blocks_offset + 8;
    let mut file = header_bytes(FILE_MAGIC, 2, 16, 44100, 100, blocks_offset, data_offset, 0);
    file.extend_from_slice(&0u32.to_le_bytes());
    file.extend_from_slice(&[0u8; 4]);
    file.extend_from_slice(&b0);
    file.extend_from_slice(&b1);

    let mut r = NcwReader::read(file).unwrap();
    let out = r.decode_samples().unwrap();
    assert_eq!(out.len(), 200);
    for f in 0..100i32 {
        assert_eq!(out[(2 * f) as usize], f);
        assert_eq!(out[(2 * f + 1) as usize], -f);
    }
}

#[test]
fn test_truncated_block_through_pipeline() {
    // Truncated mode: bits = -4 stores each sample directly in 4 bits.
    let mut block = block_header_bytes(0, -4, 0);
    let mut payload = vec![0u8; 4 * 64];
    payload[0] = 0x78; // samples -8, 7
    block.extend_from_slice(&payload);
    let file = single_block_file(16, 100, block);
    let mut r = NcwReader::read(file).unwrap();
    let out = r.decode_samples().unwrap();
    assert_eq!(out.len(), 100);
    assert_eq!(out[0], -8);
    assert_eq!(out[1], 7);
    assert_eq!(out[2], 0);
}

#[test]
fn test_read_i32_block_dispatch() {
    let mut block = block_header_bytes(0, 0, 0);
    block.extend_from_slice(&vec![0u8; 512 * 2]);
    let file = single_block_file(16, 100, block);
    let r = NcwReader::read(file).unwrap();

    // Delta mode: base 5, 4-bit deltas [1, 2, 0, ...].
    let bh = BlockHeader { base_value: 5, bits: 4, flags: 0 };
    let mut payload = vec![0u8; 4 * 64];
    payload[0] = 0x21;
    let s = r.read_i32_block(&payload, &bh);
    assert_eq!(s.len(), 512);
    assert_eq!(s[0], 5);
    assert_eq!(s[1], 6);
    assert_eq!(s[2], 8);
    assert_eq!(s[3], 8);

    // Truncated mode over the same payload: the fields themselves.
    let bh = BlockHeader { base_value: 0, bits: -4, flags: 0 };
    let s = r.read_i32_block(&payload, &bh);
    assert_eq!(s[0], 1);
    assert_eq!(s[1], 2);
    assert_eq!(s[2], 0);

    // Raw mode at the session's native 16-bit depth.
    let bh = BlockHeader { base_value: 0, bits: 0, flags: 0 };
    let mut payload = vec![0u8; 512 * 2];
    payload[0] = 0xFE;
    payload[1] = 0xFF;
    let s = r.read_i32_block(&payload, &bh);
    assert_eq!(s[0], -2);
    assert_eq!(s[1], 0);
}

#[test]
fn test_midside_rejected() {
    let mut block = block_header_bytes(0, 0, 1);
    block.extend_from_slice(&vec![0u8; 512 * 2]);
    let file = single_block_file(16, 500, block);
    let mut r = NcwReader::read(file).unwrap();
    assert_eq!(r.decode_samples().unwrap_err(), NcwError::UnsupportedChannelEncoding);
}

#[test]
fn test_float_rejected() {
    let mut block = block_header_bytes(0, 0, 2);
    block.extend_from_slice(&vec![0u8; 512 * 2]);
    let file = single_block_file(16, 500, block);
    let mut r = NcwReader::read(file).unwrap();
    assert_eq!(r.decode_samples().unwrap_err(), NcwError::UnsupportedSampleFormat);
}

#[test]
fn test_unsupported_width_rejected() {
    // A packed width beyond 32 bits cannot be represented.
    let mut block = block_header_bytes(0, 40, 0);
    block.extend_from_slice(&vec![0u8; 40 * 64]);
    let file = single_block_file(16, 500, block);
    let mut r = NcwReader::read(file).unwrap();
    assert_eq!(r.decode_samples().unwrap_err(), NcwError::UnsupportedBitWidth);

    // A raw block at a native depth other than 8/16/24/32 is rejected too.
    let mut block = block_header_bytes(0, 0, 0);
    block.extend_from_slice(&vec![0u8; 512 * 2]);
    let file = single_block_file(12, 500, block);
    let mut r = NcwReader::read(file).unwrap();
    assert_eq!(r.decode_samples().unwrap_err(), NcwError::UnsupportedBitWidth);
}

#[test]
fn test_truncated_payload_short_read() {
    // Block header promises a 16-bit raw payload but the file ends early.
    let mut block = block_header_bytes(0, 0, 0);
    block.extend_from_slice(&vec![0u8; 100]);
    let file = single_block_file(16, 500, block);
    let mut r = NcwReader::read(file).unwrap();
    assert_eq!(r.decode_samples().unwrap_err(), NcwError::ShortRead(1024));
}

#[test]
fn test_block_bad_magic_through_pipeline() {
    let mut block = block_header_bytes(0, 0, 0);
    block[0] = 0xAA;
    block.extend_from_slice(&vec![0u8; 512 * 2]);
    let file = single_block_file(16, 500, block);
    let mut r = NcwReader::read(file).unwrap();
    assert_eq!(r.decode_samples().unwrap_err(), NcwError::InvalidBlockSignature);
}

#[test]
fn test_single_group_partial_decode() {
    // A single group with 300 declared samples: the trim keeps its first
    // 300 samples, exactly the declared count.
    let mut block = block_header_bytes(0, 0, 0);
    block.extend_from_slice(&vec![0u8; 512 * 2]);
    let file = single_block_file(16, 300, block);
    let mut r = NcwReader::read(file).unwrap();
    assert_eq!(r.header.num_samples, 300);
    let out = r.decode_samples().unwrap();
    assert_eq!(out.len(), 300);
}

#[test]
fn test_declared_samples_exceed_blocks() {
    // 600 declared samples from one group: trimming keeps only
    // 600 % 512 = 88 of it, so the channel cannot reach the declared
    // count. The decode fails rather than inventing samples.
    let mut block = block_header_bytes(0, 0, 0);
    block.extend_from_slice(&vec![0u8; 512 * 2]);
    let file = single_block_file(16, 600, block);
    let mut r = NcwReader::read(file).unwrap();
    assert_eq!(r.decode_samples().unwrap_err(), NcwError::ShortRead(600));
}

#[test]
fn test_empty_table_zero_samples() {
    // data_offset == blocks_offset: no table slots, no block-groups. With
    // zero declared samples the decode is an empty success.
    let file = header_bytes(FILE_MAGIC, 1, 16, 44100, 0, 120, 120, 0);
    let mut r = NcwReader::read(file).unwrap();
    assert_eq!(r.block_offsets.len(), 0);
    let out = r.decode_samples().unwrap();
    assert_eq!(out.len(), 0);
}

#[test]
fn test_offset_table_values() {
    let mut file = header_bytes(FILE_MAGIC, 1, 16, 44100, 0, 120, 136, 0);
    file.extend_from_slice(&11u32.to_le_bytes());
    file.extend_from_slice(&22u32.to_le_bytes());
    file.extend_from_slice(&33u32.to_le_bytes());
    file.extend_from_slice(&[0u8; 4]);
    let r = NcwReader::read(file).unwrap();
    assert_eq!(r.block_offsets, vec![11, 22, 33]);
    assert_eq!(r.current_block, 0);
}

#[test]
fn test_offset_table_short_read() {
    // The header promises table words the file does not hold.
    let file = header_bytes(FILE_MAGIC, 1, 16, 44100, 0, 120, 136, 0);
    assert_eq!(NcwReader::read(file).unwrap_err(), NcwError::ShortRead(4));
}
