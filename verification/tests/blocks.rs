use for_util::error::Error;
use for_util::for_util::{max_data_size, ForUtil, MAX_DATA_SIZE, MAX_ENCODED_SIZE};
use for_util::packed::{
    Format, BLOCK_SIZE, COMPACT, DEFAULT, FAST, FASTEST, VERSION_CURRENT,
};
use for_util::store::{ByteInput, ByteOutput};

fn pseudo_random(seed: &mut u64) -> u32 {
    *seed = seed.wrapping_mul(6364136223846793005).wrapping_add(1442695040888963407);
    (*seed >> 32) as u32
}

fn block_of_width(width: u32, seed: &mut u64) -> Vec<u32> {
    let mask: u32 = if width == 32 { u32::MAX } else { (1u32 << width) - 1 };
    let mut values: Vec<u32> = (0..BLOCK_SIZE).map(|_| pseudo_random(seed) & mask).collect();
    values[0] = 1u32 << (width - 1);
    values[1] = 0;
    values
}

fn write_one(table: &ForUtil, values: &[u32]) -> Vec<u8> {
    let mut scratch = vec![0u8; MAX_ENCODED_SIZE];
    let mut out = ByteOutput::new();
    table.write_block(values, &mut scratch, &mut out);
    out.into_bytes()
}

fn read_one(table: &ForUtil, bytes: Vec<u8>) -> (Result<(), Error>, Vec<u32>, usize) {
    let mut input = ByteInput::new(bytes);
    let mut scratch = vec![0u8; MAX_ENCODED_SIZE];
    let mut decoded = vec![0xdead_beefu32; MAX_DATA_SIZE];
    let r = table.read_block(&mut input, &mut scratch, &mut decoded);
    (r, decoded, input.file_pointer())
}

#[test]
fn all_zero_block_takes_two_bytes() {
    let mut header = ByteOutput::new();
    let table = ForUtil::with_output(COMPACT, &mut header);
    let values = vec![0u32; BLOCK_SIZE];
    let bytes = write_one(&table, &values);
    assert_eq!(bytes, vec![0u8, 0u8]);
    let (r, decoded, end) = read_one(&table, bytes);
    assert_eq!(r, Ok(()));
    assert_eq!(end, 2);
    assert_eq!(&decoded[..BLOCK_SIZE], &values[..]);
}

#[test]
fn constant_block_leaves_the_tail_of_the_buffer_alone() {
    let mut header = ByteOutput::new();
    let table = ForUtil::with_output(COMPACT, &mut header);
    let (r, decoded, _) = read_one(&table, vec![0u8, 7u8]);
    assert_eq!(r, Ok(()));
    assert!(decoded[..BLOCK_SIZE].iter().all(|v| *v == 7));
    assert!(decoded[BLOCK_SIZE..].iter().all(|v| *v == 0xdead_beef));
}

#[test]
fn constant_block_of_the_largest_value() {
    let mut header = ByteOutput::new();
    let table = ForUtil::with_output(DEFAULT, &mut header);
    let values = vec![u32::MAX; BLOCK_SIZE];
    let bytes = write_one(&table, &values);
    assert_eq!(bytes, vec![0u8, 0xff, 0xff, 0xff, 0xff, 0x0f]);
    let (r, decoded, end) = read_one(&table, bytes);
    assert_eq!(r, Ok(()));
    assert_eq!(end, 6);
    assert_eq!(&decoded[..BLOCK_SIZE], &values[..]);
}

#[test]
fn constant_block_of_three_hundred() {
    let mut header = ByteOutput::new();
    let table = ForUtil::with_output(FASTEST, &mut header);
    let values = vec![300u32; BLOCK_SIZE];
    let bytes = write_one(&table, &values);
    assert_eq!(bytes, vec![0u8, 0xac, 0x02]);
    let (r, decoded, _) = read_one(&table, bytes);
    assert_eq!(r, Ok(()));
    assert_eq!(&decoded[..BLOCK_SIZE], &values[..]);
}

#[test]
fn one_to_128_takes_eight_bits_each() {
    let mut header = ByteOutput::new();
    let table = ForUtil::with_output(COMPACT, &mut header);
    let values: Vec<u32> = (1..=128u32).collect();
    let bytes = write_one(&table, &values);
    let size = Format::Packed.byte_count(VERSION_CURRENT, 128, 8) as usize;
    assert_eq!(size, 128);
    assert_eq!(bytes.len(), 1 + size);
    assert_eq!(bytes[0], 8);
    let payload: Vec<u8> = (1..=128u32).map(|v| v as u8).collect();
    assert_eq!(&bytes[1..], &payload[..]);
    let (r, decoded, end) = read_one(&table, bytes);
    assert_eq!(r, Ok(()));
    assert_eq!(end, 129);
    assert_eq!(&decoded[..BLOCK_SIZE], &values[..]);
}

#[test]
fn largest_value_200_takes_eight_bits() {
    let mut header = ByteOutput::new();
    let table = ForUtil::with_output(COMPACT, &mut header);
    let mut values = vec![3u32; BLOCK_SIZE];
    values[77] = 200;
    assert_eq!(ForUtil::bits_required(&values), 8);
    let bytes = write_one(&table, &values);
    assert_eq!(bytes[0], 8);
}

#[test]
fn bits_required_is_the_least_width() {
    let mut values = vec![0u32; BLOCK_SIZE];
    assert_eq!(ForUtil::bits_required(&values), 1);
    values[127] = 1;
    assert_eq!(ForUtil::bits_required(&values), 1);
    values[5] = 2;
    assert_eq!(ForUtil::bits_required(&values), 2);
    values[5] = 127;
    assert_eq!(ForUtil::bits_required(&values), 7);
    values[5] = 128;
    assert_eq!(ForUtil::bits_required(&values), 8);
    values[5] = 255;
    assert_eq!(ForUtil::bits_required(&values), 8);
    values[5] = 256;
    assert_eq!(ForUtil::bits_required(&values), 9);
    values[5] = 0x7fff_ffff;
    assert_eq!(ForUtil::bits_required(&values), 31);
    values[5] = 0x8000_0000;
    assert_eq!(ForUtil::bits_required(&values), 32);
    values[5] = u32::MAX;
    assert_eq!(ForUtil::bits_required(&values), 32);
}

#[test]
fn bits_required_looks_at_the_block_only() {
    let mut values = vec![1u32; BLOCK_SIZE + 10];
    values[BLOCK_SIZE] = 1000;
    assert_eq!(ForUtil::bits_required(&values), 1);
    assert!(ForUtil::is_all_equal(&values));
    values[BLOCK_SIZE - 1] = 2;
    assert!(!ForUtil::is_all_equal(&values));
}

#[test]
fn values_past_the_block_are_not_written() {
    let mut header = ByteOutput::new();
    let table = ForUtil::with_output(DEFAULT, &mut header);
    let mut seed = 11u64;
    let short = block_of_width(3, &mut seed);
    let mut long = short.clone();
    long.extend(std::iter::repeat(0xffff_ffffu32).take(40));
    assert_eq!(write_one(&table, &short), write_one(&table, &long));
}

#[test]
fn every_width_and_ratio_round_trips() {
    let mut seed = 42u64;
    for ratio in [COMPACT, DEFAULT, FAST, FASTEST, 123, 999, 10_000, u32::MAX] {
        let mut header = ByteOutput::new();
        let table = ForUtil::with_output(ratio, &mut header);
        for width in 1..=32u32 {
            let values = block_of_width(width, &mut seed);
            let bytes = write_one(&table, &values);
            assert_eq!(bytes[0] as u32, width);
            assert_eq!(bytes.len(), 1 + table.encoded_size_of(width as usize));
            let (r, decoded, end) = read_one(&table, bytes.clone());
            assert_eq!(r, Ok(()));
            assert_eq!(end, bytes.len());
            assert_eq!(&decoded[..BLOCK_SIZE], &values[..], "ratio {} width {}", ratio, width);
        }
    }
}

#[test]
fn reader_built_from_the_header_decodes_the_blocks() {
    let mut seed = 7u64;
    for ratio in [COMPACT, DEFAULT, FASTEST] {
        let mut out = ByteOutput::new();
        let writer = ForUtil::with_output(ratio, &mut out);
        let mut scratch = vec![0u8; MAX_ENCODED_SIZE];
        let mut blocks: Vec<Vec<u32>> = Vec::new();
        for width in 1..=32u32 {
            let values = block_of_width(width, &mut seed);
            writer.write_block(&values, &mut scratch, &mut out);
            blocks.push(values);
            let constant = vec![width * 1000; BLOCK_SIZE];
            writer.write_block(&constant, &mut scratch, &mut out);
            blocks.push(constant);
        }
        let bytes = out.into_bytes();
        let total = bytes.len();
        let mut input = ByteInput::new(bytes);
        let reader = ForUtil::with_input(&mut input).unwrap();
        let mut decoded = vec![0u32; max_data_size()];
        for values in &blocks {
            assert_eq!(reader.read_block(&mut input, &mut scratch, &mut decoded), Ok(()));
            assert_eq!(&decoded[..BLOCK_SIZE], &values[..]);
        }
        assert_eq!(input.file_pointer(), total);
        assert_eq!(
            reader.read_block(&mut input, &mut scratch, &mut decoded),
            Err(Error::UnexpectedEof)
        );
    }
}

#[test]
fn skipping_then_reading_equals_reading_all() {
    let mut seed = 99u64;
    let mut out = ByteOutput::new();
    let table = ForUtil::with_output(DEFAULT, &mut out);
    let header_len = out.file_pointer();
    let mut scratch = vec![0u8; MAX_ENCODED_SIZE];
    let mut blocks: Vec<Vec<u32>> = Vec::new();
    for width in [5u32, 32, 1, 13, 21] {
        let values = block_of_width(width, &mut seed);
        table.write_block(&values, &mut scratch, &mut out);
        blocks.push(values);
        let constant = vec![width; BLOCK_SIZE];
        table.write_block(&constant, &mut scratch, &mut out);
        blocks.push(constant);
    }
    let bytes = out.into_bytes();
    let mut ends: Vec<usize> = Vec::new();
    let mut sequential = ByteInput::new(bytes.clone());
    sequential.seek(header_len).unwrap();
    let mut decoded = vec![0u32; MAX_DATA_SIZE];
    for _ in &blocks {
        table.read_block(&mut sequential, &mut scratch, &mut decoded).unwrap();
        ends.push(sequential.file_pointer());
    }
    for index in 0..blocks.len() {
        let mut input = ByteInput::new(bytes.clone());
        input.seek(header_len).unwrap();
        for skipped in 0..index {
            assert_eq!(table.skip_block(&mut input), Ok(()));
            assert_eq!(input.file_pointer(), ends[skipped]);
        }
        let mut decoded = vec![0u32; MAX_DATA_SIZE];
        assert_eq!(table.read_block(&mut input, &mut scratch, &mut decoded), Ok(()));
        assert_eq!(&decoded[..BLOCK_SIZE], &blocks[index][..]);
        assert_eq!(input.file_pointer(), ends[index]);
    }
}

#[test]
fn max_data_size_is_147() {
    assert_eq!(max_data_size(), 147);
    assert_eq!(max_data_size(), MAX_DATA_SIZE);
}

#[test]
fn no_layout_overshoots_the_capacity_bound() {
    let bound = max_data_size();
    for ratio in [COMPACT, DEFAULT, FAST, FASTEST] {
        let mut header = ByteOutput::new();
        let table = ForUtil::with_output(ratio, &mut header);
        for width in 1..=32usize {
            let layout = table.layout_of(width);
            let decoder = for_util::bulk::get_decoder(
                layout.format,
                VERSION_CURRENT,
                layout.bits_per_value,
            )
            .unwrap();
            let capacity = table.iterations_of(width) * decoder.byte_value_count();
            assert!(capacity >= BLOCK_SIZE);
            assert!(capacity <= bound);
            assert!(
                table.iterations_of(width) * decoder.byte_block_count()
                    >= table.encoded_size_of(width)
            );
            assert!(table.encoded_size_of(width) <= MAX_ENCODED_SIZE);
        }
    }
}

#[test]
fn blocks_that_cannot_be_read() {
    let mut header = ByteOutput::new();
    let table = ForUtil::with_output(COMPACT, &mut header);
    let (r, decoded, end) = read_one(&table, vec![]);
    assert_eq!(r, Err(Error::UnexpectedEof));
    assert_eq!(end, 0);
    assert!(decoded.iter().all(|v| *v == 0xdead_beef));
    let (r, _, end) = read_one(&table, vec![33u8, 1, 2, 3]);
    assert_eq!(r, Err(Error::InvalidMarker));
    assert_eq!(end, 0);
    let (r, _, end) = read_one(&table, vec![255u8]);
    assert_eq!(r, Err(Error::InvalidMarker));
    assert_eq!(end, 0);
    let (r, _, end) = read_one(&table, vec![0u8]);
    assert_eq!(r, Err(Error::UnexpectedEof));
    assert_eq!(end, 0);
    let (r, _, end) = read_one(&table, vec![0u8, 0x80, 0x80, 0x80, 0x80, 0x10]);
    assert_eq!(r, Err(Error::InvalidVInt));
    assert_eq!(end, 0);
    let mut short = vec![8u8];
    short.extend(std::iter::repeat(1u8).take(127));
    let (r, decoded, end) = read_one(&table, short.clone());
    assert_eq!(r, Err(Error::UnexpectedEof));
    assert_eq!(end, 0);
    assert!(decoded.iter().all(|v| *v == 0xdead_beef));
    let mut input = ByteInput::new(short);
    assert_eq!(table.skip_block(&mut input), Err(Error::UnexpectedEof));
    assert_eq!(input.file_pointer(), 0);
    let mut input = ByteInput::new(vec![40u8]);
    assert_eq!(table.skip_block(&mut input), Err(Error::InvalidMarker));
    let mut input = ByteInput::new(vec![0u8, 0x81]);
    assert_eq!(table.skip_block(&mut input), Err(Error::UnexpectedEof));
    assert_eq!(input.file_pointer(), 0);
}

#[test]
fn a_clone_shares_the_table() {
    let mut header = ByteOutput::new();
    let table = ForUtil::with_output(FAST, &mut header);
    let copy = table.clone();
    let values: Vec<u32> = (0..BLOCK_SIZE as u32).map(|v| v * 3).collect();
    let bytes = write_one(&table, &values);
    let (r, decoded, _) = read_one(&copy, bytes);
    assert_eq!(r, Ok(()));
    assert_eq!(&decoded[..BLOCK_SIZE], &values[..]);
}

#[test]
fn single_block_layout_on_the_wire() {
    let mut header = ByteOutput::new();
    let table = ForUtil::with_output(DEFAULT, &mut header);
    assert_eq!(table.layout_of(3).format, Format::PackedSingleBlock);
    let values: Vec<u32> = (0..BLOCK_SIZE as u32).map(|i| (i * 5 + 3) % 8).collect();
    let bytes = write_one(&table, &values);
    assert_eq!(bytes[0], 3);
    assert_eq!(bytes.len(), 1 + 7 * 8);
    let mut expected: Vec<u8> = vec![3];
    for word in 0..7usize {
        let mut packed: u64 = 0;
        for slot in 0..21usize {
            let at = word * 21 + slot;
            let value: u64 = if at < BLOCK_SIZE { values[at] as u64 } else { 0 };
            packed |= value << (3 * slot);
        }
        expected.extend_from_slice(&packed.to_be_bytes());
    }
    assert_eq!(bytes, expected);
    let (r, decoded, end) = read_one(&table, bytes);
    assert_eq!(r, Ok(()));
    assert_eq!(end, 57);
    assert_eq!(&decoded[..BLOCK_SIZE], &values[..]);
    assert!(decoded[BLOCK_SIZE..].iter().all(|v| *v == 0));
}

#[test]
fn packed_layout_on_the_wire() {
    let mut header = ByteOutput::new();
    let table = ForUtil::with_output(COMPACT, &mut header);
    assert_eq!(table.layout_of(3).format, Format::Packed);
    let values: Vec<u32> = (0..BLOCK_SIZE as u32).map(|i| (i * 5 + 3) % 8).collect();
    let bytes = write_one(&table, &values);
    assert_eq!(bytes[0], 3);
    assert_eq!(bytes.len(), 1 + 48);
    let mut bits: Vec<u8> = Vec::new();
    for value in &values {
        for shift in (0..3).rev() {
            bits.push(((value >> shift) & 1) as u8);
        }
    }
    let mut expected: Vec<u8> = vec![3];
    for chunk in bits.chunks(8) {
        expected.push(chunk.iter().fold(0u8, |byte, bit| byte << 1 | bit));
    }
    assert_eq!(bytes, expected);
}

#[test]
fn only_a_table_built_for_output_can_encode() {
    let mut out = ByteOutput::new();
    let writer = ForUtil::with_output(FAST, &mut out);
    assert!(writer.can_encode());
    let mut input = ByteInput::new(out.into_bytes());
    let reader = ForUtil::with_input(&mut input).unwrap();
    assert!(!reader.can_encode());
}
