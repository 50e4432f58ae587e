use for_util::bulk::{get_decoder, get_encoder, BulkOperation};
use for_util::error::Error;
use for_util::for_util::{compute_iterations, encoded_size};
use for_util::packed::{
    check_version, unsigned_bits_required, Format, FormatAndBits, BLOCK_SIZE, COMPACT, DEFAULT,
    FAST, FASTEST, VERSION_BYTE_ALIGNED, VERSION_CURRENT, VERSION_START,
};

const SINGLE_BLOCK_WIDTHS: [u32; 14] = [1, 2, 3, 4, 5, 6, 7, 8, 9, 10, 12, 16, 21, 32];

fn packed(bits_per_value: u32) -> FormatAndBits {
    FormatAndBits { format: Format::Packed, bits_per_value }
}

fn single_block(bits_per_value: u32) -> FormatAndBits {
    FormatAndBits { format: Format::PackedSingleBlock, bits_per_value }
}

#[test]
fn versions() {
    assert_eq!(check_version(VERSION_START), Ok(()));
    assert_eq!(check_version(VERSION_BYTE_ALIGNED), Ok(()));
    assert_eq!(check_version(VERSION_CURRENT), Ok(()));
    assert_eq!(check_version(VERSION_CURRENT + 1), Err(Error::UnsupportedVersion));
    assert_eq!(check_version(u32::MAX), Err(Error::UnsupportedVersion));
}

#[test]
fn format_ids() {
    assert_eq!(Format::Packed.get_id(), 0);
    assert_eq!(Format::PackedSingleBlock.get_id(), 1);
    assert_eq!(Format::with_id(0), Ok(Format::Packed));
    assert_eq!(Format::with_id(1), Ok(Format::PackedSingleBlock));
    assert_eq!(Format::with_id(2), Err(Error::UnknownFormat));
    assert_eq!(Format::with_id(u32::MAX), Err(Error::UnknownFormat));
}

#[test]
fn supported_widths() {
    for bits in 0..=70u32 {
        assert_eq!(Format::Packed.is_supported(bits), (1..=64).contains(&bits));
        assert_eq!(
            Format::PackedSingleBlock.is_supported(bits),
            SINGLE_BLOCK_WIDTHS.contains(&bits)
        );
    }
}

#[test]
fn byte_counts() {
    assert_eq!(Format::Packed.byte_count(VERSION_START, 100, 3), 40);
    assert_eq!(Format::Packed.byte_count(VERSION_BYTE_ALIGNED, 100, 3), 38);
    assert_eq!(Format::Packed.byte_count(VERSION_CURRENT, 100, 3), 38);
    assert_eq!(Format::Packed.byte_count(VERSION_CURRENT, 0, 3), 0);
    assert_eq!(Format::Packed.byte_count(VERSION_CURRENT, 1, 1), 1);
    assert_eq!(Format::Packed.byte_count(VERSION_START, 1, 1), 8);
    assert_eq!(Format::Packed.byte_count(VERSION_CURRENT, u32::MAX, 64), 8 * u32::MAX as u64);
    assert_eq!(Format::PackedSingleBlock.byte_count(VERSION_CURRENT, 100, 3), 40);
    assert_eq!(Format::PackedSingleBlock.byte_count(VERSION_START, 22, 3), 16);
    assert_eq!(Format::PackedSingleBlock.byte_count(VERSION_CURRENT, 21, 3), 8);
    assert_eq!(Format::PackedSingleBlock.byte_count(VERSION_CURRENT, 128, 32), 512);
    for version in VERSION_START..=VERSION_CURRENT {
        for bits in 1..=32u32 {
            assert_eq!(
                Format::Packed.byte_count(version, BLOCK_SIZE as u32, bits),
                16 * bits as u64
            );
            assert_eq!(encoded_size(Format::Packed, version, bits), 16 * bits as usize);
        }
    }
}

#[test]
fn header_codes() {
    assert_eq!(packed(1).to_code(), 0);
    assert_eq!(packed(32).to_code(), 31);
    assert_eq!(single_block(1).to_code(), 32);
    assert_eq!(single_block(21).to_code(), 32 + 20);
    assert_eq!(single_block(32).to_code(), 63);
}

#[test]
fn bits_of_a_number() {
    assert_eq!(unsigned_bits_required(0), 1);
    assert_eq!(unsigned_bits_required(1), 1);
    assert_eq!(unsigned_bits_required(2), 2);
    assert_eq!(unsigned_bits_required(3), 2);
    assert_eq!(unsigned_bits_required(4), 3);
    assert_eq!(unsigned_bits_required(200), 8);
    assert_eq!(unsigned_bits_required(255), 8);
    assert_eq!(unsigned_bits_required(256), 9);
    assert_eq!(unsigned_bits_required(u32::MAX as u64), 32);
    assert_eq!(unsigned_bits_required(1 << 32), 33);
    assert_eq!(unsigned_bits_required(u64::MAX >> 1), 63);
    assert_eq!(unsigned_bits_required(1 << 63), 64);
    assert_eq!(unsigned_bits_required(u64::MAX), 64);
}

#[test]
fn fastest_without_overhead() {
    for bits in 1..=64u32 {
        let expected = if bits == 1 || bits == 2 || bits == 4 {
            single_block(bits)
        } else {
            packed(bits)
        };
        assert_eq!(FormatAndBits::fastest(BLOCK_SIZE, bits, COMPACT), expected);
    }
}

#[test]
fn fastest_with_default_overhead() {
    let expected: [(u32, FormatAndBits); 12] = [
        (1, single_block(1)),
        (2, single_block(2)),
        (3, single_block(3)),
        (4, single_block(4)),
        (5, single_block(5)),
        (6, single_block(6)),
        (7, packed(8)),
        (8, packed(8)),
        (9, single_block(9)),
        (10, single_block(10)),
        (11, single_block(12)),
        (13, packed(16)),
    ];
    for (bits, layout) in expected {
        assert_eq!(FormatAndBits::fastest(BLOCK_SIZE, bits, DEFAULT), layout, "bits {}", bits);
    }
    assert_eq!(FormatAndBits::fastest(BLOCK_SIZE, 17, DEFAULT), packed(17));
    assert_eq!(FormatAndBits::fastest(BLOCK_SIZE, 19, DEFAULT), single_block(21));
    assert_eq!(FormatAndBits::fastest(BLOCK_SIZE, 20, DEFAULT), packed(24));
    assert_eq!(FormatAndBits::fastest(BLOCK_SIZE, 22, DEFAULT), packed(24));
    assert_eq!(FormatAndBits::fastest(usize::MAX, 22, DEFAULT), packed(22));
    assert_eq!(FormatAndBits::fastest(BLOCK_SIZE, 25, DEFAULT), packed(25));
    assert_eq!(FormatAndBits::fastest(BLOCK_SIZE, 26, DEFAULT), packed(32));
    assert_eq!(FormatAndBits::fastest(BLOCK_SIZE, 40, DEFAULT), packed(48));
    assert_eq!(FormatAndBits::fastest(BLOCK_SIZE, 52, DEFAULT), packed(64));
}

#[test]
fn fastest_with_large_overhead() {
    for bits in 1..=64u32 {
        let aligned = if bits <= 8 {
            8
        } else if bits <= 16 {
            16
        } else if bits <= 32 {
            32
        } else {
            64
        };
        assert_eq!(FormatAndBits::fastest(BLOCK_SIZE, bits, FASTEST), packed(aligned));
        assert_eq!(FormatAndBits::fastest(BLOCK_SIZE, bits, u32::MAX), packed(aligned));
    }
    assert_eq!(FormatAndBits::fastest(BLOCK_SIZE, 5, FAST), single_block(5));
    assert_eq!(FormatAndBits::fastest(BLOCK_SIZE, 6, FAST), packed(8));
    assert_eq!(FormatAndBits::fastest(BLOCK_SIZE, 11, FAST), packed(16));
}

#[test]
fn fastest_picks_layouts_that_exist() {
    for ratio in [COMPACT, 1, 50, DEFAULT, 333, FAST, 999, 1000, 2500, FASTEST, 8000] {
        for bits in 1..=64u32 {
            let layout = FormatAndBits::fastest(BLOCK_SIZE, bits, ratio);
            assert!(layout.format.is_supported(layout.bits_per_value));
            assert!(layout.bits_per_value >= bits);
            if bits <= 32 {
                assert!(layout.bits_per_value <= 32);
            }
        }
    }
}

#[test]
fn decoders_of_the_catalogue() {
    for version in VERSION_START..=VERSION_CURRENT {
        for bits in 1..=32u32 {
            let decoder = get_decoder(Format::Packed, version, bits).unwrap();
            assert_eq!(decoder.format_and_bits(), packed(bits));
            let encoder = get_encoder(Format::PackedSingleBlock, version, bits);
            assert_eq!(encoder.is_ok(), SINGLE_BLOCK_WIDTHS.contains(&bits));
            if let Err(e) = encoder {
                assert_eq!(e, Error::UnsupportedLayout);
            }
        }
    }
    assert_eq!(get_decoder(Format::Packed, 3, 8).err(), Some(Error::UnsupportedVersion));
    assert_eq!(get_decoder(Format::PackedSingleBlock, 3, 11).err(), Some(Error::UnsupportedVersion));
    assert_eq!(get_decoder(Format::Packed, 2, 0).err(), Some(Error::UnsupportedLayout));
    assert_eq!(get_decoder(Format::Packed, 2, 33).err(), Some(Error::UnsupportedLayout));
    assert_eq!(get_encoder(Format::Packed, 2, 64).err(), Some(Error::UnsupportedLayout));
    assert_eq!(get_encoder(Format::PackedSingleBlock, 0, 11).err(), Some(Error::UnsupportedLayout));
}

#[test]
fn iteration_sizes() {
    let sizes: [(u32, usize, usize); 8] = [
        (1, 8, 1),
        (2, 4, 1),
        (3, 8, 3),
        (4, 2, 1),
        (12, 2, 3),
        (16, 1, 2),
        (30, 4, 15),
        (32, 1, 4),
    ];
    for (bits, values, bytes) in sizes {
        let op = BulkOperation::of(packed(bits));
        assert_eq!(op.byte_value_count(), values);
        assert_eq!(op.byte_block_count(), bytes);
        assert_eq!(compute_iterations(&op), BLOCK_SIZE / values);
    }
    let counts: [(u32, usize, usize); 14] = [
        (1, 64, 2),
        (2, 32, 4),
        (3, 21, 7),
        (4, 16, 8),
        (5, 12, 11),
        (6, 10, 13),
        (7, 9, 15),
        (8, 8, 16),
        (9, 7, 19),
        (10, 6, 22),
        (12, 5, 26),
        (16, 4, 32),
        (21, 3, 43),
        (32, 2, 64),
    ];
    for (bits, values, iterations) in counts {
        let op = BulkOperation::of(single_block(bits));
        assert_eq!(op.byte_value_count(), values);
        assert_eq!(op.byte_block_count(), 8);
        assert_eq!(compute_iterations(&op), iterations);
        assert_eq!(encoded_size(Format::PackedSingleBlock, VERSION_CURRENT, bits), 8 * iterations);
    }
}

#[test]
fn packed_three_bits_exact_bytes() {
    let op = BulkOperation::of(packed(3));
    let values: [u32; 8] = [1, 2, 3, 4, 5, 6, 7, 0];
    let mut bytes = [0xaau8; 5];
    op.encode_int_to_byte(&values, &mut bytes, 1);
    assert_eq!(bytes, [0x29, 0xcb, 0xb8, 0xaa, 0xaa]);
    let mut decoded = [9u32; 10];
    op.decode_byte_to_int(&bytes, &mut decoded, 1);
    assert_eq!(decoded, [1, 2, 3, 4, 5, 6, 7, 0, 9, 9]);
}

#[test]
fn packed_twelve_bits_exact_bytes() {
    let op = BulkOperation::of(packed(12));
    let values: [u32; 4] = [0xabc, 0x123, 0xfff, 0x001];
    let mut bytes = [0u8; 6];
    op.encode_int_to_byte(&values, &mut bytes, 2);
    assert_eq!(bytes, [0xab, 0xc1, 0x23, 0xff, 0xf0, 0x01]);
    let mut decoded = [0u32; 4];
    op.decode_byte_to_int(&bytes, &mut decoded, 2);
    assert_eq!(decoded, values);
}

#[test]
fn packed_thirty_two_bits_exact_bytes() {
    let op = BulkOperation::of(packed(32));
    let values: [u32; 2] = [0x0102_0304, 0xfffe_fdfc];
    let mut bytes = [0u8; 8];
    op.encode_int_to_byte(&values, &mut bytes, 2);
    assert_eq!(bytes, [1, 2, 3, 4, 0xff, 0xfe, 0xfd, 0xfc]);
    let mut decoded = [0u32; 2];
    op.decode_byte_to_int(&bytes, &mut decoded, 2);
    assert_eq!(decoded, values);
}

#[test]
fn single_block_four_bits_exact_bytes() {
    let op = BulkOperation::of(single_block(4));
    let values: [u32; 16] = [1, 2, 3, 4, 5, 6, 7, 8, 9, 10, 11, 12, 13, 14, 15, 0];
    let mut bytes = [0x55u8; 9];
    op.encode_int_to_byte(&values, &mut bytes, 1);
    assert_eq!(bytes, [0x0f, 0xed, 0xcb, 0xa9, 0x87, 0x65, 0x43, 0x21, 0x55]);
    let mut decoded = [77u32; 17];
    op.decode_byte_to_int(&bytes, &mut decoded, 1);
    assert_eq!(&decoded[..16], &values[..]);
    assert_eq!(decoded[16], 77);
}

#[test]
fn single_block_three_bits_exact_bytes() {
    let op = BulkOperation::of(single_block(3));
    let mut values = [0u32; 21];
    values[0] = 5;
    values[1] = 1;
    values[20] = 7;
    let mut bytes = [0u8; 8];
    op.encode_int_to_byte(&values, &mut bytes, 1);
    let word: u64 = 5 | 1 << 3 | 7 << 60;
    assert_eq!(bytes, word.to_be_bytes());
    let mut decoded = [0u32; 21];
    op.decode_byte_to_int(&bytes, &mut decoded, 1);
    assert_eq!(decoded, values);
}

#[test]
fn encoder_cuts_values_to_the_width() {
    let op = BulkOperation::of(packed(4));
    let values: [u32; 2] = [0xf3, 0x1c];
    let mut bytes = [0u8; 1];
    op.encode_int_to_byte(&values, &mut bytes, 1);
    assert_eq!(bytes, [0x3c]);
    let op = BulkOperation::of(single_block(32));
    let values: [u32; 2] = [u32::MAX, 1];
    let mut bytes = [0u8; 8];
    op.encode_int_to_byte(&values, &mut bytes, 1);
    assert_eq!(bytes, [0, 0, 0, 1, 0xff, 0xff, 0xff, 0xff]);
}

#[test]
fn encoder_reads_zeros_where_values_run_out() {
    let op = BulkOperation::of(packed(8));
    let values: [u32; 2] = [1, 2];
    let mut bytes = [9u8; 5];
    op.encode_int_to_byte(&values, &mut bytes, 4);
    assert_eq!(bytes, [1, 2, 0, 0, 9]);
    let op = BulkOperation::of(single_block(16));
    let values: [u32; 5] = [1, 2, 3, 4, 5];
    let mut bytes = [9u8; 16];
    op.encode_int_to_byte(&values, &mut bytes, 2);
    assert_eq!(bytes, [0, 4, 0, 3, 0, 2, 0, 1, 0, 0, 0, 0, 0, 0, 0, 5]);
}

#[test]
fn every_layout_round_trips() {
    let mut seed = 5u64;
    for bits in 1..=32u32 {
        let mask: u32 = if bits == 32 { u32::MAX } else { (1u32 << bits) - 1 };
        let mut layouts = vec![packed(bits)];
        if SINGLE_BLOCK_WIDTHS.contains(&bits) {
            layouts.push(single_block(bits));
        }
        for layout in layouts {
            let op = BulkOperation::of(layout);
            let iterations = compute_iterations(&op);
            let count = iterations * op.byte_value_count();
            let values: Vec<u32> = (0..count)
                .map(|_| {
                    seed = seed.wrapping_mul(6364136223846793005).wrapping_add(1442695040888963407);
                    (seed >> 32) as u32 & mask
                })
                .collect();
            let mut bytes = vec![0u8; iterations * op.byte_block_count()];
            op.encode_int_to_byte(&values, &mut bytes, iterations);
            let mut decoded = vec![0u32; count];
            op.decode_byte_to_int(&bytes, &mut decoded, iterations);
            assert_eq!(decoded, values);
        }
    }
}
