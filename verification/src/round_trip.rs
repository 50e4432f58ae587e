//! What written bytes give back when they are read: headers, blocks, and runs of
//! blocks that are skipped or decoded.

use vstd::prelude::*;
use vstd::arithmetic::div_mod::lemma_small_mod;
use vstd::arithmetic::power2::pow2;
use crate::bulk::{
    digit_values, lemma_coding_lengths, lemma_decoding_inverts_encoding, value_digits,
    values_per_iteration,
};
use crate::error::Error;
use crate::for_util::{
    all_equal, bits_needed, block_decoding, block_encoding, block_end, block_iterations,
    block_packing, encoded_block_size, header_bytes, layout_codes, layouts_cover, layouts_valid,
    lemma_block_geometry, lemma_least_width, parse_header, parse_layouts, ForUtil,
};
use crate::packed::{lemma_code_round_trip, version_supported, FormatAndBits, BLOCK_SIZE};
use crate::radix::lemma_pow2_monotonic;
use crate::store::{lemma_vint_at, vint_bytes};

verus! {

/// Where the codes of the first `count` layouts stand at `pos`, those layouts are
/// read there, and reading stops right after the last code.
pub proof fn lemma_layout_codes_round_trip(
    bytes: Seq<u8>,
    pos: int,
    layouts: Seq<FormatAndBits>,
    count: nat,
)
    requires
        layouts_valid(layouts),
        count <= 32,
        0 <= pos,
        pos + layout_codes(layouts, count).len() <= bytes.len(),
        bytes.subrange(pos, pos + layout_codes(layouts, count).len()) == layout_codes(
            layouts,
            count,
        ),
    ensures
        parse_layouts(bytes, pos, count) == Ok::<(Seq<FormatAndBits>, int), Error>(
            (layouts.take(count as int), pos + layout_codes(layouts, count).len()),
        ),
    decreases count,
{
    if count == 0 {
        assert(layouts.take(0) =~= Seq::<FormatAndBits>::empty());
    } else {
        let shorter = layout_codes(layouts, (count - 1) as nat);
        let layout = layouts[count - 1];
        let code = vint_bytes(layout.code() as nat);
        let all = layout_codes(layouts, count);
        let at = pos + shorter.len();
        assert(all =~= shorter + code);
        assert(bytes.subrange(pos, at) =~= shorter) by {
            assert forall|i: int| 0 <= i < shorter.len() implies bytes[pos + i] == shorter[i] by {
                assert(bytes.subrange(pos, pos + all.len())[i] == all[i]);
            }
        }
        lemma_layout_codes_round_trip(bytes, pos, layouts, (count - 1) as nat);
        assert(bytes.subrange(at, at + code.len()) =~= code) by {
            assert forall|i: int| 0 <= i < code.len() implies bytes[at + i] == code[i] by {
                assert(bytes.subrange(pos, pos + all.len())[shorter.len() + i] == all[shorter.len()
                    + i]);
            }
        }
        lemma_vint_at(bytes, at, layout.code() as nat);
        lemma_code_round_trip(layout);
        assert(layouts.take(count - 1).push(layout) =~= layouts.take(count as int));
    }
}

/// A header that was written is read back as the version and the layouts that it
/// was written for, whatever stands before and after it, and reading stops right
/// after it.
pub proof fn lemma_header_round_trip(
    version: u32,
    layouts: Seq<FormatAndBits>,
    before: Seq<u8>,
    after: Seq<u8>,
)
    requires
        version_supported(version),
        layouts_valid(layouts),
    ensures
        parse_header(before + header_bytes(version, layouts) + after, before.len() as int) == Ok::<
            (u32, Seq<FormatAndBits>, int),
            Error,
        >((version, layouts, (before.len() + header_bytes(version, layouts).len()) as int)),
{
    let header = header_bytes(version, layouts);
    let bytes = before + header + after;
    let pos = before.len() as int;
    let tag = vint_bytes(version as nat);
    let codes = layout_codes(layouts, 32);
    assert(bytes.subrange(pos, pos + tag.len()) =~= tag);
    lemma_vint_at(bytes, pos, version as nat);
    let at = pos + tag.len();
    assert(bytes.subrange(at, at + codes.len()) =~= codes);
    lemma_layout_codes_round_trip(bytes, at, layouts, 32);
    assert(layouts.take(32) =~= layouts);
}

/// Two tables with the same version and the same layouts hold the same bytes and
/// the same iterations for every width: a table read from a header holds what
/// the table that wrote the header holds.
pub proof fn lemma_same_layouts_same_table(writer: ForUtil, reader: ForUtil)
    requires
        writer.wf(),
        reader.wf(),
        reader.version() == writer.version(),
        reader.layouts() == writer.layouts(),
    ensures
        forall|b: int|
            1 <= b <= 32 ==> {
                &&& #[trigger] reader.encoded_size(b) == writer.encoded_size(b)
                &&& reader.iterations(b) == writer.iterations(b)
            },
{
    writer.lemma_table();
    reader.lemma_table();
}

/// A block of equal values is written as the marker 0 and the value, whatever the
/// table, and is read back as [`BLOCK_SIZE`] copies of the value.
pub proof fn lemma_constant_block(
    layouts: Seq<FormatAndBits>,
    version: u32,
    values: Seq<u32>,
    before: Seq<u8>,
    after: Seq<u8>,
)
    requires
        values.len() >= BLOCK_SIZE,
        all_equal(values),
    ensures
        block_encoding(layouts, version, values) == seq![0u8] + vint_bytes(values[0] as nat),
        block_decoding(
            layouts,
            version,
            before + block_encoding(layouts, version, values) + after,
            before.len() as int,
        ) == Ok::<(Seq<u32>, int), Error>(
            (
                Seq::new(BLOCK_SIZE as nat, |i: int| values[0]),
                (before.len() + 1 + vint_bytes(values[0] as nat).len()) as int,
            ),
        ),
{
    let block = block_encoding(layouts, version, values);
    let bytes = before + block + after;
    let pos = before.len() as int;
    let scalar = vint_bytes(values[0] as nat);
    assert(bytes[pos] == block[0]);
    assert(bytes.subrange(pos + 1, pos + 1 + scalar.len()) =~= scalar);
    lemma_vint_at(bytes, pos + 1, values[0] as nat);
    assert(Seq::new(BLOCK_SIZE as nat, |i: int| (values[0] as nat) as u32) =~= Seq::new(
        BLOCK_SIZE as nat,
        |i: int| values[0],
    ));
}

/// A block that was written is read back with the values that it was written
/// from, whatever stands before and after it, and reading stops right after it.
/// This holds for every table whose layouts are wide enough for their widths,
/// and under every protocol version.
pub proof fn lemma_block_round_trip(
    layouts: Seq<FormatAndBits>,
    version: u32,
    values: Seq<u32>,
    before: Seq<u8>,
    after: Seq<u8>,
)
    requires
        layouts_valid(layouts),
        layouts_cover(layouts),
        values.len() >= BLOCK_SIZE,
    ensures
        ({
            let block = block_encoding(layouts, version, values);
            let read = block_decoding(layouts, version, before + block + after, before.len() as int);
            &&& read is Ok
            &&& read->Ok_0.1 == before.len() + block.len()
            &&& read->Ok_0.0.len() >= BLOCK_SIZE
            &&& read->Ok_0.0.take(BLOCK_SIZE as int) == values.take(BLOCK_SIZE as int)
        }),
{
    let block = block_encoding(layouts, version, values);
    let bytes = before + block + after;
    let pos = before.len() as int;
    if all_equal(values) {
        lemma_constant_block(layouts, version, values, before, after);
        let read = block_decoding(layouts, version, bytes, pos);
        assert(read->Ok_0.0.take(BLOCK_SIZE as int) =~= values.take(BLOCK_SIZE as int));
    } else {
        lemma_least_width(values, 1);
        let bits = bits_needed(values);
        let layout = layouts[bits - 1];
        let wide = layout.bits_per_value as nat;
        let n = block_iterations(layout);
        let size = encoded_block_size(layout, version);
        let first = values.take(BLOCK_SIZE as int);
        let packing = block_packing(layouts, values);
        assert(layout.valid());
        lemma_block_geometry(layout, version);
        lemma_coding_lengths(layout, first, Seq::empty(), n);
        assert(packing.take(size as int) =~= packing);
        assert(bytes[pos] == block[0]);
        let payload = bytes.subrange(pos + 1, pos + 1 + size);
        assert(payload =~= packing);
        assert(packing + Seq::<u8>::empty() =~= packing);
        lemma_decoding_inverts_encoding(layout, first, n, Seq::empty());
        let read = block_decoding(layouts, version, bytes, pos);
        let got = read->Ok_0.0;
        assert(got == digit_values(value_digits(first, wide, n * values_per_iteration(layout))));
        lemma_pow2_monotonic(bits, wide);
        assert forall|i: int| 0 <= i < BLOCK_SIZE implies got[i] == values[i] by {
            assert(first[i] == values[i]);
            assert(values[i] < pow2(bits));
            lemma_small_mod(values[i] as nat, pow2(wide));
        }
        assert(got.take(BLOCK_SIZE as int) =~= first);
    }
}

/// The position after `count` blocks that are skipped one after the other from
/// `pos` on, or the first failure met on the way.
pub open spec fn skip_blocks(
    layouts: Seq<FormatAndBits>,
    version: u32,
    bytes: Seq<u8>,
    pos: int,
    count: nat,
) -> Result<int, Error>
    decreases count,
{
    if count == 0 {
        Ok(pos)
    } else {
        match skip_blocks(layouts, version, bytes, pos, (count - 1) as nat) {
            Err(e) => Err(e),
            Ok(at) => block_end(layouts, version, bytes, at),
        }
    }
}

/// The values of `count` blocks that are decoded one after the other from `pos`
/// on, with the position after the last, or the first failure met on the way.
pub open spec fn read_blocks(
    layouts: Seq<FormatAndBits>,
    version: u32,
    bytes: Seq<u8>,
    pos: int,
    count: nat,
) -> Result<(Seq<Seq<u32>>, int), Error>
    decreases count,
{
    if count == 0 {
        Ok((Seq::empty(), pos))
    } else {
        match read_blocks(layouts, version, bytes, pos, (count - 1) as nat) {
            Err(e) => Err(e),
            Ok((blocks, at)) => match block_decoding(layouts, version, bytes, at) {
                Err(e) => Err(e),
                Ok((values, end)) => Ok((blocks.push(values), end)),
            },
        }
    }
}

/// Skipping a block ends where decoding it ends, and fails where decoding it
/// fails, for the same reason.
pub proof fn lemma_skip_ends_where_read_ends(
    layouts: Seq<FormatAndBits>,
    version: u32,
    bytes: Seq<u8>,
    pos: int,
)
    ensures
        block_end(layouts, version, bytes, pos) == match block_decoding(
            layouts,
            version,
            bytes,
            pos,
        ) {
            Ok((values, end)) => Ok::<int, Error>(end),
            Err(e) => Err::<int, Error>(e),
        },
{
}

/// Where `count` blocks can be decoded in a row, any fewer can be skipped, skipping
/// them ends where decoding them ends, and decoding them gives the first of the
/// blocks that decoding them all gives.
pub proof fn lemma_skipped_run(
    layouts: Seq<FormatAndBits>,
    version: u32,
    bytes: Seq<u8>,
    pos: int,
    count: nat,
    fewer: nat,
)
    requires
        fewer <= count,
        read_blocks(layouts, version, bytes, pos, count) is Ok,
    ensures
        read_blocks(layouts, version, bytes, pos, fewer) is Ok,
        skip_blocks(layouts, version, bytes, pos, fewer) == Ok::<int, Error>(
            read_blocks(layouts, version, bytes, pos, fewer)->Ok_0.1,
        ),
        read_blocks(layouts, version, bytes, pos, fewer)->Ok_0.0 == read_blocks(
            layouts,
            version,
            bytes,
            pos,
            count,
        )->Ok_0.0.take(fewer as int),
        read_blocks(layouts, version, bytes, pos, count)->Ok_0.0.len() == count,
    decreases count,
{
    let all = read_blocks(layouts, version, bytes, pos, count)->Ok_0.0;
    if count == 0 {
        assert(all.take(0) =~= all);
    } else {
        let shorter = (count - 1) as nat;
        lemma_skipped_run(layouts, version, bytes, pos, shorter, shorter);
        let at = read_blocks(layouts, version, bytes, pos, shorter)->Ok_0.1;
        lemma_skip_ends_where_read_ends(layouts, version, bytes, at);
        if fewer == count {
            assert(all.take(count as int) =~= all);
        } else {
            lemma_skipped_run(layouts, version, bytes, pos, shorter, fewer);
            let head = read_blocks(layouts, version, bytes, pos, shorter)->Ok_0.0;
            assert(head.take(fewer as int) =~= all.take(fewer as int));
        }
    }
}

/// Decoding block `index` after skipping the blocks before it gives the values
/// that decoding all `count` blocks in a row gives for it.
pub proof fn lemma_skip_equivalence(
    layouts: Seq<FormatAndBits>,
    version: u32,
    bytes: Seq<u8>,
    pos: int,
    count: nat,
    index: nat,
)
    requires
        index < count,
        read_blocks(layouts, version, bytes, pos, count) is Ok,
    ensures
        skip_blocks(layouts, version, bytes, pos, index) is Ok,
        block_decoding(
            layouts,
            version,
            bytes,
            skip_blocks(layouts, version, bytes, pos, index)->Ok_0,
        ) is Ok,
        block_decoding(
            layouts,
            version,
            bytes,
            skip_blocks(layouts, version, bytes, pos, index)->Ok_0,
        )->Ok_0.0 == read_blocks(layouts, version, bytes, pos, count)->Ok_0.0[index as int],
{
    lemma_skipped_run(layouts, version, bytes, pos, count, index);
    lemma_skipped_run(layouts, version, bytes, pos, count, index + 1);
    let longer = read_blocks(layouts, version, bytes, pos, index + 1)->Ok_0.0;
    let all = read_blocks(layouts, version, bytes, pos, count)->Ok_0.0;
    assert(longer[index as int] == all.take((index + 1) as int)[index as int]);
}

} // verus!
