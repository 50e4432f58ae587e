//! The block codec: the table of layouts, and the encoding, decoding and skipping
//! of blocks with it.

use std::sync::Arc;
use vstd::prelude::*;
use vstd::pervasive::unreached;
use vstd::arithmetic::power2::{lemma2_to64, lemma_pow2_pos, pow2};
use vstd::bits::lemma_u32_shr_is_div;
use vstd::slice::slice_subrange;
use crate::bulk::{
    bytes_per_iteration, decoding, encoding, get_decoder, get_encoder, lemma_coding_lengths,
    lemma_decoding_reads_prefix, lemma_iteration_sizes, resolve, values_per_iteration,
    values_per_word, BulkOperation,
};
use crate::error::Error;
use crate::packed::{
    ceil_div, check_version, lemma_fastest_is_supported, unsigned_bits_required, version_supported,
    Format, FormatAndBits, BLOCK_SIZE, VERSION_CURRENT, VERSION_START,
};
use crate::radix::lemma_pow2_monotonic;
use crate::store::{parse_vint, vint_bytes, ByteInput, ByteOutput};

verus! {

/// The marker of a block whose values are all equal.
pub const ALL_VALUES_EQUAL: u8 = 0;

/// Upper limit of the bytes that the packed values of one block take.
pub const MAX_ENCODED_SIZE: usize = BLOCK_SIZE * 4;

/// Upper limit of the values that decoding one block writes.  Decoders work in
/// whole iterations and may run past the block: the limit is reached by the
/// single-block layout of three bits, with seven words of twenty-one values.
pub const MAX_DATA_SIZE: usize = 147;

/// Iterations that cover a block: the block size divided by the values of one
/// iteration, rounded up.
pub open spec fn block_iterations(layout: FormatAndBits) -> nat {
    ceil_div(BLOCK_SIZE as nat, values_per_iteration(layout))
}

/// Values that the iterations covering a block take or write.
pub open spec fn block_capacity(layout: FormatAndBits) -> nat {
    block_iterations(layout) * values_per_iteration(layout)
}

/// Bytes that the packed values of one block take.
pub open spec fn encoded_block_size(layout: FormatAndBits, version: u32) -> nat {
    layout.format.bytes_needed(version, BLOCK_SIZE as nat, layout.bits_per_value as nat)
}

/// The shape of a block under a valid layout: the iterations that cover it take at
/// least the block and at most [`MAX_DATA_SIZE`] values, and make exactly the
/// bytes of the block, which are at most [`MAX_ENCODED_SIZE`], under every
/// protocol version.
pub proof fn lemma_block_geometry(layout: FormatAndBits, version: u32)
    requires
        layout.valid(),
    ensures
        1 <= block_iterations(layout) <= BLOCK_SIZE,
        BLOCK_SIZE <= block_capacity(layout) <= MAX_DATA_SIZE,
        encoded_block_size(layout, version) == block_iterations(layout) * bytes_per_iteration(
            layout,
        ),
        encoded_block_size(layout, version) <= MAX_ENCODED_SIZE,
{
    let bits = layout.bits_per_value as nat;
    let per = values_per_iteration(layout);
    let n = block_iterations(layout);
    lemma_iteration_sizes(layout);
    match layout.format {
        Format::Packed => {
            assert(128 * bits == 64 * (2 * bits));
            assert(128 * bits == 8 * (16 * bits));
            assert(encoded_block_size(layout, version) == 16 * bits);
            let bytes = bytes_per_iteration(layout);
            if per == 1 {
                lemma_quotient(128, 1, 128);
                assert(n == 128 && n * per == 128);
                assert(bytes * 8 == bits);
                assert(n * bytes == 128 * bytes);
            } else if per == 2 {
                lemma_quotient(129, 2, 64);
                assert(n == 64 && n * per == 128);
                assert(bytes * 8 == 2 * bits);
                assert(n * bytes == 64 * bytes);
            } else if per == 4 {
                lemma_quotient(131, 4, 32);
                assert(n == 32 && n * per == 128);
                assert(bytes * 8 == 4 * bits);
                assert(n * bytes == 32 * bytes);
            } else {
                assert(per == 8);
                lemma_quotient(135, 8, 16);
                assert(n == 16 && n * per == 128);
                assert(bytes * 8 == 8 * bits);
                assert(n * bytes == 16 * bytes);
            }
        },
        Format::PackedSingleBlock => {
            if bits == 1 {
                lemma_word_counts(1, 64, 2);
            } else if bits == 2 {
                lemma_word_counts(2, 32, 4);
            } else if bits == 3 {
                lemma_word_counts(3, 21, 7);
            } else if bits == 4 {
                lemma_word_counts(4, 16, 8);
            } else if bits == 5 {
                lemma_word_counts(5, 12, 11);
            } else if bits == 6 {
                lemma_word_counts(6, 10, 13);
            } else if bits == 7 {
                lemma_word_counts(7, 9, 15);
            } else if bits == 8 {
                lemma_word_counts(8, 8, 16);
            } else if bits == 9 {
                lemma_word_counts(9, 7, 19);
            } else if bits == 10 {
                lemma_word_counts(10, 6, 22);
            } else if bits == 12 {
                lemma_word_counts(12, 5, 26);
            } else if bits == 16 {
                lemma_word_counts(16, 4, 32);
            } else if bits == 21 {
                lemma_word_counts(21, 3, 43);
            } else {
                lemma_word_counts(32, 2, 64);
            }
            assert(n * per <= 147 && n <= 64) by (nonlinear_arith)
                requires
                    n * per < 128 + per,
                    per >= 2,
                    per > 21 ==> n * per == 128,
            ;
            assert(encoded_block_size(layout, version) == 8 * n);
        },
    }
}

/// The values in a word and the words in a block, for one width.
proof fn lemma_word_counts(bits: nat, per: nat, n: nat)
    requires
        per >= 1,
        bits * per <= 64 < bits * (per + 1),
        (n - 1) * per < 128 <= n * per,
    ensures
        values_per_word(bits) == per,
        ceil_div(BLOCK_SIZE as nat, per) == n,
        n * per < 128 + per,
{
    assert(per * bits <= 64 < per * bits + bits) by (nonlinear_arith)
        requires
            bits * per <= 64 < bits * (per + 1),
    ;
    lemma_quotient(64, bits, per);
    assert(n * per <= 127 + per < n * per + per) by (nonlinear_arith)
        requires
            (n - 1) * per < 128 <= n * per,
    ;
    lemma_quotient(127 + per, per, n);
}

/// A number between `q * d` and the next multiple of `d` has the quotient `q`.
proof fn lemma_quotient(x: nat, d: nat, q: nat)
    requires
        d > 0,
        q * d <= x < q * d + d,
    ensures
        x / d == q,
{
    vstd::arithmetic::div_mod::lemma_fundamental_div_mod_converse(
        x as int,
        d as int,
        q as int,
        x - q * d,
    );
}

/// Iterations that `decoder` needs to cover a block.
pub fn compute_iterations(decoder: &BulkOperation) -> (r: usize)
    requires
        decoder.wf(),
    ensures
        r == block_iterations(decoder.layout()),
{
    let per_iteration: usize = decoder.byte_value_count();
    proof {
        decoder.lemma_layout_is_valid();
        lemma_iteration_sizes(decoder.layout());
    }
    (BLOCK_SIZE + per_iteration - 1) / per_iteration
}

/// Bytes that the packed values of one block take under a layout.
pub fn encoded_size(format: Format, version: u32, bits_per_value: u32) -> (r: usize)
    requires
        (FormatAndBits { format, bits_per_value }).valid(),
    ensures
        r == encoded_block_size(FormatAndBits { format, bits_per_value }, version),
{
    proof {
        lemma_block_geometry(FormatAndBits { format, bits_per_value }, version);
    }
    format.byte_count(version, BLOCK_SIZE as u32, bits_per_value) as usize
}

/// The number of slots that a buffer must have to take one decoded block: the
/// largest count of values that the iterations covering a block write, over all
/// protocol versions, both families and every width up to 32.
pub fn max_data_size() -> (r: usize)
    ensures
        r == MAX_DATA_SIZE,
        forall|format: Format, version: u32, bits_per_value: u32|
            resolve(format, version, bits_per_value) is Ok ==> block_capacity(
                FormatAndBits { format, bits_per_value },
            ) <= r,
        exists|layout: FormatAndBits| layout.valid() && block_capacity(layout) == r,
{
    let mut max: usize = 0;
    let mut version: u32 = VERSION_START;
    let ghost widest = FormatAndBits { format: Format::PackedSingleBlock, bits_per_value: 3 };
    while version <= VERSION_CURRENT
        invariant
            VERSION_START <= version <= VERSION_CURRENT + 1,
            widest == (FormatAndBits { format: Format::PackedSingleBlock, bits_per_value: 3 }),
            max <= MAX_DATA_SIZE,
            version > VERSION_START ==> max >= block_capacity(widest),
        decreases VERSION_CURRENT + 1 - version,
    {
        let mut family: u32 = 0;
        while family < 2
            invariant
                version_supported(version),
                family <= 2,
                widest == (FormatAndBits { format: Format::PackedSingleBlock, bits_per_value: 3 }),
                max <= MAX_DATA_SIZE,
                family == 2 ==> max >= block_capacity(widest),
            decreases 2 - family,
        {
            let format: Format = if family == 0 {
                Format::Packed
            } else {
                Format::PackedSingleBlock
            };
            let mut bits: u32 = 1;
            while bits <= 32
                invariant
                    version_supported(version),
                    1 <= bits <= 33,
                    widest == (FormatAndBits { format: Format::PackedSingleBlock, bits_per_value: 3 }),
                    max <= MAX_DATA_SIZE,
                    format.id() == family,
                    family == 1 && bits > 3 ==> max >= block_capacity(widest),
                decreases 33 - bits,
            {
                match get_decoder(format, version, bits) {
                    Ok(decoder) => {
                        proof {
                            decoder.lemma_layout_is_valid();
                            lemma_block_geometry(decoder.layout(), version);
                            lemma_iteration_sizes(decoder.layout());
                        }
                        let iterations: usize = compute_iterations(&decoder);
                        let capacity: usize = iterations * decoder.byte_value_count();
                        if capacity > max {
                            max = capacity;
                        }
                    },
                    Err(_) => {},
                }
                bits = bits + 1;
            }
            family = family + 1;
        }
        version = version + 1;
    }
    proof {
        lemma_block_geometry(widest, VERSION_CURRENT);
        lemma_word_counts(3, 21, 7);
        assert(block_capacity(widest) == 147) by (nonlinear_arith)
            requires
                block_capacity(widest) == block_iterations(widest) * values_per_iteration(widest),
                values_per_iteration(widest) == 21,
                block_iterations(widest) == 7,
        ;
        assert(widest.valid());
        assert forall|format: Format, version: u32, bits_per_value: u32|
            resolve(format, version, bits_per_value) is Ok implies block_capacity(
            FormatAndBits { format, bits_per_value },
        ) <= max by {
            lemma_block_geometry(FormatAndBits { format, bits_per_value }, version);
        }
    }
    max
}

/// A table has one valid layout for each width from 1 to 32; the layout for width
/// `b` stands at index `b - 1`.
pub open spec fn layouts_valid(layouts: Seq<FormatAndBits>) -> bool {
    &&& layouts.len() == 32
    &&& forall|i: int| 0 <= i < 32 ==> (#[trigger] layouts[i]).valid()
}

/// Each layout is wide enough for the width that it serves.
pub open spec fn layouts_cover(layouts: Seq<FormatAndBits>) -> bool {
    forall|i: int| 0 <= i < 32 ==> (#[trigger] layouts[i]).bits_per_value >= i + 1
}

/// The layouts picked for the widths from 1 to 32 at an overhead ratio given in
/// thousandths.
pub open spec fn fastest_layouts(overhead: u32) -> Seq<FormatAndBits> {
    Seq::new(
        32,
        |i: int| FormatAndBits::fastest_layout(BLOCK_SIZE as nat, (i + 1) as nat, overhead as nat),
    )
}

/// The codes of the first `count` layouts, each as a variable-length integer.
pub open spec fn layout_codes(layouts: Seq<FormatAndBits>, count: nat) -> Seq<u8>
    decreases count,
{
    if count == 0 {
        Seq::empty()
    } else {
        layout_codes(layouts, (count - 1) as nat) + vint_bytes(layouts[count - 1].code() as nat)
    }
}

/// The header of a table: the protocol version, then the codes of the layouts for
/// the widths from 1 to 32, each as a variable-length integer.
pub open spec fn header_bytes(version: u32, layouts: Seq<FormatAndBits>) -> Seq<u8> {
    vint_bytes(version as nat) + layout_codes(layouts, 32)
}

/// The `count` layouts whose codes stand at `pos`, with the position after them, or
/// the first failure met on the way.
pub open spec fn parse_layouts(bytes: Seq<u8>, pos: int, count: nat) -> Result<
    (Seq<FormatAndBits>, int),
    Error,
>
    decreases count,
{
    if count == 0 {
        Ok((Seq::empty(), pos))
    } else {
        match parse_layouts(bytes, pos, (count - 1) as nat) {
            Err(e) => Err(e),
            Ok((layouts, at)) => match parse_vint(bytes, at) {
                Err(e) => Err(e),
                Ok((code, end)) => match FormatAndBits::of_code(code as u32) {
                    Err(e) => Err(e),
                    Ok(layout) => Ok((layouts.push(layout), end)),
                },
            },
        }
    }
}

/// A failure among the first `count` codes is the failure of any longer run.
pub proof fn lemma_parse_layouts_fails(bytes: Seq<u8>, pos: int, count: nat, more: nat)
    requires
        count <= more,
        parse_layouts(bytes, pos, count) is Err,
    ensures
        parse_layouts(bytes, pos, more) == parse_layouts(bytes, pos, count),
    decreases more,
{
    if count < more {
        lemma_parse_layouts_fails(bytes, pos, count, (more - 1) as nat);
    }
}

/// The version and the layouts of the header that stands at `pos`, with the
/// position after it, or the first failure met on the way.
pub open spec fn parse_header(bytes: Seq<u8>, pos: int) -> Result<
    (u32, Seq<FormatAndBits>, int),
    Error,
> {
    match parse_vint(bytes, pos) {
        Err(e) => Err(e),
        Ok((version, at)) => if !version_supported(version as u32) {
            Err(Error::UnsupportedVersion)
        } else {
            match parse_layouts(bytes, at, 32) {
                Err(e) => Err(e),
                Ok((layouts, end)) => Ok((version as u32, layouts, end)),
            }
        },
    }
}

/// Every one of the first [`BLOCK_SIZE`] values equals the first.
pub open spec fn all_equal(values: Seq<u32>) -> bool {
    forall|i: int| 0 <= i < BLOCK_SIZE ==> (#[trigger] values[i]) == values[0]
}

/// Every one of the first [`BLOCK_SIZE`] values can be written with `width` bits.
pub open spec fn fits(values: Seq<u32>, width: nat) -> bool {
    forall|i: int| 0 <= i < BLOCK_SIZE ==> (#[trigger] values[i]) < pow2(width)
}

/// The least width from `from` to 32 that holds the block.
pub open spec fn least_width(values: Seq<u32>, from: nat) -> nat
    decreases 32 - from,
{
    if from >= 32 || fits(values, from) {
        from
    } else {
        least_width(values, from + 1)
    }
}

/// The bits per value of a block: the least width from 1 to 32 that holds every
/// value of it.
pub open spec fn bits_needed(values: Seq<u32>) -> nat {
    least_width(values, 1)
}

/// `least_width` finds a width that holds the block, and none below it does.
pub proof fn lemma_least_width(values: Seq<u32>, from: nat)
    requires
        1 <= from <= 32,
    ensures
        from <= least_width(values, from) <= 32,
        fits(values, least_width(values, from)),
        forall|k: nat| from <= k < least_width(values, from) ==> !fits(values, k),
    decreases 32 - from,
{
    if from >= 32 {
        lemma2_to64();
    } else if !fits(values, from) {
        lemma_least_width(values, from + 1);
    }
}

/// A width that holds the block, with no narrower one that does, is the block's
/// bits per value.
pub proof fn lemma_bits_needed_is_least(values: Seq<u32>, width: nat)
    requires
        1 <= width <= 32,
        fits(values, width),
        forall|k: nat| 1 <= k < width ==> !fits(values, k),
    ensures
        bits_needed(values) == width,
{
    lemma_least_width(values, 1);
}

/// The bitwise or of two numbers fits a width exactly when both do.
proof fn lemma_or_fits(a: u32, b: u32, width: nat)
    requires
        width <= 32,
    ensures
        (a | b) < pow2(width) <==> a < pow2(width) && b < pow2(width),
{
    lemma2_to64();
    if width < 32 {
        let k = width as u32;
        let p = pow2(width);
        assert(((a | b) >> k == 0) <==> (a >> k == 0 && b >> k == 0)) by (bit_vector)
            requires
                k < 32,
        ;
        lemma_u32_shr_is_div(a, k);
        lemma_u32_shr_is_div(b, k);
        lemma_u32_shr_is_div(a | b, k);
        lemma_pow2_pos(width);
        assert(a as nat / p == 0 <==> a < p) by (nonlinear_arith)
            requires
                p > 0,
        ;
        assert(b as nat / p == 0 <==> b < p) by (nonlinear_arith)
            requires
                p > 0,
        ;
        assert((a | b) as nat / p == 0 <==> (a | b) < p) by (nonlinear_arith)
            requires
                p > 0,
        ;
    }
}

/// The first `count` values can each be written with `width` bits.
pub open spec fn prefix_fits(values: Seq<u32>, count: int, width: nat) -> bool {
    forall|i: int| 0 <= i < count ==> (#[trigger] values[i]) < pow2(width)
}

/// The packed bytes of a block: nothing where its values are all equal, else what
/// the iterations covering a block make of them under the layout of their width.
pub open spec fn block_packing(layouts: Seq<FormatAndBits>, values: Seq<u32>) -> Seq<u8> {
    if all_equal(values) {
        Seq::empty()
    } else {
        let layout = layouts[bits_needed(values) - 1];
        encoding(layout, values.take(BLOCK_SIZE as int), block_iterations(layout))
    }
}

/// The bytes of a block: for equal values the marker 0 and the value as a
/// variable-length integer; else the width as marker and the packed bytes, cut
/// to the size of a block.
pub open spec fn block_encoding(layouts: Seq<FormatAndBits>, version: u32, values: Seq<u32>) -> Seq<
    u8,
> {
    if all_equal(values) {
        seq![ALL_VALUES_EQUAL] + vint_bytes(values[0] as nat)
    } else {
        let bits = bits_needed(values);
        seq![bits as u8] + block_packing(layouts, values).take(
            encoded_block_size(layouts[bits - 1], version) as int,
        )
    }
}

/// The packed bytes of the block that stands at `pos`: nothing where the block is
/// constant or cannot be read.
pub open spec fn block_payload(
    layouts: Seq<FormatAndBits>,
    version: u32,
    bytes: Seq<u8>,
    pos: int,
) -> Seq<u8> {
    if block_end(layouts, version, bytes, pos) is Ok && bytes[pos] != ALL_VALUES_EQUAL {
        bytes.subrange(pos + 1, block_end(layouts, version, bytes, pos)->Ok_0)
    } else {
        Seq::empty()
    }
}

/// The position after the block that stands at `pos`, found without decoding it,
/// or the reason why there is no whole block.
pub open spec fn block_end(layouts: Seq<FormatAndBits>, version: u32, bytes: Seq<u8>, pos: int)
    -> Result<int, Error> {
    if pos < 0 || pos >= bytes.len() {
        Err(Error::UnexpectedEof)
    } else if bytes[pos] == ALL_VALUES_EQUAL {
        match parse_vint(bytes, pos + 1) {
            Err(e) => Err(e),
            Ok((value, end)) => Ok(end),
        }
    } else if bytes[pos] > 32 {
        Err(Error::InvalidMarker)
    } else {
        let size = encoded_block_size(layouts[bytes[pos] - 1], version);
        if pos + 1 + size > bytes.len() {
            Err(Error::UnexpectedEof)
        } else {
            Ok(pos + 1 + size)
        }
    }
}

/// The values that decoding writes for the block that stands at `pos`, with the
/// position after the block, or the reason why there is no whole block.
///
/// A constant block gives [`BLOCK_SIZE`] values; a packed block gives as many as
/// the iterations covering a block write, of which those from [`BLOCK_SIZE`] on
/// mean nothing.
pub open spec fn block_decoding(
    layouts: Seq<FormatAndBits>,
    version: u32,
    bytes: Seq<u8>,
    pos: int,
) -> Result<(Seq<u32>, int), Error> {
    if pos < 0 || pos >= bytes.len() {
        Err(Error::UnexpectedEof)
    } else if bytes[pos] == ALL_VALUES_EQUAL {
        match parse_vint(bytes, pos + 1) {
            Err(e) => Err(e),
            Ok((value, end)) => Ok((Seq::new(BLOCK_SIZE as nat, |i: int| value as u32), end)),
        }
    } else if bytes[pos] > 32 {
        Err(Error::InvalidMarker)
    } else {
        let layout = layouts[bytes[pos] - 1];
        let size = encoded_block_size(layout, version);
        if pos + 1 + size > bytes.len() {
            Err(Error::UnexpectedEof)
        } else {
            Ok(
                (
                    decoding(
                        layout,
                        bytes.subrange(pos + 1, pos + 1 + size),
                        block_iterations(layout),
                    ),
                    pos + 1 + size,
                ),
            )
        }
    }
}

/// The table of layouts: for each width from 1 to 32 the layout that serves it, its
/// decoder, its encoder where blocks are to be written, the bytes that a block
/// takes and the iterations that cover it.  Index 0 of each part is unused.
pub struct ForUtilInstance {
    version: u32,
    encoded_sizes: [usize; 33],
    decoders: Vec<BulkOperation>,
    encoders: Vec<BulkOperation>,
    iterations: [usize; 33],
}

impl ForUtilInstance {
    /// The protocol version that the table was built for.
    pub closed spec fn version(&self) -> u32 {
        self.version
    }

    /// The layouts for the widths from 1 to 32, that of width `b` at index `b - 1`.
    pub closed spec fn layouts(&self) -> Seq<FormatAndBits> {
        Seq::new(32, |i: int| self.decoders@[i + 1].layout())
    }

    /// Whether the table holds encoders.
    pub closed spec fn writable(&self) -> bool {
        self.encoders@.len() == 33
    }

    /// Bytes that a block of width `bits` takes, as the table holds them.
    pub closed spec fn encoded_size(&self, bits: int) -> nat {
        self.encoded_sizes@[bits] as nat
    }

    /// Iterations that cover a block of width `bits`, as the table holds them.
    pub closed spec fn iterations(&self, bits: int) -> nat {
        self.iterations@[bits] as nat
    }

    /// Every part of the table belongs to the layout of its width.
    pub closed spec fn wf(&self) -> bool {
        &&& version_supported(self.version)
        &&& self.decoders@.len() == 33
        &&& (self.encoders@.len() == 33 || self.encoders@.len() == 0)
        &&& forall|b: int|
            1 <= b <= 32 ==> {
                &&& (#[trigger] self.decoders@[b]).wf()
                &&& self.encoded_sizes@[b] == encoded_block_size(
                    self.decoders@[b].layout(),
                    self.version,
                )
                &&& self.iterations@[b] == block_iterations(self.decoders@[b].layout())
            }
        &&& self.encoders@.len() == 33 ==> forall|b: int|
            1 <= b <= 32 ==> {
                &&& (#[trigger] self.encoders@[b]).wf()
                &&& self.encoders@[b].layout() == self.decoders@[b].layout()
                &&& self.decoders@[b].layout().bits_per_value >= b
            }
    }

    /// What a well-formed table holds for each width: a valid layout, wide enough
    /// where blocks are to be written, with the bytes and the iterations of a
    /// block under it.  The iterations take at least a block of values, at most
    /// [`MAX_DATA_SIZE`] of them, and make at least the bytes of a block.
    pub proof fn lemma_table(&self)
        requires
            self.wf(),
        ensures
            version_supported(self.version()),
            layouts_valid(self.layouts()),
            self.writable() ==> layouts_cover(self.layouts()),
            forall|b: int|
                1 <= b <= 32 ==> {
                    &&& #[trigger] self.encoded_size(b) == encoded_block_size(
                        self.layouts()[b - 1],
                        self.version(),
                    )
                    &&& self.iterations(b) == block_iterations(self.layouts()[b - 1])
                    &&& self.iterations(b) * values_per_iteration(self.layouts()[b - 1])
                        >= BLOCK_SIZE
                    &&& self.iterations(b) * bytes_per_iteration(self.layouts()[b - 1])
                        >= self.encoded_size(b)
                    &&& self.iterations(b) * values_per_iteration(self.layouts()[b - 1])
                        <= MAX_DATA_SIZE
                },
    {
        assert forall|i: int| 0 <= i < 32 implies (#[trigger] self.layouts()[i]).valid() by {
            self.decoders@[i + 1].lemma_layout_is_valid();
        }
        assert forall|b: int| 1 <= b <= 32 implies {
            &&& #[trigger] self.encoded_size(b) == encoded_block_size(
                self.layouts()[b - 1],
                self.version(),
            )
            &&& self.iterations(b) == block_iterations(self.layouts()[b - 1])
            &&& self.iterations(b) * values_per_iteration(self.layouts()[b - 1]) >= BLOCK_SIZE
            &&& self.iterations(b) * bytes_per_iteration(self.layouts()[b - 1])
                >= self.encoded_size(b)
            &&& self.iterations(b) * values_per_iteration(self.layouts()[b - 1]) <= MAX_DATA_SIZE
        } by {
            assert(self.decoders@[b].wf());
            assert(self.layouts()[b - 1] == self.decoders@[b].layout());
            self.decoders@[b].lemma_layout_is_valid();
            lemma_block_geometry(self.layouts()[b - 1], self.version);
        }
        if self.writable() {
            assert forall|i: int| 0 <= i < 32 implies (#[trigger] self.layouts()[i]).bits_per_value
                >= i + 1 by {
                assert(self.encoders@[i + 1].wf());
            }
        }
    }

    /// Reads a header from `input` and builds the table it describes, with
    /// decoders only.  When the header cannot be read, nothing is consumed.
    fn with_input(input: &mut ByteInput) -> (r: Result<ForUtilInstance, Error>)
        ensures
            final(input).bytes() == old(input).bytes(),
            match parse_header(old(input).bytes(), old(input).position()) {
                Ok((version, layouts, end)) => {
                    &&& r is Ok
                    &&& r->Ok_0.wf()
                    &&& !r->Ok_0.writable()
                    &&& r->Ok_0.version() == version
                    &&& r->Ok_0.layouts() == layouts
                    &&& final(input).position() == end
                },
                Err(e) => {
                    &&& r is Err
                    &&& r->Err_0 == e
                    &&& final(input).position() == old(input).position()
                },
            },
    {
        let ghost bytes = input.bytes();
        let start: usize = input.file_pointer();
        let packed_ints_version: u32 = input.read_vint()?;
        let ghost first: int = input.position();
        if check_version(packed_ints_version).is_err() {
            let _ = input.seek(start);
            return Err(Error::UnsupportedVersion);
        }
        let mut encoded_sizes: [usize; 33] = [0; 33];
        let mut iterations: [usize; 33] = [0; 33];
        let mut decoders: Vec<BulkOperation> = Vec::with_capacity(33);
        let mut bpv: usize = 1;
        proof {
            assert(Seq::new(0, |i: int| decoders@[i + 1].layout()) =~= Seq::<
                FormatAndBits,
            >::empty());
        }
        while bpv < 33
            invariant
                1 <= bpv <= 33,
                bytes == old(input).bytes(),
                input.bytes() == bytes,
                start == old(input).position(),
                start <= bytes.len(),
                version_supported(packed_ints_version),
                parse_vint(bytes, start as int) == Ok::<(nat, int), Error>(
                    (packed_ints_version as nat, first),
                ),
                decoders@.len() == (if bpv == 1 {
                    0int
                } else {
                    bpv as int
                }),
                parse_layouts(bytes, first, (bpv - 1) as nat) == Ok::<
                    (Seq<FormatAndBits>, int),
                    Error,
                >((Seq::new((bpv - 1) as nat, |i: int| decoders@[i + 1].layout()), input.position())),
                forall|b: int|
                    1 <= b < bpv ==> {
                        &&& (#[trigger] decoders@[b]).wf()
                        &&& encoded_sizes@[b] == encoded_block_size(
                            decoders@[b].layout(),
                            packed_ints_version,
                        )
                        &&& iterations@[b] == block_iterations(decoders@[b].layout())
                    },
            decreases 33 - bpv,
        {
            let ghost so_far = Seq::new((bpv - 1) as nat, |i: int| decoders@[i + 1].layout());
            let ghost prior = decoders@;
            let code: u32 = match input.read_vint() {
                Ok(code) => code,
                Err(e) => {
                    proof {
                        lemma_parse_layouts_fails(bytes, first, bpv as nat, 32);
                    }
                    let _ = input.seek(start);
                    return Err(e);
                },
            };
            let bits_per_value: u32 = code % 32 + 1;
            let format: Format = match Format::with_id(code / 32) {
                Ok(format) => format,
                Err(e) => {
                    proof {
                        lemma_parse_layouts_fails(bytes, first, bpv as nat, 32);
                    }
                    let _ = input.seek(start);
                    return Err(e);
                },
            };
            let decoder: BulkOperation = match get_decoder(
                format,
                packed_ints_version,
                bits_per_value,
            ) {
                Ok(decoder) => decoder,
                Err(e) => {
                    proof {
                        lemma_parse_layouts_fails(bytes, first, bpv as nat, 32);
                    }
                    let _ = input.seek(start);
                    return Err(e);
                },
            };
            encoded_sizes[bpv] = encoded_size(format, packed_ints_version, bits_per_value);
            if bpv == 1 {
                decoders.push(decoder);
            }
            decoders.push(decoder);
            iterations[bpv] = compute_iterations(&decoders[bpv]);
            proof {
                assert(Seq::new(bpv as nat, |i: int| decoders@[i + 1].layout()) =~= so_far.push(
                    decoder.layout(),
                ));
                assert forall|b: int| 1 <= b < bpv implies decoders@[b] == prior[b] by {}
            }
            bpv = bpv + 1;
        }
        let table = ForUtilInstance {
            version: packed_ints_version,
            encoded_sizes,
            decoders,
            encoders: Vec::new(),
            iterations,
        };
        proof {
            assert(table.layouts() =~= Seq::new(32, |i: int| decoders@[i + 1].layout()));
        }
        Ok(table)
    }

    /// Picks the layout of every width for an overhead ratio given in thousandths,
    /// writes the header that names them to `output`, and builds the table with
    /// encoders and decoders.
    fn with_output(acceptable_overhead_ratio: u32, output: &mut ByteOutput) -> (r:
        ForUtilInstance)
        ensures
            r.wf(),
            r.writable(),
            r.version() == VERSION_CURRENT,
            r.layouts() == fastest_layouts(acceptable_overhead_ratio),
            final(output).bytes() == old(output).bytes() + header_bytes(
                VERSION_CURRENT,
                r.layouts(),
            ),
    {
        let ghost want = fastest_layouts(acceptable_overhead_ratio);
        let ghost before = output.bytes();
        output.write_vint(VERSION_CURRENT);
        let mut encoders: Vec<BulkOperation> = Vec::with_capacity(33);
        let mut decoders: Vec<BulkOperation> = Vec::with_capacity(33);
        let mut iterations: [usize; 33] = [0; 33];
        let mut encoded_sizes: [usize; 33] = [0; 33];
        let mut bpv: usize = 1;
        while bpv < 33
            invariant
                1 <= bpv <= 33,
                want == fastest_layouts(acceptable_overhead_ratio),
                before == old(output).bytes(),
                output.bytes() == before + vint_bytes(VERSION_CURRENT as nat) + layout_codes(
                    want,
                    (bpv - 1) as nat,
                ),
                decoders@.len() == (if bpv == 1 {
                    0int
                } else {
                    bpv as int
                }),
                encoders@.len() == decoders@.len(),
                forall|b: int|
                    1 <= b < bpv ==> {
                        &&& (#[trigger] decoders@[b]).wf()
                        &&& decoders@[b].layout() == want[b - 1]
                        &&& decoders@[b].layout().bits_per_value >= b
                        &&& encoded_sizes@[b] == encoded_block_size(
                            decoders@[b].layout(),
                            VERSION_CURRENT,
                        )
                        &&& iterations@[b] == block_iterations(decoders@[b].layout())
                    },
                forall|b: int|
                    1 <= b < bpv ==> {
                        &&& (#[trigger] encoders@[b]).wf()
                        &&& encoders@[b].layout() == decoders@[b].layout()
                    },
            decreases 33 - bpv,
        {
            let ghost prior_decoders = decoders@;
            let ghost prior_encoders = encoders@;
            let format_and_bits = FormatAndBits::fastest(
                BLOCK_SIZE,
                bpv as u32,
                acceptable_overhead_ratio,
            );
            proof {
                lemma_fastest_is_supported(
                    BLOCK_SIZE as nat,
                    bpv as nat,
                    acceptable_overhead_ratio as nat,
                );
                assert(format_and_bits == want[bpv - 1]);
            }
            encoded_sizes[bpv] = encoded_size(
                format_and_bits.format,
                VERSION_CURRENT,
                format_and_bits.bits_per_value,
            );
            let encoder: BulkOperation = match get_encoder(
                format_and_bits.format,
                VERSION_CURRENT,
                format_and_bits.bits_per_value,
            ) {
                Ok(encoder) => encoder,
                Err(_) => unreached(),
            };
            if bpv == 1 {
                encoders.push(encoder);
            }
            encoders.push(encoder);
            let decoder: BulkOperation = match get_decoder(
                format_and_bits.format,
                VERSION_CURRENT,
                format_and_bits.bits_per_value,
            ) {
                Ok(decoder) => decoder,
                Err(_) => unreached(),
            };
            if bpv == 1 {
                decoders.push(decoder);
            }
            decoders.push(decoder);
            iterations[bpv] = compute_iterations(&decoders[bpv]);
            let ghost written = output.bytes();
            output.write_vint(format_and_bits.to_code());
            proof {
                assert(written + vint_bytes(format_and_bits.code() as nat) =~= before + vint_bytes(
                    VERSION_CURRENT as nat,
                ) + layout_codes(want, bpv as nat));
                assert forall|b: int| 1 <= b < bpv implies decoders@[b] == prior_decoders[b]
                    && encoders@[b] == prior_encoders[b] by {}
            }
            bpv = bpv + 1;
        }
        let table = ForUtilInstance {
            version: VERSION_CURRENT,
            encoded_sizes,
            decoders,
            encoders,
            iterations,
        };
        proof {
            assert(table.layouts() =~= want);
            assert(output.bytes() =~= before + header_bytes(VERSION_CURRENT, want));
        }
        table
    }

    /// Reads the block at the position of `input` and writes its values to the
    /// front of `decoded`.  `encoded` is scratch space for the packed bytes.  When
    /// there is no whole block to read, nothing is consumed or written.
    pub fn read_block(&self, input: &mut ByteInput, encoded: &mut [u8], decoded: &mut [u32]) -> (r:
        Result<(), Error>)
        requires
            self.wf(),
            old(encoded)@.len() >= MAX_ENCODED_SIZE,
            old(decoded)@.len() >= MAX_DATA_SIZE,
        ensures
            final(input).bytes() == old(input).bytes(),
            final(encoded)@ == block_payload(
                self.layouts(),
                self.version(),
                old(input).bytes(),
                old(input).position(),
            ) + old(encoded)@.skip(
                block_payload(
                    self.layouts(),
                    self.version(),
                    old(input).bytes(),
                    old(input).position(),
                ).len() as int,
            ),
            match block_decoding(
                self.layouts(),
                self.version(),
                old(input).bytes(),
                old(input).position(),
            ) {
                Ok((values, end)) => {
                    &&& r is Ok
                    &&& final(input).position() == end
                    &&& final(decoded)@ == values + old(decoded)@.skip(values.len() as int)
                },
                Err(e) => {
                    &&& r == Err::<(), Error>(e)
                    &&& final(input).position() == old(input).position()
                    &&& final(decoded)@ == old(decoded)@
                },
            },
    {
        proof {
            self.lemma_table();
            assert(encoded@ =~= Seq::<u8>::empty() + encoded@.skip(0));
        }
        let ghost bytes = input.bytes();
        let start: usize = input.file_pointer();
        let num_bits: usize = input.read_byte()? as usize;
        if num_bits == ALL_VALUES_EQUAL as usize {
            let value: u32 = match input.read_vint() {
                Ok(value) => value,
                Err(e) => {
                    let _ = input.seek(start);
                    return Err(e);
                },
            };
            let mut i: usize = 0;
            while i < BLOCK_SIZE
                invariant
                    i <= BLOCK_SIZE,
                    decoded@.len() == old(decoded)@.len(),
                    decoded@.len() >= MAX_DATA_SIZE,
                    forall|k: int| 0 <= k < i ==> decoded@[k] == value,
                    forall|k: int| i <= k < decoded@.len() ==> decoded@[k] == old(decoded)@[k],
                decreases BLOCK_SIZE - i,
            {
                decoded[i] = value;
                i = i + 1;
            }
            proof {
                assert(decoded@ =~= Seq::new(BLOCK_SIZE as nat, |i: int| value) + old(
                    decoded,
                )@.skip(BLOCK_SIZE as int));
            }
            return Ok(());
        }
        if num_bits > 32 {
            let _ = input.seek(start);
            return Err(Error::InvalidMarker);
        }
        let ghost layout = self.layouts()[num_bits - 1];
        let encoded_size: usize = self.encoded_sizes[num_bits];
        proof {
            assert(self.encoded_size(num_bits as int) == encoded_block_size(layout, self.version));
            assert(self.iterations(num_bits as int) == block_iterations(layout));
            lemma_block_geometry(layout, self.version);
        }
        match input.read_exact(encoded, encoded_size) {
            Ok(()) => {},
            Err(e) => {
                let _ = input.seek(start);
                return Err(e);
            },
        }
        let decoder = &self.decoders[num_bits];
        let iters: usize = self.iterations[num_bits];
        decoder.decode_byte_to_int(encoded, decoded, iters);
        proof {
            let payload = bytes.subrange(start + 1, start + 1 + encoded_size);
            assert(encoded@.take(encoded_size as int) =~= payload.take(encoded_size as int));
            lemma_decoding_reads_prefix(layout, encoded@, payload, iters as nat);
            lemma_coding_lengths(layout, Seq::empty(), payload, iters as nat);
        }
        Ok(())
    }

    /// Moves `input` past the block at its position without decoding it.  When
    /// there is no whole block to skip, `input` stays where it was.
    pub fn skip_block(&self, input: &mut ByteInput) -> (r: Result<(), Error>)
        requires
            self.wf(),
        ensures
            final(input).bytes() == old(input).bytes(),
            match block_end(
                self.layouts(),
                self.version(),
                old(input).bytes(),
                old(input).position(),
            ) {
                Ok(end) => r is Ok && final(input).position() == end,
                Err(e) => r == Err::<(), Error>(e) && final(input).position() == old(
                    input,
                ).position(),
            },
    {
        proof {
            self.lemma_table();
        }
        let start: usize = input.file_pointer();
        let num_bits: usize = input.read_byte()? as usize;
        if num_bits == ALL_VALUES_EQUAL as usize {
            return match input.read_vint() {
                Ok(_) => Ok(()),
                Err(e) => {
                    let _ = input.seek(start);
                    Err(e)
                },
            };
        }
        if num_bits > 32 {
            let _ = input.seek(start);
            return Err(Error::InvalidMarker);
        }
        let ghost layout = self.layouts()[num_bits - 1];
        let encoded_size: usize = self.encoded_sizes[num_bits];
        proof {
            assert(self.encoded_size(num_bits as int) == encoded_block_size(layout, self.version));
            lemma_block_geometry(layout, self.version);
        }
        let fp: usize = input.file_pointer();
        if encoded_size > input.len() - fp {
            let _ = input.seek(start);
            return Err(Error::UnexpectedEof);
        }
        input.seek(fp + encoded_size)
    }
}

/// A shared handle on a table of layouts.  Copies of the handle read the same
/// table.
#[derive(Clone)]
pub struct ForUtil {
    instance: Arc<ForUtilInstance>,
}

impl ForUtil {
    /// The protocol version that the table was built for.
    pub closed spec fn version(&self) -> u32 {
        self.instance.version()
    }

    /// The layouts for the widths from 1 to 32, that of width `b` at index `b - 1`.
    pub closed spec fn layouts(&self) -> Seq<FormatAndBits> {
        self.instance.layouts()
    }

    /// Whether the table holds encoders.
    pub closed spec fn writable(&self) -> bool {
        self.instance.writable()
    }

    /// Bytes that a block of width `bits` takes, as the table holds them.
    pub closed spec fn encoded_size(&self, bits: int) -> nat {
        self.instance.encoded_size(bits)
    }

    /// Iterations that cover a block of width `bits`, as the table holds them.
    pub closed spec fn iterations(&self, bits: int) -> nat {
        self.instance.iterations(bits)
    }

    /// Every part of the table belongs to the layout of its width.
    pub closed spec fn wf(&self) -> bool {
        self.instance.wf()
    }

    /// What a well-formed table holds for each width: a valid layout, wide enough
    /// where blocks are to be written, with the bytes and the iterations of a
    /// block under it.  The iterations take at least a block of values, at most
    /// [`MAX_DATA_SIZE`] of them, and make at least the bytes of a block.
    pub proof fn lemma_table(&self)
        requires
            self.wf(),
        ensures
            version_supported(self.version()),
            layouts_valid(self.layouts()),
            self.writable() ==> layouts_cover(self.layouts()),
            forall|b: int|
                1 <= b <= 32 ==> {
                    &&& #[trigger] self.encoded_size(b) == encoded_block_size(
                        self.layouts()[b - 1],
                        self.version(),
                    )
                    &&& self.iterations(b) == block_iterations(self.layouts()[b - 1])
                    &&& self.iterations(b) * values_per_iteration(self.layouts()[b - 1])
                        >= BLOCK_SIZE
                    &&& self.iterations(b) * bytes_per_iteration(self.layouts()[b - 1])
                        >= self.encoded_size(b)
                    &&& self.iterations(b) * values_per_iteration(self.layouts()[b - 1])
                        <= MAX_DATA_SIZE
                },
    {
        self.instance.lemma_table();
    }

    /// Reads a header from `input` and builds the table it describes, for
    /// decoding.  When the header cannot be read, nothing is consumed.
    pub fn with_input(input: &mut ByteInput) -> (r: Result<ForUtil, Error>)
        ensures
            final(input).bytes() == old(input).bytes(),
            match parse_header(old(input).bytes(), old(input).position()) {
                Ok((version, layouts, end)) => {
                    &&& r is Ok
                    &&& r->Ok_0.wf()
                    &&& !r->Ok_0.writable()
                    &&& r->Ok_0.version() == version
                    &&& r->Ok_0.layouts() == layouts
                    &&& final(input).position() == end
                },
                Err(e) => {
                    &&& r is Err
                    &&& r->Err_0 == e
                    &&& final(input).position() == old(input).position()
                },
            },
    {
        Ok(ForUtil { instance: Arc::new(ForUtilInstance::with_input(input)?) })
    }

    /// Picks the layout of every width for an overhead ratio given in thousandths,
    /// writes the header that names them to `output`, and builds the table, for
    /// encoding and decoding.
    pub fn with_output(acceptable_overhead_ratio: u32, output: &mut ByteOutput) -> (r: ForUtil)
        ensures
            r.wf(),
            r.writable(),
            r.version() == VERSION_CURRENT,
            r.layouts() == fastest_layouts(acceptable_overhead_ratio),
            final(output).bytes() == old(output).bytes() + header_bytes(
                VERSION_CURRENT,
                r.layouts(),
            ),
    {
        ForUtil {
            instance: Arc::new(ForUtilInstance::with_output(acceptable_overhead_ratio, output)),
        }
    }

    /// Whether the table holds encoders, so that blocks can be written with it.
    pub fn can_encode(&self) -> (r: bool)
        requires
            self.wf(),
        ensures
            r == self.writable(),
    {
        self.instance.encoders.len() == 33
    }

    /// Bytes that a block of width `bits_per_value` takes.
    pub fn encoded_size_of(&self, bits_per_value: usize) -> (r: usize)
        requires
            self.wf(),
            1 <= bits_per_value <= 32,
        ensures
            r == self.encoded_size(bits_per_value as int),
            r == encoded_block_size(self.layouts()[bits_per_value - 1], self.version()),
    {
        proof {
            self.lemma_table();
        }
        self.instance.encoded_sizes[bits_per_value]
    }

    /// Iterations that cover a block of width `bits_per_value`.
    pub fn iterations_of(&self, bits_per_value: usize) -> (r: usize)
        requires
            self.wf(),
            1 <= bits_per_value <= 32,
        ensures
            r == self.iterations(bits_per_value as int),
            r == block_iterations(self.layouts()[bits_per_value - 1]),
    {
        proof {
            self.lemma_table();
        }
        self.instance.iterations[bits_per_value]
    }

    /// The layout that serves width `bits_per_value`.
    pub fn layout_of(&self, bits_per_value: usize) -> (r: FormatAndBits)
        requires
            self.wf(),
            1 <= bits_per_value <= 32,
        ensures
            r == self.layouts()[bits_per_value - 1],
            r.valid(),
    {
        proof {
            self.lemma_table();
        }
        self.instance.decoders[bits_per_value].format_and_bits()
    }

    /// Reads the block at the position of `input` and writes its values to the
    /// front of `decoded`.  `encoded` is scratch space for the packed bytes.  When
    /// there is no whole block to read, nothing is consumed or written.
    pub fn read_block(&self, input: &mut ByteInput, encoded: &mut [u8], decoded: &mut [u32]) -> (r:
        Result<(), Error>)
        requires
            self.wf(),
            old(encoded)@.len() >= MAX_ENCODED_SIZE,
            old(decoded)@.len() >= MAX_DATA_SIZE,
        ensures
            final(input).bytes() == old(input).bytes(),
            final(encoded)@ == block_payload(
                self.layouts(),
                self.version(),
                old(input).bytes(),
                old(input).position(),
            ) + old(encoded)@.skip(
                block_payload(
                    self.layouts(),
                    self.version(),
                    old(input).bytes(),
                    old(input).position(),
                ).len() as int,
            ),
            match block_decoding(
                self.layouts(),
                self.version(),
                old(input).bytes(),
                old(input).position(),
            ) {
                Ok((values, end)) => {
                    &&& r is Ok
                    &&& final(input).position() == end
                    &&& final(decoded)@ == values + old(decoded)@.skip(values.len() as int)
                },
                Err(e) => {
                    &&& r == Err::<(), Error>(e)
                    &&& final(input).position() == old(input).position()
                    &&& final(decoded)@ == old(decoded)@
                },
            },
    {
        self.instance.read_block(input, encoded, decoded)
    }

    /// Whether the first [`BLOCK_SIZE`] values of `data` are all the same.
    pub fn is_all_equal(data: &[u32]) -> (r: bool)
        requires
            data@.len() >= BLOCK_SIZE,
        ensures
            r == all_equal(data@),
    {
        let v: u32 = data[0];
        let mut i: usize = 1;
        while i < BLOCK_SIZE
            invariant
                1 <= i <= BLOCK_SIZE,
                data@.len() >= BLOCK_SIZE,
                v == data@[0],
                forall|k: int| 0 <= k < i ==> (#[trigger] data@[k]) == v,
            decreases BLOCK_SIZE - i,
        {
            if data[i] != v {
                return false;
            }
            i = i + 1;
        }
        true
    }

    /// The bits per value of a block: the least width from 1 to 32 that holds every
    /// one of the first [`BLOCK_SIZE`] values of `data`.
    pub fn bits_required(data: &[u32]) -> (r: u32)
        requires
            data@.len() >= BLOCK_SIZE,
        ensures
            r == bits_needed(data@),
            1 <= r <= 32,
            fits(data@, r as nat),
            forall|k: nat| 1 <= k < r ==> !fits(data@, k),
    {
        let mut or: u32 = 0;
        let mut i: usize = 0;
        proof {
            assert forall|k: nat| k <= 32 implies (or < pow2(k)) == #[trigger] prefix_fits(
                data@,
                0,
                k,
            ) by {
                lemma_pow2_pos(k);
            }
        }
        while i < BLOCK_SIZE
            invariant
                i <= BLOCK_SIZE,
                data@.len() >= BLOCK_SIZE,
                forall|k: nat| k <= 32 ==> (or < pow2(k)) == #[trigger] prefix_fits(data@, i as int, k),
            decreases BLOCK_SIZE - i,
        {
            let ghost prior = or;
            or = or | data[i];
            proof {
                assert forall|k: nat| k <= 32 implies (or < pow2(k)) == #[trigger] prefix_fits(
                    data@,
                    i + 1,
                    k,
                ) by {
                    lemma_or_fits(prior, data@[i as int], k);
                    assert(prefix_fits(data@, i as int, k) == (prior < pow2(k)));
                    if prefix_fits(data@, i + 1, k) {
                        assert(data@[i as int] < pow2(k));
                        assert(prefix_fits(data@, i as int, k));
                    }
                }
            }
            i = i + 1;
        }
        let width: u32 = unsigned_bits_required(or as u64);
        proof {
            lemma2_to64();
            if width > 32 {
                lemma_pow2_monotonic(32, (width - 1) as nat);
            }
            assert(prefix_fits(data@, BLOCK_SIZE as int, width as nat));
            assert forall|k: nat| 1 <= k < width implies !fits(data@, k) by {
                lemma_pow2_monotonic(k, (width - 1) as nat);
                assert(!prefix_fits(data@, BLOCK_SIZE as int, k));
            }
            lemma_bits_needed_is_least(data@, width as nat);
        }
        width
    }

    /// Appends the first [`BLOCK_SIZE`] values of `data` to `out` as one block.
    /// `encoded` is scratch space for the packed bytes.
    pub fn write_block(&self, data: &[u32], encoded: &mut [u8], out: &mut ByteOutput)
        requires
            self.wf(),
            self.writable(),
            data@.len() >= BLOCK_SIZE,
            old(encoded)@.len() >= MAX_ENCODED_SIZE,
        ensures
            final(out).bytes() == old(out).bytes() + block_encoding(
                self.layouts(),
                self.version(),
                data@,
            ),
            final(encoded)@ == block_packing(self.layouts(), data@) + old(encoded)@.skip(
                block_packing(self.layouts(), data@).len() as int,
            ),
    {
        proof {
            self.lemma_table();
            assert(encoded@ =~= Seq::<u8>::empty() + encoded@.skip(0));
        }
        if Self::is_all_equal(data) {
            out.write_byte(ALL_VALUES_EQUAL);
            out.write_vint(data[0]);
            proof {
                assert(old(out).bytes().push(ALL_VALUES_EQUAL) + vint_bytes(data@[0] as nat)
                    =~= old(out).bytes() + (seq![ALL_VALUES_EQUAL] + vint_bytes(data@[0] as nat)));
            }
            return ;
        }
        let num_bits: usize = Self::bits_required(data) as usize;
        let ghost layout = self.layouts()[num_bits - 1];
        let iters: usize = self.instance.iterations[num_bits];
        let encoder = &self.instance.encoders[num_bits];
        let encoded_size: usize = self.instance.encoded_sizes[num_bits];
        proof {
            assert(self.encoded_size(num_bits as int) == encoded_block_size(layout, self.version()));
            assert(self.iterations(num_bits as int) == block_iterations(layout));
            lemma_block_geometry(layout, self.version());
            lemma_coding_lengths(
                layout,
                data@.take(BLOCK_SIZE as int),
                Seq::empty(),
                iters as nat,
            );
            assert(data.len() == data@.len());
        }
        out.write_byte(num_bits as u8);
        let block = slice_subrange(data, 0, BLOCK_SIZE);
        encoder.encode_int_to_byte(block, encoded, iters);
        out.write_bytes(encoded, 0, encoded_size);
        proof {
            let packing = block_packing(self.layouts(), data@);
            assert(block@ =~= data@.take(BLOCK_SIZE as int));
            assert(encoded@.subrange(0, encoded_size as int) =~= packing.take(encoded_size as int));
            assert(old(out).bytes().push(num_bits as u8) + packing.take(encoded_size as int)
                =~= old(out).bytes() + (seq![num_bits as u8] + packing.take(encoded_size as int)));
        }
    }

    /// Moves `input` past the block at its position without decoding it.  When
    /// there is no whole block to skip, `input` stays where it was.
    pub fn skip_block(&self, input: &mut ByteInput) -> (r: Result<(), Error>)
        requires
            self.wf(),
        ensures
            final(input).bytes() == old(input).bytes(),
            match block_end(
                self.layouts(),
                self.version(),
                old(input).bytes(),
                old(input).position(),
            ) {
                Ok(end) => r is Ok && final(input).position() == end,
                Err(e) => r == Err::<(), Error>(e) && final(input).position() == old(
                    input,
                ).position(),
            },
    {
        self.instance.skip_block(input)
    }
}

} // verus!
