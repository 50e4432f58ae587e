//! The catalogue of bit-packing layouts: format families, protocol versions,
//! and the rule that picks a layout for a width.

use vstd::prelude::*;
use vstd::arithmetic::power2::{lemma2_to64, lemma_pow2_pos, pow2};
use vstd::bits::lemma_u64_shr_is_div;
use vstd::std_specs::bits::axiom_u64_leading_zeros;
use crate::error::Error;

verus! {

/// Number of integers in one block.
pub const BLOCK_SIZE: usize = 128;

/// Oldest supported protocol version.
pub const VERSION_START: u32 = 0;

/// First protocol version whose packed layout is aligned to bytes, not to 64-bit words.
pub const VERSION_BYTE_ALIGNED: u32 = 1;

/// Newest supported protocol version.
pub const VERSION_CURRENT: u32 = 2;

/// Overhead ratio that wastes no bit at all.  Overhead ratios are counted in
/// thousandths of the packed size.
pub const COMPACT: u32 = 0;

/// Overhead ratio of one quarter, a fair trade of space for speed.
pub const DEFAULT: u32 = 250;

/// Overhead ratio of one half.
pub const FAST: u32 = 500;

/// Largest overhead ratio that has any effect: seven times the packed size.
pub const FASTEST: u32 = 7000;

/// Largest number of values for which a width of 24 or 48 bits is stored in three-unit groups.
pub const THREE_BLOCKS_MAX_SIZE: usize = 715827882;

/// Whether `version` is a supported protocol version.
pub open spec fn version_supported(version: u32) -> bool {
    VERSION_START <= version <= VERSION_CURRENT
}

/// Accepts exactly the supported protocol versions.
pub fn check_version(version: u32) -> (r: Result<(), Error>)
    ensures
        r is Ok <==> version_supported(version),
        r is Err ==> r == Err::<(), Error>(Error::UnsupportedVersion),
{
    if version > VERSION_CURRENT {
        Err(Error::UnsupportedVersion)
    } else {
        Ok(())
    }
}

/// `a / b`, rounded up.
pub open spec fn ceil_div(a: nat, b: nat) -> nat
    recommends
        b > 0,
{
    (a + b - 1) as nat / b
}

/// The number of bits needed to write `value`: the least width from 1 to 64 that
/// holds it.  Zero takes one bit.
pub fn unsigned_bits_required(value: u64) -> (r: u32)
    ensures
        1 <= r <= 64,
        value < pow2(r as nat),
        r > 1 ==> value >= pow2((r - 1) as nat),
{
    let zeros: u32 = value.leading_zeros();
    proof {
        axiom_u64_leading_zeros(value);
        lemma2_to64();
    }
    if zeros >= 64 {
        return 1;
    }
    let width: u32 = 64 - zeros;
    proof {
        let below: u64 = (width - 1) as u64;
        let top: u64 = value >> below;
        assert(top != 0) by (bit_vector)
            requires
                top & 1u64 != 0u64,
        ;
        lemma_u64_shr_is_div(value, below);
        lemma_pow2_pos(below as nat);
        assert(value >= pow2(below as nat)) by (nonlinear_arith)
            requires
                value as nat / pow2(below as nat) != 0,
                pow2(below as nat) > 0,
        ;
        if width < 64 {
            lemma_u64_shr_is_div(value, width as u64);
            lemma_pow2_pos(width as nat);
            assert(value < pow2(width as nat)) by (nonlinear_arith)
                requires
                    value as nat / pow2(width as nat) == 0,
                    pow2(width as nat) > 0,
            ;
        }
    }
    width
}

/// A family of on-disk layouts for fixed-width integers.
#[derive(Clone, Copy, Debug, PartialEq, Eq, Structural)]
pub enum Format {
    /// Values follow each other bit by bit, across byte boundaries.
    Packed,
    /// Values sit side by side inside 64-bit words and never straddle two of them.
    PackedSingleBlock,
}

impl Format {
    /// The number under which the family is stored in headers.
    pub open spec fn id(self) -> u32 {
        match self {
            Format::Packed => 0,
            Format::PackedSingleBlock => 1,
        }
    }

    /// Whether the family has a layout for values of `bits` bits.
    pub open spec fn supports(self, bits: nat) -> bool {
        match self {
            Format::Packed => 1 <= bits <= 64,
            Format::PackedSingleBlock => bits == 1 || bits == 2 || bits == 3 || bits == 4 || bits
                == 5 || bits == 6 || bits == 7 || bits == 8 || bits == 9 || bits == 10 || bits == 12
                || bits == 16 || bits == 21 || bits == 32,
        }
    }

    /// Bytes that `value_count` values of `bits` bits occupy in this family.
    pub open spec fn bytes_needed(self, version: u32, value_count: nat, bits: nat) -> nat
        recommends
            self.supports(bits),
    {
        match self {
            Format::Packed => if version < VERSION_BYTE_ALIGNED {
                8 * ceil_div(value_count * bits, 64)
            } else {
                ceil_div(value_count * bits, 8)
            },
            Format::PackedSingleBlock => 8 * ceil_div(value_count, 64nat / bits),
        }
    }

    /// The number under which the family is stored in headers.
    pub fn get_id(self) -> (r: u32)
        ensures
            r == self.id(),
    {
        match self {
            Format::Packed => 0,
            Format::PackedSingleBlock => 1,
        }
    }

    /// The family stored under `id`, if there is one.
    pub fn with_id(id: u32) -> (r: Result<Format, Error>)
        ensures
            id == 0 ==> r == Ok::<Format, Error>(Format::Packed),
            id == 1 ==> r == Ok::<Format, Error>(Format::PackedSingleBlock),
            id > 1 ==> r == Err::<Format, Error>(Error::UnknownFormat),
    {
        if id == 0 {
            Ok(Format::Packed)
        } else if id == 1 {
            Ok(Format::PackedSingleBlock)
        } else {
            Err(Error::UnknownFormat)
        }
    }

    /// Whether the family has a layout for values of `bits_per_value` bits.
    pub fn is_supported(self, bits_per_value: u32) -> (r: bool)
        ensures
            r == self.supports(bits_per_value as nat),
    {
        match self {
            Format::Packed => 1 <= bits_per_value && bits_per_value <= 64,
            Format::PackedSingleBlock => bits_per_value == 1 || bits_per_value == 2
                || bits_per_value == 3 || bits_per_value == 4 || bits_per_value == 5
                || bits_per_value == 6 || bits_per_value == 7 || bits_per_value == 8
                || bits_per_value == 9 || bits_per_value == 10 || bits_per_value == 12
                || bits_per_value == 16 || bits_per_value == 21 || bits_per_value == 32,
        }
    }

    /// Bytes that `value_count` values of `bits_per_value` bits occupy in this family.
    pub fn byte_count(self, version: u32, value_count: u32, bits_per_value: u32) -> (r: u64)
        requires
            self.supports(bits_per_value as nat),
        ensures
            r == self.bytes_needed(version, value_count as nat, bits_per_value as nat),
    {
        let count: u64 = value_count as u64;
        let bits: u64 = bits_per_value as u64;
        match self {
            Format::Packed => {
                assert(count * bits <= 0xffff_ffff * 64) by (nonlinear_arith)
                    requires
                        count <= 0xffff_ffff,
                        bits <= 64,
                ;
                if version < VERSION_BYTE_ALIGNED {
                    8 * ((count * bits + 63) / 64)
                } else {
                    (count * bits + 7) / 8
                }
            },
            Format::PackedSingleBlock => {
                let per_word: u64 = 64 / bits;
                assert(1 <= per_word <= 64) by (nonlinear_arith)
                    requires
                        per_word == 64u64 / bits,
                        1 <= bits <= 32,
                ;
                8 * ((count + per_word - 1) / per_word)
            },
        }
    }
}

/// A layout: a format family together with the width it stores values in.
#[derive(Clone, Copy, Debug, PartialEq, Eq, Structural)]
pub struct FormatAndBits {
    pub format: Format,
    pub bits_per_value: u32,
}

impl FormatAndBits {
    /// The layout exists and its values fit 32-bit integers.
    pub open spec fn valid(self) -> bool {
        self.format.supports(self.bits_per_value as nat) && self.bits_per_value <= 32
    }

    /// The integer that stands for the layout in a header: the family's number in
    /// the bits above the fifth, the width less one in the five bits below.
    pub open spec fn code(self) -> u32
        recommends
            self.valid(),
    {
        (self.format.id() * 32 + (self.bits_per_value - 1)) as u32
    }

    /// The integer that stands for the layout in a header.
    pub fn to_code(self) -> (r: u32)
        requires
            self.valid(),
        ensures
            r == self.code(),
    {
        self.format.get_id() * 32 + (self.bits_per_value - 1)
    }

    /// The layout that a header code stands for, or the reason why it stands for none:
    /// `UnknownFormat` when the code names no family, `UnsupportedLayout` when the
    /// family has no layout of the width named.
    pub open spec fn of_code(code: u32) -> Result<FormatAndBits, Error> {
        let bits = (code % 32 + 1) as u32;
        if code / 32 == 0 {
            Ok(FormatAndBits { format: Format::Packed, bits_per_value: bits })
        } else if code / 32 == 1 {
            if Format::PackedSingleBlock.supports(bits as nat) {
                Ok(FormatAndBits { format: Format::PackedSingleBlock, bits_per_value: bits })
            } else {
                Err(Error::UnsupportedLayout)
            }
        } else {
            Err(Error::UnknownFormat)
        }
    }

    /// The widest layout that `fastest` may pick for values of `bits` bits.
    pub open spec fn max_bits(bits: nat, overhead: nat) -> nat {
        bits + capped_overhead(overhead) * bits / 1000
    }

    /// Whether single-block words of `candidate`-bit slots may hold values of `bits`
    /// bits: the bits of a word that carry no payload are at most `overhead`
    /// thousandths of those that do.
    pub open spec fn single_block_fits(bits: nat, candidate: nat, overhead: nat) -> bool {
        &&& Format::PackedSingleBlock.supports(candidate)
        &&& bits <= candidate
        &&& ({
            let per_word = 64nat / candidate;
            (64 - per_word * bits) * 1000 <= capped_overhead(overhead) * (per_word * bits)
        })
    }

    /// The narrowest single-block width from `from` to `max` that may hold values of
    /// `bits` bits, if there is one.
    pub open spec fn first_single_block(bits: nat, from: nat, max: nat, overhead: nat) -> Option<
        nat,
    >
        decreases max + 1 - from,
    {
        if from > max {
            None
        } else if FormatAndBits::single_block_fits(bits, from, overhead) {
            Some(from)
        } else {
            FormatAndBits::first_single_block(bits, from + 1, max, overhead)
        }
    }

    /// The layout picked for `value_count` values of `bits` bits when `overhead`
    /// thousandths of the packed size may be wasted.
    ///
    /// Widths that machines read fastest come first: 8, 16, 32 and 64 bits, then 24
    /// and 48; after them the narrowest single-block width whose waste is
    /// acceptable; failing all, plain packing at the width asked for.
    pub open spec fn fastest_layout(value_count: nat, bits: nat, overhead: nat) -> FormatAndBits {
        let max = FormatAndBits::max_bits(bits, overhead);
        if bits <= 8 && max >= 8 {
            FormatAndBits { format: Format::Packed, bits_per_value: 8 }
        } else if bits <= 16 && max >= 16 {
            FormatAndBits { format: Format::Packed, bits_per_value: 16 }
        } else if bits <= 32 && max >= 32 {
            FormatAndBits { format: Format::Packed, bits_per_value: 32 }
        } else if bits <= 64 && max >= 64 {
            FormatAndBits { format: Format::Packed, bits_per_value: 64 }
        } else if value_count <= THREE_BLOCKS_MAX_SIZE && bits <= 24 && max >= 24 {
            FormatAndBits { format: Format::Packed, bits_per_value: 24 }
        } else if value_count <= THREE_BLOCKS_MAX_SIZE && bits <= 48 && max >= 48 {
            FormatAndBits { format: Format::Packed, bits_per_value: 48 }
        } else {
            match FormatAndBits::first_single_block(bits, bits, max, overhead) {
                Some(width) => FormatAndBits {
                    format: Format::PackedSingleBlock,
                    bits_per_value: width as u32,
                },
                None => FormatAndBits { format: Format::Packed, bits_per_value: bits as u32 },
            }
        }
    }

    /// Picks the layout for `value_count` values of `bits_per_value` bits when
    /// `acceptable_overhead` thousandths of the packed size may be wasted.
    /// Ratios above [`FASTEST`] count as [`FASTEST`].  For widths from 1 to 64 the
    /// layout exists; for any other width the answer is plain packing at that
    /// width, which no family supports.
    pub fn fastest(value_count: usize, bits_per_value: u32, acceptable_overhead: u32) -> (r:
        FormatAndBits)
        ensures
            r == FormatAndBits::fastest_layout(
                value_count as nat,
                bits_per_value as nat,
                acceptable_overhead as nat,
            ),
    {
        let bits: u64 = bits_per_value as u64;
        let overhead: u64 = if acceptable_overhead > FASTEST {
            FASTEST as u64
        } else {
            acceptable_overhead as u64
        };
        assert(overhead * bits <= 7000 * 0xffff_ffff) by (nonlinear_arith)
            requires
                overhead <= 7000,
                bits <= 0xffff_ffff,
        ;
        let max: u64 = bits + overhead * bits / 1000;
        if bits <= 8 && max >= 8 {
            return FormatAndBits { format: Format::Packed, bits_per_value: 8 };
        } else if bits <= 16 && max >= 16 {
            return FormatAndBits { format: Format::Packed, bits_per_value: 16 };
        } else if bits <= 32 && max >= 32 {
            return FormatAndBits { format: Format::Packed, bits_per_value: 32 };
        } else if bits <= 64 && max >= 64 {
            return FormatAndBits { format: Format::Packed, bits_per_value: 64 };
        } else if value_count <= THREE_BLOCKS_MAX_SIZE && bits <= 24 && max >= 24 {
            return FormatAndBits { format: Format::Packed, bits_per_value: 24 };
        } else if value_count <= THREE_BLOCKS_MAX_SIZE && bits <= 48 && max >= 48 {
            return FormatAndBits { format: Format::Packed, bits_per_value: 48 };
        }
        let mut candidate: u64 = bits;
        while candidate <= max && candidate <= 32
            invariant
                bits == bits_per_value,
                bits <= candidate <= max + 1,
                candidate <= 33 || candidate == bits,
                overhead == capped_overhead(acceptable_overhead as nat),
                max == FormatAndBits::max_bits(bits as nat, acceptable_overhead as nat),
                FormatAndBits::fastest_layout(
                    value_count as nat,
                    bits as nat,
                    acceptable_overhead as nat,
                ) == match FormatAndBits::first_single_block(
                    bits as nat,
                    bits as nat,
                    max as nat,
                    acceptable_overhead as nat,
                ) {
                    Some(width) => (FormatAndBits {
                        format: Format::PackedSingleBlock,
                        bits_per_value: width as u32,
                    }),
                    None => (FormatAndBits { format: Format::Packed, bits_per_value }),
                },
                FormatAndBits::first_single_block(
                    bits as nat,
                    bits as nat,
                    max as nat,
                    acceptable_overhead as nat,
                ) == FormatAndBits::first_single_block(
                    bits as nat,
                    candidate as nat,
                    max as nat,
                    acceptable_overhead as nat,
                ),
            decreases max + 1 - candidate,
        {
            if Format::PackedSingleBlock.is_supported(candidate as u32) {
                let per_word: u64 = 64 / candidate;
                assert(1 <= per_word <= 64) by (nonlinear_arith)
                    requires
                        per_word == 64u64 / candidate,
                        1 <= candidate <= 32,
                ;
                assert(per_word * bits <= 64) by (nonlinear_arith)
                    requires
                        per_word == 64u64 / candidate,
                        bits <= candidate,
                        1 <= candidate,
                ;
                assert(overhead * (per_word * bits) <= 7000 * 64) by (nonlinear_arith)
                    requires
                        overhead <= 7000,
                        per_word * bits <= 64,
                ;
                if (64 - per_word * bits) * 1000 <= overhead * (per_word * bits) {
                    return FormatAndBits {
                        format: Format::PackedSingleBlock,
                        bits_per_value: candidate as u32,
                    };
                }
            }
            candidate += 1;
        }
        proof {
            lemma_first_single_block(
                bits as nat,
                candidate as nat,
                max as nat,
                acceptable_overhead as nat,
            );
        }
        FormatAndBits { format: Format::Packed, bits_per_value }
    }
}

/// An overhead ratio, in thousandths, with everything above [`FASTEST`] cut down to it.
pub open spec fn capped_overhead(overhead: nat) -> nat {
    if overhead > FASTEST {
        FASTEST as nat
    } else {
        overhead
    }
}

/// The code of a valid layout stands for that layout.
pub proof fn lemma_code_round_trip(layout: FormatAndBits)
    requires
        layout.valid(),
    ensures
        FormatAndBits::of_code(layout.code()) == Ok::<FormatAndBits, Error>(layout),
{
}

/// A layout read from a code is valid, and that code is its own.
pub proof fn lemma_of_code_is_valid(code: u32)
    requires
        FormatAndBits::of_code(code) is Ok,
    ensures
        FormatAndBits::of_code(code)->Ok_0.valid(),
        FormatAndBits::of_code(code)->Ok_0.code() == code,
{
}

/// The layout picked for a width exists and is at least that wide; for widths up
/// to 32 bits it is at most 32 bits wide.
pub proof fn lemma_fastest_is_supported(value_count: nat, bits: nat, overhead: nat)
    requires
        1 <= bits <= 64,
    ensures
        ({
            let layout = FormatAndBits::fastest_layout(value_count, bits, overhead);
            &&& layout.format.supports(layout.bits_per_value as nat)
            &&& bits <= layout.bits_per_value <= 64
            &&& bits <= 32 ==> layout.valid()
        }),
{
    let max = FormatAndBits::max_bits(bits, overhead);
    lemma_first_single_block(bits, bits, max, overhead);
}

/// The bits that a layout wastes on values of `bits` bits are at most the accepted
/// share of the bits that carry them: counted by the value in a packed layout, by
/// the 64-bit word in a single-block layout.
pub open spec fn within_overhead(layout: FormatAndBits, bits: nat, overhead: nat) -> bool {
    match layout.format {
        Format::Packed => (layout.bits_per_value - bits) * 1000 <= capped_overhead(overhead)
            * bits,
        Format::PackedSingleBlock => ({
            let per_word = 64nat / (layout.bits_per_value as nat);
            (64 - per_word * bits) * 1000 <= capped_overhead(overhead) * (per_word * bits)
        }),
    }
}

/// The layout picked for a width wastes no more than the accepted overhead.
pub proof fn lemma_fastest_within_overhead(value_count: nat, bits: nat, overhead: nat)
    requires
        1 <= bits <= 64,
    ensures
        within_overhead(FormatAndBits::fastest_layout(value_count, bits, overhead), bits, overhead),
{
    let max = FormatAndBits::max_bits(bits, overhead);
    let share = capped_overhead(overhead) * bits;
    lemma_first_single_block(bits, bits, max, overhead);
    assert((max - bits) * 1000 <= share) by (nonlinear_arith)
        requires
            max == bits + share / 1000,
    ;
}

/// With no overhead accepted, the layout picked for a width stores values in
/// exactly that width, and a single-block layout is picked only where the width
/// divides the word.
pub proof fn lemma_compact_is_exact(value_count: nat, bits: nat)
    requires
        1 <= bits <= 64,
    ensures
        ({
            let layout = FormatAndBits::fastest_layout(value_count, bits, COMPACT as nat);
            &&& layout.bits_per_value == bits
            &&& layout.format == Format::PackedSingleBlock ==> 64nat % bits == 0
        }),
{
    let max = FormatAndBits::max_bits(bits, COMPACT as nat);
    assert(max == bits) by (nonlinear_arith)
        requires
            max == bits + (0 * bits) / 1000,
    ;
    lemma_first_single_block(bits, bits, max, COMPACT as nat);
    let layout = FormatAndBits::fastest_layout(value_count, bits, COMPACT as nat);
    if layout.format == Format::PackedSingleBlock {
        let per_word = 64nat / bits;
        assert(64 - per_word * bits <= 0) by (nonlinear_arith)
            requires
                (64 - per_word * bits) * 1000 <= 0 * (per_word * bits),
        ;
        vstd::arithmetic::div_mod::lemma_fundamental_div_mod(64, bits as int);
        assert(64nat % bits == 0) by (nonlinear_arith)
            requires
                64 == bits * per_word + 64nat % bits,
                64 - per_word * bits <= 0,
                64nat % bits >= 0,
        ;
    }
}

/// What `first_single_block` finds is the narrowest acceptable width of its range.
pub proof fn lemma_first_single_block(bits: nat, from: nat, max: nat, overhead: nat)
    ensures
        match FormatAndBits::first_single_block(bits, from, max, overhead) {
            Some(width) => {
                &&& from <= width <= max
                &&& FormatAndBits::single_block_fits(bits, width, overhead)
                &&& forall|c: nat|
                    from <= c < width ==> !FormatAndBits::single_block_fits(bits, c, overhead)
            },
            None => forall|c: nat|
                from <= c <= max ==> !FormatAndBits::single_block_fits(bits, c, overhead),
        },
    decreases max + 1 - from,
{
    if from <= max && !FormatAndBits::single_block_fits(bits, from, overhead) {
        lemma_first_single_block(bits, from + 1, max, overhead);
    }
}

} // verus!
