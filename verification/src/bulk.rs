//! Encoders and decoders: one pair for each layout.
//!
//! Both work in iterations.  One iteration of a layout takes a fixed number of
//! values and a fixed number of bytes, so that every call begins and ends on a
//! byte boundary.

use vstd::prelude::*;
use vstd::arithmetic::power2::*;
use crate::error::Error;
use crate::packed::{check_version, version_supported, Format, FormatAndBits, BLOCK_SIZE};
use crate::radix::{
    be_digits, be_value, digits_fit, high_bits, le_digits, le_value, lemma_be_digits_fit,
    lemma_be_digits_of_value, lemma_be_value_bound, lemma_be_value_of_digits,
    lemma_be_value_step, lemma_join, lemma_le_digits_fit, lemma_le_digits_of_value,
    lemma_le_value_bound, lemma_pow2_monotonic, lemma_split, low_bits,
    shift_in,
};

verus! {

/// A value as a digit of `bits` bits.  A position past the end of `values` holds zero.
pub open spec fn value_digit(values: Seq<u32>, bits: nat, i: int) -> nat {
    if 0 <= i < values.len() {
        values[i] as nat % pow2(bits)
    } else {
        0
    }
}

/// The first `count` values as digits of `bits` bits.
pub open spec fn value_digits(values: Seq<u32>, bits: nat, count: nat) -> Seq<nat> {
    Seq::new(count, |i: int| value_digit(values, bits, i))
}

/// Bytes as digits of 8 bits.
pub open spec fn byte_digits(bytes: Seq<u8>) -> Seq<nat> {
    Seq::new(bytes.len(), |i: int| bytes[i] as nat)
}

/// Digits below 256 as bytes.
pub open spec fn digit_bytes(digits: Seq<nat>) -> Seq<u8> {
    Seq::new(digits.len(), |i: int| digits[i] as u8)
}

/// Digits below `2^32` as values.
pub open spec fn digit_values(digits: Seq<nat>) -> Seq<u32> {
    Seq::new(digits.len(), |i: int| digits[i] as u32)
}

/// The bytes of `count` values packed bit by bit, most significant bit first.
pub open spec fn packed_bytes(values: Seq<u32>, bits: nat, count: nat) -> Seq<u8> {
    digit_bytes(be_digits(be_value(value_digits(values, bits, count), bits), 8, count * bits / 8))
}

/// The `count` values packed bit by bit in the first `count * bits / 8` bytes.
pub open spec fn packed_values(bytes: Seq<u8>, bits: nat, count: nat) -> Seq<u32> {
    digit_values(
        be_digits(be_value(byte_digits(bytes.take((count * bits / 8) as int)), 8), bits, count),
    )
}

/// Bytes are digits below `2^8`.
pub proof fn lemma_byte_digits_fit(bytes: Seq<u8>)
    ensures
        digits_fit(byte_digits(bytes), 8),
{
    lemma2_to64();
}

/// Packs `count` values of `bits` bits into the first `total` bytes of `blocks`.
fn encode_packed(bits: u32, values: &[u32], blocks: &mut [u8], count: usize, total: usize)
    requires
        1 <= bits <= 32,
        count * bits == total * 8,
        total <= old(blocks)@.len(),
    ensures
        final(blocks)@ == packed_bytes(values@, bits as nat, count as nat) + old(blocks)@.skip(
            total as int,
        ),
{
    let ghost digits = value_digits(values@, bits as nat, count as nat);
    let mut acc: u64 = 0;
    let mut pending: u32 = 0;
    let mut k: usize = 0;
    let mut i: usize = 0;
    proof {
        lemma2_to64();
    }
    while i < count
        invariant
            1 <= bits <= 32,
            count * bits == total * 8,
            total <= blocks@.len(),
            blocks@.len() == old(blocks)@.len(),
            digits == value_digits(values@, bits as nat, count as nat),
            i <= count,
            pending < 8,
            i * bits == k * 8 + pending,
            acc < pow2(pending as nat),
            be_value(digits.take(i as int), bits as nat) == be_value(
                byte_digits(blocks@).take(k as int),
                8,
            ) * pow2(pending as nat) + acc,
            blocks@.skip(total as int) == old(blocks)@.skip(total as int),
        decreases count - i,
    {
        let v: u64 = if i < values.len() {
            low_bits(values[i] as u64, bits)
        } else {
            0
        };
        proof {
            assert(v == digits[i as int]);
            lemma_pow2_pos(bits as nat);
            lemma_mod_bound_nat(values@, bits as nat, i as int);
            lemma_join(acc as nat, v as nat, pending as nat, bits as nat);
            lemma_pow2_monotonic((pending + bits) as nat, 39);
            vstd::bits::lemma_u64_pow2_no_overflow(39);
            lemma_be_value_step(digits, bits as nat, i as int);
            assert(i * bits + bits == (i + 1) * bits) by (nonlinear_arith);
            assert((i + 1) * bits <= count * bits) by (nonlinear_arith)
                requires
                    i + 1 <= count,
            ;
        }
        let ghost before = be_value(byte_digits(blocks@).take(k as int), 8);
        let ghost old_acc = acc;
        acc = shift_in(acc, bits, v);
        pending = pending + bits;
        proof {
            lemma_pow2_adds((pending - bits) as nat, bits as nat);
            assert(before * pow2((pending - bits) as nat) * pow2(bits as nat) == before * (pow2(
                (pending - bits) as nat,
            ) * pow2(bits as nat))) by (nonlinear_arith);
            assert((before * pow2((pending - bits) as nat) + old_acc) * pow2(bits as nat) + v
                == before * pow2((pending - bits) as nat) * pow2(bits as nat) + (old_acc * pow2(
                bits as nat,
            ) + v)) by (nonlinear_arith);
        }
        while pending >= 8
            invariant
                1 <= bits <= 32,
                count * bits == total * 8,
                total <= blocks@.len(),
                blocks@.len() == old(blocks)@.len(),
                i < count,
                (i + 1) * bits <= count * bits,
                pending < 40,
                (i + 1) * bits == k * 8 + pending,
                acc < pow2(pending as nat),
                be_value(digits.take(i + 1), bits as nat) == be_value(
                    byte_digits(blocks@).take(k as int),
                    8,
                ) * pow2(pending as nat) + acc,
                blocks@.skip(total as int) == old(blocks)@.skip(total as int),
            decreases pending,
        {
            let ghost prior = blocks@;
            let ghost prior_acc = acc;
            let ghost head = be_value(byte_digits(blocks@).take(k as int), 8);
            pending = pending - 8;
            proof {
                lemma2_to64();
                lemma_split(acc as nat, 8, pending as nat);
            }
            let byte: u64 = high_bits(acc, pending);
            blocks[k] = byte as u8;
            acc = low_bits(acc, pending);
            proof {
                let now = byte_digits(blocks@);
                assert(now.take(k as int) =~= byte_digits(prior).take(k as int));
                lemma_be_value_step(now, 8, k as int);
                assert(now[k as int] == byte);
                lemma_pow2_adds(8, pending as nat);
                assert((head * pow2(8) + byte) * pow2(pending as nat) + acc == head * (pow2(8)
                    * pow2(pending as nat)) + (byte * pow2(pending as nat) + acc))
                    by (nonlinear_arith);
                assert(blocks@.skip(total as int) =~= prior.skip(total as int));
            }
            k = k + 1;
        }
        i = i + 1;
    }
    proof {
        lemma2_to64();
        assert(digits.take(count as int) =~= digits);
        assert(k == total && pending == 0);
        let number = be_value(digits, bits as nat);
        let head = byte_digits(blocks@).take(total as int);
        assert(be_value(head, 8) == number) by (nonlinear_arith)
            requires
                be_value(head, 8) * 1 + 0 == number,
        ;
        lemma_byte_digits_fit(blocks@);
        lemma_be_digits_of_value(head, 8);
        assert(count * bits / 8 == total);
        assert(blocks@ =~= packed_bytes(values@, bits as nat, count as nat) + old(blocks)@.skip(
            total as int,
        )) by {
            let want = packed_bytes(values@, bits as nat, count as nat);
            lemma_be_digits_fit(number, 8, total as nat);
            assert forall|j: int| 0 <= j < blocks@.len() implies blocks@[j] == (want + old(
                blocks,
            )@.skip(total as int))[j] by {
                if j < total {
                    assert(head[j] == blocks@[j] as nat);
                } else {
                    assert(blocks@[j] == blocks@.skip(total as int)[j - total]);
                }
            }
        }
    }
}

/// Values as digits, each taken whole.
pub open spec fn wide(values: Seq<u32>) -> Seq<nat> {
    Seq::new(values.len(), |i: int| values[i] as nat)
}

/// Unpacks `count` values of `bits` bits from the first `total` bytes of `blocks`.
fn decode_packed(bits: u32, blocks: &[u8], values: &mut [u32], count: usize, total: usize)
    requires
        1 <= bits <= 32,
        count * bits == total * 8,
        total <= blocks@.len(),
        count <= old(values)@.len(),
    ensures
        final(values)@ == packed_values(blocks@, bits as nat, count as nat) + old(values)@.skip(
            count as int,
        ),
{
    let ghost source = byte_digits(blocks@);
    let mut acc: u64 = 0;
    let mut pending: u32 = 0;
    let mut k: usize = 0;
    let mut i: usize = 0;
    proof {
        lemma2_to64();
        assert(wide(values@).take(0) =~= Seq::<nat>::empty());
        assert(source.take(0) =~= Seq::<nat>::empty());
    }
    while i < count
        invariant
            1 <= bits <= 32,
            count * bits == total * 8,
            total <= blocks@.len(),
            count <= values@.len(),
            values@.len() == old(values)@.len(),
            source == byte_digits(blocks@),
            i <= count,
            pending < 8,
            k * 8 == i * bits + pending,
            acc < pow2(pending as nat),
            digits_fit(wide(values@).take(i as int), bits as nat),
            be_value(source.take(k as int), 8) == be_value(
                wide(values@).take(i as int),
                bits as nat,
            ) * pow2(pending as nat) + acc,
            values@.skip(count as int) == old(values)@.skip(count as int),
        decreases count - i,
    {
        let ghost done = be_value(wide(values@).take(i as int), bits as nat);
        proof {
            assert(i * bits + bits == (i + 1) * bits) by (nonlinear_arith);
            assert((i + 1) * bits <= count * bits) by (nonlinear_arith)
                requires
                    i + 1 <= count,
            ;
        }
        while pending < bits
            invariant
                1 <= bits <= 32,
                count * bits == total * 8,
                total <= blocks@.len(),
                source == byte_digits(blocks@),
                (i + 1) * bits <= count * bits,
                i * bits + bits == (i + 1) * bits,
                pending < bits + 8,
                k * 8 == i * bits + pending,
                acc < pow2(pending as nat),
                be_value(source.take(k as int), 8) == done * pow2(pending as nat) + acc,
            decreases 40 - pending,
        {
            let byte: u64 = blocks[k] as u64;
            proof {
                lemma2_to64();
                lemma_join(acc as nat, byte as nat, pending as nat, 8);
                lemma_pow2_monotonic((pending + 8) as nat, 40);
                vstd::bits::lemma_u64_pow2_no_overflow(40);
                lemma_be_value_step(source, 8, k as int);
                lemma_pow2_adds(pending as nat, 8);
                assert((done * pow2(pending as nat) + acc) * pow2(8) + byte == done * (pow2(
                    pending as nat,
                ) * pow2(8)) + (acc * pow2(8) + byte)) by (nonlinear_arith);
            }
            acc = shift_in(acc, 8, byte);
            pending = pending + 8;
            k = k + 1;
        }
        let ghost prior = values@;
        let ghost whole = acc;
        pending = pending - bits;
        proof {
            lemma_split(acc as nat, bits as nat, pending as nat);
            lemma_pow2_monotonic(bits as nat, 32);
            lemma2_to64();
        }
        let v: u64 = high_bits(acc, pending);
        acc = low_bits(acc, pending);
        values[i] = v as u32;
        proof {
            let now = wide(values@);
            assert(now.take(i as int) =~= wide(prior).take(i as int));
            lemma_be_value_step(now, bits as nat, i as int);
            assert(now[i as int] == v);
            assert forall|j: int| 0 <= j < i + 1 implies #[trigger] now.take(i + 1)[j] < pow2(
                bits as nat,
            ) by {
                if j < i {
                    assert(now.take(i + 1)[j] == wide(prior).take(i as int)[j]);
                }
            }
            lemma_pow2_adds(bits as nat, pending as nat);
            assert((done * pow2(bits as nat) + v) * pow2(pending as nat) + acc == done * (pow2(
                bits as nat,
            ) * pow2(pending as nat)) + (v * pow2(pending as nat) + acc)) by (nonlinear_arith);
            assert(values@.skip(count as int) =~= prior.skip(count as int));
        }
        i = i + 1;
    }
    proof {
        lemma2_to64();
        assert(k == total && pending == 0);
        let got = wide(values@).take(count as int);
        let head = byte_digits(blocks@.take(total as int));
        assert(source.take(total as int) =~= head);
        assert(be_value(got, bits as nat) == be_value(head, 8)) by (nonlinear_arith)
            requires
                be_value(head, 8) == be_value(got, bits as nat) * 1 + 0,
        ;
        lemma_be_digits_of_value(got, bits as nat);
        assert(count * bits / 8 == total);
        let want = packed_values(blocks@, bits as nat, count as nat);
        assert(values@ =~= want + old(values)@.skip(count as int)) by {
            assert forall|j: int| 0 <= j < values@.len() implies values@[j] == (want + old(
                values,
            )@.skip(count as int))[j] by {
                if j < count {
                    assert(got[j] == values@[j] as nat);
                } else {
                    assert(values@[j] == values@.skip(count as int)[j - count]);
                }
            }
        }
    }
}

/// How many values of `bits` bits share one 64-bit word of a single-block layout.
pub open spec fn values_per_word(bits: nat) -> nat {
    64nat / bits
}

/// The values that share word `word` of a single-block layout, as digits.
pub open spec fn word_digits(values: Seq<u32>, bits: nat, word: int) -> Seq<nat> {
    Seq::new(
        values_per_word(bits),
        |j: int| value_digit(values, bits, word * values_per_word(bits) + j),
    )
}

/// The bytes of `words` words of a single-block layout.  A word holds its
/// values, the first in its lowest bits, and is written most significant byte first.
pub open spec fn single_block_bytes(values: Seq<u32>, bits: nat, words: nat) -> Seq<u8> {
    Seq::new(
        words * 8,
        |k: int| be_digits(le_value(word_digits(values, bits, k / 8), bits), 8, 8)[k % 8] as u8,
    )
}

/// The number that word `word` of `bytes` holds.
pub open spec fn word_at(bytes: Seq<u8>, word: int) -> nat {
    be_value(byte_digits(bytes.subrange(8 * word, 8 * word + 8)), 8)
}

/// The values held in the first `words` words of a single-block layout.
pub open spec fn single_block_values(bytes: Seq<u8>, bits: nat, words: nat) -> Seq<u32> {
    Seq::new(
        words * values_per_word(bits),
        |i: int|
            le_digits(
                word_at(bytes, i / (values_per_word(bits) as int)),
                bits,
                values_per_word(bits),
            )[i % (values_per_word(bits) as int)] as u32,
    )
}

/// Bounds on the values that fit one word.
proof fn lemma_per_word(bits: nat)
    requires
        Format::PackedSingleBlock.supports(bits),
    ensures
        2 <= values_per_word(bits) <= 64,
        bits * values_per_word(bits) <= 64,
{
    assert(2 <= 64nat / bits <= 64 && bits * (64nat / bits) <= 64) by (nonlinear_arith)
        requires
            1 <= bits <= 32,
    ;
}

/// Writes `words` words of values into the first `8 * words` bytes
/// of `blocks`.
fn encode_single_block(bits: u32, values: &[u32], blocks: &mut [u8], words: usize)
    requires
        Format::PackedSingleBlock.supports(bits as nat),
        words * 8 <= old(blocks)@.len(),
        words * values_per_word(bits as nat) <= usize::MAX,
    ensures
        final(blocks)@ == single_block_bytes(values@, bits as nat, words as nat) + old(
            blocks,
        )@.skip(words * 8),
{
    let per_word: usize = (64 / bits) as usize;
    let ghost want = single_block_bytes(values@, bits as nat, words as nat);
    let mut w: usize = 0;
    proof {
        lemma_per_word(bits as nat);
    }
    while w < words
        invariant
            Format::PackedSingleBlock.supports(bits as nat),
            per_word == values_per_word(bits as nat),
            2 <= per_word <= 64,
            bits * per_word <= 64,
            words * 8 <= blocks@.len(),
            words * per_word <= usize::MAX,
            blocks@.len() == old(blocks)@.len(),
            want == single_block_bytes(values@, bits as nat, words as nat),
            w <= words,
            forall|k: int| 0 <= k < w * 8 ==> blocks@[k] == #[trigger] want[k],
            forall|k: int| words * 8 <= k < blocks@.len() ==> blocks@[k] == old(blocks)@[k],
        decreases words - w,
    {
        let ghost chunk = word_digits(values@, bits as nat, w as int);
        proof {
            assert(w * per_word + per_word <= words * per_word) by (nonlinear_arith)
                requires
                    w + 1 <= words,
            ;
            assert(chunk.skip(per_word as int) =~= Seq::<nat>::empty());
            assert(bits * (per_word - per_word) == 0) by (nonlinear_arith);
            lemma2_to64();
        }
        let base: usize = w * per_word;
        let mut word: u64 = 0;
        let mut j: usize = per_word;
        while j > 0
            invariant
                Format::PackedSingleBlock.supports(bits as nat),
                per_word == values_per_word(bits as nat),
                bits * per_word <= 64,
                base == w * per_word,
                base + per_word <= usize::MAX,
                w < words,
                words * 8 <= blocks@.len(),
                blocks@.len() == old(blocks)@.len(),
                chunk == word_digits(values@, bits as nat, w as int),
                j <= per_word,
                word == le_value(chunk.skip(j as int), bits as nat),
                word < pow2((bits * (per_word - j)) as nat),
            decreases j,
        {
            j = j - 1;
            let at: usize = base + j;
            let v: u64 = if at < values.len() {
                low_bits(values[at] as u64, bits)
            } else {
                0
            };
            proof {
                assert(v == chunk[j as int]);
                lemma_mod_bound_nat(values@, bits as nat, at as int);
                lemma_join(word as nat, v as nat, (bits * (per_word - j - 1)) as nat, bits as nat);
                assert(bits * (per_word - j - 1) + bits == bits * (per_word - j))
                    by (nonlinear_arith);
                assert(bits * (per_word - j) <= bits * per_word) by (nonlinear_arith)
                    requires
                        j >= 0,
                ;
                lemma_pow2_monotonic((bits * (per_word - j)) as nat, 64);
                lemma2_to64();
                assert(chunk.skip(j as int).drop_first() =~= chunk.skip(j + 1));
                assert(word * pow2(bits as nat) == pow2(bits as nat) * word) by (nonlinear_arith);
            }
            word = shift_in(word, bits, v);
        }
        proof {
            assert(chunk.skip(0) =~= chunk);
            assert(blocks.len() == blocks@.len());
        }
        let start: usize = w * 8;
        let mut rest: u64 = word;
        let mut t: usize = 8;
        while t > 0
            invariant
                start == w * 8,
                w < words,
                words * 8 <= blocks@.len(),
                blocks@.len() == old(blocks)@.len(),
                want == single_block_bytes(values@, bits as nat, words as nat),
                t <= 8,
                be_digits(word as nat, 8, 8) == be_digits(rest as nat, 8, t as nat) + byte_digits(
                    blocks@.subrange(start + t, start + 8),
                ),
                forall|k: int| 0 <= k < w * 8 ==> blocks@[k] == #[trigger] want[k],
                forall|k: int| words * 8 <= k < blocks@.len() ==> blocks@[k] == old(blocks)@[k],
            decreases t,
        {
            let ghost prior = blocks@;
            let ghost tail = byte_digits(prior.subrange(start + t, start + 8));
            let low: u64 = low_bits(rest, 8);
            proof {
                lemma2_to64();
                vstd::arithmetic::div_mod::lemma_mod_bound(rest as int, 256);
            }
            t = t - 1;
            blocks[start + t] = low as u8;
            rest = high_bits(rest, 8);
            proof {
                let now = byte_digits(blocks@.subrange(start + t, start + 8));
                assert(now =~= seq![low as nat] + tail);
                assert(be_digits(rest as nat, 8, t as nat).push(low as nat) + tail =~= be_digits(
                    rest as nat,
                    8,
                    t as nat,
                ) + now);
            }
        }
        proof {
            assert(be_digits(rest as nat, 8, 0) =~= Seq::<nat>::empty());
            let written = byte_digits(blocks@.subrange(start as int, start + 8));
            assert(be_digits(word as nat, 8, 8) =~= written);
            assert forall|k: int| 0 <= k < (w + 1) * 8 implies blocks@[k] == #[trigger] want[k] by {
                if k >= w * 8 {
                    assert(k / 8 == w as int && k % 8 == k - start);
                    assert(written[k - start] == blocks@[k] as nat);
                }
            }
        }
        w = w + 1;
    }
    proof {
        assert(blocks@ =~= want + old(blocks)@.skip(words * 8));
    }
}

/// Reads `words` words from the first `8 * words` bytes of `blocks` and spreads the
/// values they hold over `values`.
fn decode_single_block(bits: u32, blocks: &[u8], values: &mut [u32], words: usize)
    requires
        Format::PackedSingleBlock.supports(bits as nat),
        words * 8 <= blocks@.len(),
        words * values_per_word(bits as nat) <= old(values)@.len(),
    ensures
        final(values)@ == single_block_values(blocks@, bits as nat, words as nat) + old(
            values,
        )@.skip(words * values_per_word(bits as nat)),
{
    let per_word: usize = (64 / bits) as usize;
    let ghost want = single_block_values(blocks@, bits as nat, words as nat);
    let mut w: usize = 0;
    proof {
        lemma_per_word(bits as nat);
        assert(values.len() == values@.len());
        assert(blocks.len() == blocks@.len());
    }
    while w < words
        invariant
            Format::PackedSingleBlock.supports(bits as nat),
            per_word == values_per_word(bits as nat),
            2 <= per_word <= 64,
            bits * per_word <= 64,
            words * 8 <= blocks@.len() <= usize::MAX,
            words * per_word <= values@.len() <= usize::MAX,
            values@.len() == old(values)@.len(),
            want == single_block_values(blocks@, bits as nat, words as nat),
            w <= words,
            forall|i: int| 0 <= i < w * per_word ==> values@[i] == #[trigger] want[i],
            forall|i: int| words * per_word <= i < values@.len() ==> values@[i] == old(values)@[i],
        decreases words - w,
    {
        let start: usize = w * 8;
        let ghost source = byte_digits(blocks@.subrange(start as int, start + 8));
        let mut word: u64 = 0;
        let mut t: usize = 0;
        proof {
            lemma2_to64();
            assert(source.take(0) =~= Seq::<nat>::empty());
            assert(w * per_word + per_word <= words * per_word) by (nonlinear_arith)
                requires
                    w + 1 <= words,
            ;
        }
        while t < 8
            invariant
                start == w * 8,
                start + 8 <= blocks@.len(),
                source == byte_digits(blocks@.subrange(start as int, start + 8)),
                t <= 8,
                word == be_value(source.take(t as int), 8),
                word < pow2((8 * t) as nat),
            decreases 8 - t,
        {
            let byte: u64 = blocks[start + t] as u64;
            proof {
                lemma2_to64();
                assert(byte == source[t as int]);
                lemma_join(word as nat, byte as nat, (8 * t) as nat, 8);
                lemma_pow2_monotonic((8 * t + 8) as nat, 64);
                lemma_be_value_step(source, 8, t as int);
            }
            word = shift_in(word, 8, byte);
            t = t + 1;
        }
        proof {
            assert(source.take(8) =~= source);
            assert(word == word_at(blocks@, w as int));
        }
        let base: usize = w * per_word;
        let ghost held = le_digits(word as nat, bits as nat, per_word as nat);
        let mut rest: u64 = word;
        let mut j: usize = 0;
        proof {
            lemma_le_digits_fit(word as nat, bits as nat, per_word as nat);
            assert(wide(values@.subrange(base as int, base as int)) =~= Seq::<nat>::empty());
        }
        while j < per_word
            invariant
                1 <= bits <= 32,
                base == w * per_word,
                base + per_word <= words * per_word,
                words * per_word <= values@.len() <= usize::MAX,
                values@.len() == old(values)@.len(),
                j <= per_word,
                held == le_digits(word as nat, bits as nat, per_word as nat),
                held.len() == per_word,
                held == wide(values@.subrange(base as int, base + j)) + le_digits(
                    rest as nat,
                    bits as nat,
                    (per_word - j) as nat,
                ),
                forall|i: int| 0 <= i < base ==> values@[i] == #[trigger] want[i],
                forall|i: int|
                    words * per_word <= i < values@.len() ==> values@[i] == old(values)@[i],
            decreases per_word - j,
        {
            let ghost prior = values@;
            let v: u64 = low_bits(rest, bits);
            proof {
                lemma_pow2_pos(bits as nat);
                vstd::arithmetic::div_mod::lemma_mod_bound(rest as int, pow2(bits as nat) as int);
                lemma_pow2_monotonic(bits as nat, 32);
                lemma2_to64();
            }
            values[base + j] = v as u32;
            let ghost upper = le_digits(
                (rest as nat) / pow2(bits as nat),
                bits as nat,
                (per_word - j - 1) as nat,
            );
            rest = high_bits(rest, bits);
            proof {
                assert(wide(values@.subrange(base as int, base + j + 1)) =~= wide(
                    prior.subrange(base as int, base + j),
                ).push(v as nat));
                assert(wide(prior.subrange(base as int, base + j)) + (seq![v as nat] + upper)
                    =~= wide(prior.subrange(base as int, base + j)).push(v as nat) + upper);
            }
            j = j + 1;
        }
        proof {
            assert(le_digits(rest as nat, bits as nat, 0) =~= Seq::<nat>::empty());
            let got = wide(values@.subrange(base as int, base + per_word));
            assert(held =~= got);
            assert forall|i: int| 0 <= i < (w + 1) * per_word implies values@[i] == #[trigger] want[i] by {
                assert((w + 1) * per_word == base + per_word) by (nonlinear_arith)
                    requires
                        base == w * per_word,
                ;
                assert((w + 1) * per_word <= words * per_word);
                if i >= base {
                    vstd::arithmetic::div_mod::lemma_fundamental_div_mod_converse(
                        i,
                        per_word as int,
                        w as int,
                        i - base,
                    );
                    assert(got[i - base] == values@[i] as nat);
                }
            }
        }
        w = w + 1;
    }
    proof {
        assert(values@ =~= want + old(values)@.skip(words * per_word));
    }
}

/// Values that one iteration of a layout takes.
///
/// For a packed layout this is the least count of values that ends on a byte
/// boundary; for a single-block layout, the count of values in a word.
pub open spec fn values_per_iteration(layout: FormatAndBits) -> nat {
    let bits = layout.bits_per_value as nat;
    match layout.format {
        Format::Packed => if bits % 8 == 0 {
            1
        } else if bits % 4 == 0 {
            2
        } else if bits % 2 == 0 {
            4
        } else {
            8
        },
        Format::PackedSingleBlock => values_per_word(bits),
    }
}

/// Bytes that one iteration of a layout takes.
pub open spec fn bytes_per_iteration(layout: FormatAndBits) -> nat {
    match layout.format {
        Format::Packed => values_per_iteration(layout) * layout.bits_per_value as nat / 8,
        Format::PackedSingleBlock => 8,
    }
}

/// The bytes that `iterations` iterations make of `values`.  Each value is cut down
/// to the layout's width; where `values` runs out, zeros stand in.
pub open spec fn encoding(layout: FormatAndBits, values: Seq<u32>, iterations: nat) -> Seq<u8> {
    let bits = layout.bits_per_value as nat;
    match layout.format {
        Format::Packed => packed_bytes(values, bits, iterations * values_per_iteration(layout)),
        Format::PackedSingleBlock => single_block_bytes(values, bits, iterations),
    }
}

/// The values that `iterations` iterations make of the first bytes of `bytes`.
pub open spec fn decoding(layout: FormatAndBits, bytes: Seq<u8>, iterations: nat) -> Seq<u32> {
    let bits = layout.bits_per_value as nat;
    match layout.format {
        Format::Packed => packed_values(bytes, bits, iterations * values_per_iteration(layout)),
        Format::PackedSingleBlock => single_block_values(bytes, bits, iterations),
    }
}

/// The layout that the catalogue resolves a family, a version and a width to, or
/// the reason why it has none.
pub open spec fn resolve(format: Format, version: u32, bits_per_value: u32) -> Result<
    FormatAndBits,
    Error,
> {
    let layout = FormatAndBits { format, bits_per_value };
    if !version_supported(version) {
        Err(Error::UnsupportedVersion)
    } else if !layout.valid() {
        Err(Error::UnsupportedLayout)
    } else {
        Ok(layout)
    }
}

/// One iteration of a valid layout takes between 1 and 64 values and between 1 and
/// 32 bytes.  In a packed layout the two are the same number of bits, and a block
/// is a whole number of iterations.
pub proof fn lemma_iteration_sizes(layout: FormatAndBits)
    requires
        layout.valid(),
    ensures
        1 <= values_per_iteration(layout) <= 64,
        1 <= bytes_per_iteration(layout) <= 32,
        layout.format == Format::Packed ==> values_per_iteration(layout)
            * layout.bits_per_value == bytes_per_iteration(layout) * 8,
        layout.format == Format::Packed ==> (BLOCK_SIZE as nat) % values_per_iteration(layout) == 0,
{
    let bits = layout.bits_per_value as nat;
    match layout.format {
        Format::Packed => {
            let per = values_per_iteration(layout);
            let bytes = bytes_per_iteration(layout);
            if bits % 8 == 0 {
                assert(per == 1 && per * bits == bits);
                assert(bytes == bits / 8);
                assert(128nat % 1 == 0);
            } else if bits % 4 == 0 {
                assert(per == 2 && per * bits == 2 * bits);
                assert(bytes == (2 * bits) / 8);
                assert(128nat % 2 == 0);
            } else if bits % 2 == 0 {
                assert(per == 4 && per * bits == 4 * bits);
                assert(bytes == (4 * bits) / 8);
                assert(128nat % 4 == 0);
            } else {
                assert(per == 8 && per * bits == 8 * bits);
                assert(bytes == (8 * bits) / 8);
                assert(128nat % 8 == 0);
            }
        },
        Format::PackedSingleBlock => {
            lemma_per_word(bits);
        },
    }
}

/// One iteration of a packed layout takes the least count of values whose bits
/// fill whole bytes.
pub proof fn lemma_packed_iteration_is_least(layout: FormatAndBits)
    requires
        layout.format == Format::Packed,
        1 <= layout.bits_per_value <= 64,
    ensures
        (values_per_iteration(layout) * (layout.bits_per_value as nat)) % 8 == 0,
        forall|k: nat|
            1 <= k < values_per_iteration(layout) ==> (#[trigger] (k * (
            layout.bits_per_value as nat))) % 8 != 0,
{
    let bits = layout.bits_per_value as nat;
    let per = values_per_iteration(layout);
    if bits % 8 == 0 {
        assert(per * bits == bits);
    } else if bits % 4 == 0 {
        assert(per * bits == 2 * bits);
    } else if bits % 2 == 0 {
        assert(per * bits == 4 * bits);
    } else {
        assert(per * bits == 8 * bits);
    }
    assert forall|k: nat| 1 <= k < per implies (#[trigger] (k * bits)) % 8 != 0 by {
        if k == 1 {
            assert(k * bits == bits);
        } else if k == 2 {
            assert(k * bits == 2 * bits);
        } else if k == 3 {
            assert(k * bits == 3 * bits);
        } else if k == 4 {
            assert(k * bits == 4 * bits);
        } else if k == 5 {
            assert(k * bits == 5 * bits);
        } else if k == 6 {
            assert(k * bits == 6 * bits);
        } else {
            assert(k * bits == 7 * bits);
        }
    }
}

/// The encoder and decoder of one layout.
#[derive(Clone, Copy, Debug)]
pub struct BulkOperation {
    layout: FormatAndBits,
    byte_value_count: usize,
    byte_block_count: usize,
}

impl BulkOperation {
    /// The layout that this pair encodes and decodes.
    pub closed spec fn layout(&self) -> FormatAndBits {
        self.layout
    }

    /// The layout is valid and the iteration sizes kept with it are its own.
    pub closed spec fn wf(&self) -> bool {
        &&& self.layout.valid()
        &&& self.byte_value_count == values_per_iteration(self.layout)
        &&& self.byte_block_count == bytes_per_iteration(self.layout)
    }

    /// A well-formed pair has a valid layout.
    pub proof fn lemma_layout_is_valid(self)
        requires
            self.wf(),
        ensures
            self.layout().valid(),
    {
    }

    /// The encoder and decoder of `layout`.
    pub fn of(layout: FormatAndBits) -> (r: BulkOperation)
        requires
            layout.valid(),
        ensures
            r.wf(),
            r.layout() == layout,
    {
        let bits: u32 = layout.bits_per_value;
        match layout.format {
            Format::Packed => {
                let per_iteration: usize = if bits % 8 == 0 {
                    1
                } else if bits % 4 == 0 {
                    2
                } else if bits % 2 == 0 {
                    4
                } else {
                    8
                };
                BulkOperation {
                    layout,
                    byte_value_count: per_iteration,
                    byte_block_count: per_iteration * (bits as usize) / 8,
                }
            },
            Format::PackedSingleBlock => BulkOperation {
                layout,
                byte_value_count: (64 / bits) as usize,
                byte_block_count: 8,
            },
        }
    }

    /// The layout that this pair encodes and decodes.
    pub fn format_and_bits(&self) -> (r: FormatAndBits)
        requires
            self.wf(),
        ensures
            r == self.layout(),
            r.valid(),
    {
        self.layout
    }

    /// Values that one iteration takes.
    pub fn byte_value_count(&self) -> (r: usize)
        requires
            self.wf(),
        ensures
            r == values_per_iteration(self.layout()),
    {
        self.byte_value_count
    }

    /// Bytes that one iteration takes.
    pub fn byte_block_count(&self) -> (r: usize)
        requires
            self.wf(),
        ensures
            r == bytes_per_iteration(self.layout()),
    {
        self.byte_block_count
    }

    /// Runs `iterations` iterations of the encoder over `values` and writes what
    /// they make to the front of `blocks`.  The rest of `blocks` stays as it was.
    pub fn encode_int_to_byte(&self, values: &[u32], blocks: &mut [u8], iterations: usize)
        requires
            self.wf(),
            iterations * bytes_per_iteration(self.layout()) <= old(blocks)@.len(),
            iterations * values_per_iteration(self.layout()) <= usize::MAX,
        ensures
            final(blocks)@ == encoding(self.layout(), values@, iterations as nat) + old(
                blocks,
            )@.skip(iterations * bytes_per_iteration(self.layout())),
    {
        proof {
            lemma_iteration_sizes(self.layout);
            assert(blocks.len() == blocks@.len());
        }
        let bits: u32 = self.layout.bits_per_value;
        match self.layout.format {
            Format::Packed => {
                let count: usize = iterations * self.byte_value_count;
                let total: usize = iterations * self.byte_block_count;
                assert(count * bits == total * 8) by (nonlinear_arith)
                    requires
                        count == iterations * self.byte_value_count,
                        total == iterations * self.byte_block_count,
                        self.byte_value_count * bits == self.byte_block_count * 8,
                ;
                encode_packed(bits, values, blocks, count, total);
            },
            Format::PackedSingleBlock => {
                encode_single_block(bits, values, blocks, iterations);
            },
        }
    }

    /// Runs `iterations` iterations of the decoder over the front of `blocks` and
    /// writes what they make to the front of `values`.  The rest of `values` stays
    /// as it was.
    pub fn decode_byte_to_int(&self, blocks: &[u8], values: &mut [u32], iterations: usize)
        requires
            self.wf(),
            iterations * bytes_per_iteration(self.layout()) <= blocks@.len(),
            iterations * values_per_iteration(self.layout()) <= old(values)@.len(),
        ensures
            final(values)@ == decoding(self.layout(), blocks@, iterations as nat) + old(
                values,
            )@.skip(iterations * values_per_iteration(self.layout())),
    {
        proof {
            lemma_iteration_sizes(self.layout);
            assert(blocks.len() == blocks@.len());
            assert(values.len() == values@.len());
        }
        let bits: u32 = self.layout.bits_per_value;
        match self.layout.format {
            Format::Packed => {
                let count: usize = iterations * self.byte_value_count;
                let total: usize = iterations * self.byte_block_count;
                assert(count * bits == total * 8) by (nonlinear_arith)
                    requires
                        count == iterations * self.byte_value_count,
                        total == iterations * self.byte_block_count,
                        self.byte_value_count * bits == self.byte_block_count * 8,
                ;
                decode_packed(bits, blocks, values, count, total);
            },
            Format::PackedSingleBlock => {
                decode_single_block(bits, blocks, values, iterations);
            },
        }
    }
}

/// The decoder for values of `bits_per_value` bits laid out by `format` under
/// protocol version `version`.
pub fn get_decoder(format: Format, version: u32, bits_per_value: u32) -> (r: Result<
    BulkOperation,
    Error,
>)
    ensures
        match r {
            Ok(decoder) => decoder.wf() && resolve(format, version, bits_per_value) == Ok::<
                FormatAndBits,
                Error,
            >(decoder.layout()),
            Err(e) => resolve(format, version, bits_per_value) == Err::<FormatAndBits, Error>(e),
        },
{
    check_version(version)?;
    if format.is_supported(bits_per_value) && bits_per_value <= 32 {
        Ok(BulkOperation::of(FormatAndBits { format, bits_per_value }))
    } else {
        Err(Error::UnsupportedLayout)
    }
}

/// The encoder for values of `bits_per_value` bits laid out by `format` under
/// protocol version `version`.
pub fn get_encoder(format: Format, version: u32, bits_per_value: u32) -> (r: Result<
    BulkOperation,
    Error,
>)
    ensures
        match r {
            Ok(encoder) => encoder.wf() && resolve(format, version, bits_per_value) == Ok::<
                FormatAndBits,
                Error,
            >(encoder.layout()),
            Err(e) => resolve(format, version, bits_per_value) == Err::<FormatAndBits, Error>(e),
        },
{
    get_decoder(format, version, bits_per_value)
}

/// Every digit made of a value is below `2^bits`.
pub proof fn lemma_value_digits_fit(values: Seq<u32>, bits: nat, count: nat)
    ensures
        digits_fit(value_digits(values, bits, count), bits),
{
    assert forall|i: int| 0 <= i < count implies #[trigger] value_digits(values, bits, count)[i]
        < pow2(bits) by {
        lemma_mod_bound_nat(values, bits, i);
    }
}

/// Decoding what the encoder wrote gives every value back, cut down to the
/// layout's width, whatever follows the encoded bytes.
pub proof fn lemma_decoding_inverts_encoding(
    layout: FormatAndBits,
    values: Seq<u32>,
    iterations: nat,
    rest: Seq<u8>,
)
    requires
        layout.valid(),
    ensures
        decoding(layout, encoding(layout, values, iterations) + rest, iterations) == digit_values(
            value_digits(
                values,
                layout.bits_per_value as nat,
                iterations * values_per_iteration(layout),
            ),
        ),
{
    let bits = layout.bits_per_value as nat;
    let per = values_per_iteration(layout);
    let count = iterations * per;
    let digits = value_digits(values, bits, count);
    let bytes = encoding(layout, values, iterations);
    let got = decoding(layout, bytes + rest, iterations);
    lemma_iteration_sizes(layout);
    lemma_value_digits_fit(values, bits, count);
    lemma2_to64();
    match layout.format {
        Format::Packed => {
            let total = iterations * bytes_per_iteration(layout);
            assert(count * bits == total * 8) by (nonlinear_arith)
                requires
                    count == iterations * per,
                    total == iterations * bytes_per_iteration(layout),
                    per * bits == bytes_per_iteration(layout) * 8,
            ;
            assert(count * bits / 8 == total);
            let number = be_value(digits, bits);
            let written = be_digits(number, 8, total);
            lemma_be_value_bound(digits, bits);
            lemma_be_digits_fit(number, 8, total);
            assert(bits * count == 8 * total) by (nonlinear_arith)
                requires
                    count * bits == total * 8,
            ;
            lemma_be_value_of_digits(number, 8, total);
            lemma_be_digits_of_value(digits, bits);
            assert(byte_digits((bytes + rest).take(total as int)) =~= written) by {
                assert forall|k: int| 0 <= k < total implies byte_digits(
                    (bytes + rest).take(total as int),
                )[k] == written[k] by {
                    assert(written[k] < pow2(8));
                }
            }
        },
        Format::PackedSingleBlock => {
            lemma_per_word(bits);
            assert(got.len() == digits.len());
            assert forall|i: int| 0 <= i < count implies got[i] == digit_values(digits)[i] by {
                let w = i / (per as int);
                let j = i % (per as int);
                vstd::arithmetic::div_mod::lemma_fundamental_div_mod(i, per as int);
                vstd::arithmetic::div_mod::lemma_mod_bound(i, per as int);
                assert(0 <= w < iterations) by (nonlinear_arith)
                    requires
                        0 <= i < iterations * per,
                        per > 0,
                        w == i / (per as int),
                        i == per * w + j,
                        0 <= j < per,
                ;
                let chunk = word_digits(values, bits, w);
                let word = le_value(chunk, bits);
                let written = be_digits(word, 8, 8);
                assert(digits_fit(chunk, bits)) by {
                    assert forall|t: int| 0 <= t < chunk.len() implies #[trigger] chunk[t] < pow2(
                        bits,
                    ) by {
                        lemma_mod_bound_nat(values, bits, w * per + t);
                    }
                }
                lemma_le_value_bound(chunk, bits);
                lemma_pow2_monotonic(bits * per, 64);
                lemma_be_digits_fit(word, 8, 8);
                lemma_be_value_of_digits(word, 8, 8);
                lemma_le_digits_of_value(chunk, bits);
                assert(bytes.len() == iterations * 8);
                assert(8 * w + 8 <= bytes.len());
                let part = (bytes + rest).subrange(8 * w, 8 * w + 8);
                assert(byte_digits(part) =~= written) by {
                    assert forall|t: int| 0 <= t < 8 implies byte_digits(part)[t] == written[t] by {
                        assert(written[t] < pow2(8));
                        assert((8 * w + t) / 8 == w && (8 * w + t) % 8 == t);
                        assert(part[t] == bytes[8 * w + t]);
                    }
                }
                assert(word_at(bytes + rest, w) == word);
                assert(chunk[j] == value_digit(values, bits, w * per + j));
                assert(w * per + j == i) by (nonlinear_arith)
                    requires
                        i == per * w + j,
                ;
            }
            assert(got =~= digit_values(digits));
        },
    }
}

/// Iterations make as many bytes and as many values as their sizes say.
pub proof fn lemma_coding_lengths(
    layout: FormatAndBits,
    values: Seq<u32>,
    bytes: Seq<u8>,
    iterations: nat,
)
    requires
        layout.valid(),
    ensures
        encoding(layout, values, iterations).len() == iterations * bytes_per_iteration(layout),
        decoding(layout, bytes, iterations).len() == iterations * values_per_iteration(layout),
{
    let bits = layout.bits_per_value as nat;
    let per = values_per_iteration(layout);
    lemma_iteration_sizes(layout);
    match layout.format {
        Format::Packed => {
            let count = iterations * per;
            let total = iterations * bytes_per_iteration(layout);
            assert(count * bits == total * 8) by (nonlinear_arith)
                requires
                    count == iterations * per,
                    total == iterations * bytes_per_iteration(layout),
                    per * bits == bytes_per_iteration(layout) * 8,
            ;
            assert(count * bits / 8 == total);
            lemma_be_digits_fit(be_value(value_digits(values, bits, count), bits), 8, total);
            lemma_be_digits_fit(
                be_value(byte_digits(bytes.take(total as int)), 8),
                bits,
                count,
            );
        },
        Format::PackedSingleBlock => {},
    }
}

/// Decoding reads no further than the bytes of its iterations: inputs that agree on
/// those give the same values.
pub proof fn lemma_decoding_reads_prefix(
    layout: FormatAndBits,
    bytes: Seq<u8>,
    other: Seq<u8>,
    iterations: nat,
)
    requires
        layout.valid(),
        iterations * bytes_per_iteration(layout) <= bytes.len(),
        iterations * bytes_per_iteration(layout) <= other.len(),
        bytes.take((iterations * bytes_per_iteration(layout)) as int) == other.take(
            (iterations * bytes_per_iteration(layout)) as int,
        ),
    ensures
        decoding(layout, bytes, iterations) == decoding(layout, other, iterations),
{
    let bits = layout.bits_per_value as nat;
    let per = values_per_iteration(layout);
    let total = iterations * bytes_per_iteration(layout);
    lemma_iteration_sizes(layout);
    match layout.format {
        Format::Packed => {
            let count = iterations * per;
            assert(count * bits == total * 8) by (nonlinear_arith)
                requires
                    count == iterations * per,
                    total == iterations * bytes_per_iteration(layout),
                    per * bits == bytes_per_iteration(layout) * 8,
            ;
            assert(count * bits / 8 == total);
        },
        Format::PackedSingleBlock => {
            lemma_per_word(bits);
            let a = decoding(layout, bytes, iterations);
            let b = decoding(layout, other, iterations);
            assert forall|i: int| 0 <= i < a.len() implies a[i] == b[i] by {
                let w = i / (per as int);
                vstd::arithmetic::div_mod::lemma_fundamental_div_mod(i, per as int);
                vstd::arithmetic::div_mod::lemma_mod_bound(i, per as int);
                assert(0 <= w < iterations) by (nonlinear_arith)
                    requires
                        0 <= i < iterations * per,
                        per > 0,
                        i == per * w + i % (per as int),
                        0 <= i % (per as int) < per,
                ;
                assert(total == iterations * 8);
                let part = bytes.subrange(8 * w, 8 * w + 8);
                let other_part = other.subrange(8 * w, 8 * w + 8);
                assert(part =~= other_part) by {
                    assert forall|t: int| 0 <= t < 8 implies #[trigger] part[t] == other_part[t] by {
                        assert(bytes.take(total as int)[8 * w + t] == other.take(total as int)[8
                            * w + t]);
                    }
                }
            }
            assert(a =~= b);
        },
    }
}

/// A value reduced to `bits` bits is below `2^bits`.
proof fn lemma_mod_bound_nat(values: Seq<u32>, bits: nat, i: int)
    ensures
        value_digit(values, bits, i) < pow2(bits),
{
    lemma_pow2_pos(bits);
    if 0 <= i < values.len() {
        vstd::arithmetic::div_mod::lemma_mod_bound(values[i] as int, pow2(bits) as int);
    }
}

} // verus!
