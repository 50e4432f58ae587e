//! Natural numbers written as strings of fixed-width digits.
//!
//! A packed run of integers is one number read in two bases: in base `2^bits`
//! its digits are the integers, in base `2^8` they are the bytes.  The functions
//! here define both readings and prove that they are inverse to each other.

use vstd::prelude::*;
use vstd::arithmetic::div_mod::*;
use vstd::arithmetic::mul::*;
use vstd::arithmetic::power2::*;
use vstd::bits::*;

verus! {

/// Every digit of `digits` is below `2^width`.
pub open spec fn digits_fit(digits: Seq<nat>, width: nat) -> bool {
    forall|i: int| 0 <= i < digits.len() ==> #[trigger] digits[i] < pow2(width)
}

/// The number whose digits in base `2^width` are `digits`, most significant first.
pub open spec fn be_value(digits: Seq<nat>, width: nat) -> nat
    decreases digits.len(),
{
    if digits.len() == 0 {
        0
    } else {
        be_value(digits.drop_last(), width) * pow2(width) + digits.last()
    }
}

/// The `len` lowest digits of `n` in base `2^width`, most significant first.
pub open spec fn be_digits(n: nat, width: nat, len: nat) -> Seq<nat>
    decreases len,
{
    if len == 0 {
        Seq::empty()
    } else {
        be_digits(n / pow2(width), width, (len - 1) as nat).push(n % pow2(width))
    }
}

/// The number whose digits in base `2^width` are `digits`, least significant first.
pub open spec fn le_value(digits: Seq<nat>, width: nat) -> nat
    decreases digits.len(),
{
    if digits.len() == 0 {
        0
    } else {
        digits.first() + pow2(width) * le_value(digits.drop_first(), width)
    }
}

/// The `len` lowest digits of `n` in base `2^width`, least significant first.
pub open spec fn le_digits(n: nat, width: nat, len: nat) -> Seq<nat>
    decreases len,
{
    if len == 0 {
        Seq::empty()
    } else {
        seq![n % pow2(width)] + le_digits(n / pow2(width), width, (len - 1) as nat)
    }
}

/// `be_digits` yields `len` digits, each below the base.
pub proof fn lemma_be_digits_fit(n: nat, width: nat, len: nat)
    ensures
        be_digits(n, width, len).len() == len,
        digits_fit(be_digits(n, width, len), width),
    decreases len,
{
    lemma_pow2_pos(width);
    if len > 0 {
        lemma_be_digits_fit(n / pow2(width), width, (len - 1) as nat);
        lemma_mod_bound(n as int, pow2(width) as int);
    }
}

/// `le_digits` yields `len` digits, each below the base.
pub proof fn lemma_le_digits_fit(n: nat, width: nat, len: nat)
    ensures
        le_digits(n, width, len).len() == len,
        digits_fit(le_digits(n, width, len), width),
    decreases len,
{
    lemma_pow2_pos(width);
    if len > 0 {
        lemma_le_digits_fit(n / pow2(width), width, (len - 1) as nat);
        lemma_mod_bound(n as int, pow2(width) as int);
    }
}

/// A string of `len` digits below the base denotes a number below `2^(width * len)`.
pub proof fn lemma_be_value_bound(digits: Seq<nat>, width: nat)
    requires
        digits_fit(digits, width),
    ensures
        be_value(digits, width) < pow2(width * digits.len()),
    decreases digits.len(),
{
    if digits.len() == 0 {
        lemma_pow2_pos(0);
        assert(width * 0 == 0);
    } else {
        let init = digits.drop_last();
        let len = digits.len();
        lemma_be_value_bound(init, width);
        let p = pow2(width);
        let q = pow2(width * init.len());
        let hi = be_value(init, width);
        let lo = digits.last();
        assert(width * len == width * init.len() + width) by (nonlinear_arith)
            requires
                len == init.len() + 1,
        ;
        lemma_pow2_adds(width * init.len(), width);
        assert(hi * p + lo < q * p) by (nonlinear_arith)
            requires
                hi < q,
                lo < p,
        ;
    }
}

/// A string of `len` digits below the base denotes a number below `2^(width * len)`.
pub proof fn lemma_le_value_bound(digits: Seq<nat>, width: nat)
    requires
        digits_fit(digits, width),
    ensures
        le_value(digits, width) < pow2(width * digits.len()),
    decreases digits.len(),
{
    if digits.len() == 0 {
        lemma_pow2_pos(0);
        assert(width * 0 == 0);
    } else {
        let rest = digits.drop_first();
        let len = digits.len();
        assert forall|i: int| 0 <= i < rest.len() implies #[trigger] rest[i] < pow2(width) by {
            assert(rest[i] == digits[i + 1]);
        }
        lemma_le_value_bound(rest, width);
        let p = pow2(width);
        let q = pow2(width * rest.len());
        let hi = le_value(rest, width);
        let lo = digits.first();
        assert(width * len == width + width * rest.len()) by (nonlinear_arith)
            requires
                len == rest.len() + 1,
        ;
        lemma_pow2_adds(width, width * rest.len());
        assert(lo + p * hi < p * q) by (nonlinear_arith)
            requires
                hi < q,
                lo < p,
        ;
    }
}

/// Writing out the digits of the number that a digit string denotes gives the string back.
pub proof fn lemma_be_digits_of_value(digits: Seq<nat>, width: nat)
    requires
        digits_fit(digits, width),
    ensures
        be_digits(be_value(digits, width), width, digits.len()) == digits,
    decreases digits.len(),
{
    lemma_pow2_pos(width);
    if digits.len() > 0 {
        let init = digits.drop_last();
        lemma_be_digits_of_value(init, width);
        lemma_fundamental_div_mod_converse(
            be_value(digits, width) as int,
            pow2(width) as int,
            be_value(init, width) as int,
            digits.last() as int,
        );
        assert(init.push(digits.last()) =~= digits);
    } else {
        assert(digits =~= Seq::<nat>::empty());
    }
}

/// Writing out the digits of the number that a digit string denotes gives the string back.
pub proof fn lemma_le_digits_of_value(digits: Seq<nat>, width: nat)
    requires
        digits_fit(digits, width),
    ensures
        le_digits(le_value(digits, width), width, digits.len()) == digits,
    decreases digits.len(),
{
    lemma_pow2_pos(width);
    if digits.len() > 0 {
        let rest = digits.drop_first();
        assert forall|i: int| 0 <= i < rest.len() implies #[trigger] rest[i] < pow2(width) by {
            assert(rest[i] == digits[i + 1]);
        }
        lemma_le_digits_of_value(rest, width);
        lemma_mul_is_commutative(pow2(width) as int, le_value(rest, width) as int);
        lemma_fundamental_div_mod_converse(
            le_value(digits, width) as int,
            pow2(width) as int,
            le_value(rest, width) as int,
            digits.first() as int,
        );
        assert(seq![digits.first()] + rest =~= digits);
    } else {
        assert(digits =~= Seq::<nat>::empty());
    }
}

/// The `len` lowest digits of a number below `2^(width * len)` denote that number.
pub proof fn lemma_be_value_of_digits(n: nat, width: nat, len: nat)
    requires
        n < pow2(width * len),
    ensures
        be_value(be_digits(n, width, len), width) == n,
    decreases len,
{
    lemma_pow2_pos(width);
    if len == 0 {
        assert(width * 0 == 0);
        assert(pow2(0) == 1) by {
            lemma2_to64();
        }
    } else {
        let p = pow2(width);
        let q = pow2(width * ((len - 1) as nat));
        assert(width * len == width * ((len - 1) as nat) + width) by (nonlinear_arith)
            requires
                len >= 1,
        ;
        lemma_pow2_adds(width * ((len - 1) as nat), width);
        assert(n / p < q) by (nonlinear_arith)
            requires
                n < q * p,
                p > 0,
        ;
        lemma_be_value_of_digits(n / p, width, (len - 1) as nat);
        let digits = be_digits(n, width, len);
        assert(digits.drop_last() =~= be_digits(n / p, width, (len - 1) as nat));
        lemma_fundamental_div_mod(n as int, p as int);
        lemma_mul_is_commutative(p as int, (n / p) as int);
    }
}

/// A number below `2^(hi + lo)` splits into a high part below `2^hi` and a low part
/// below `2^lo`.
pub proof fn lemma_split(x: nat, hi: nat, lo: nat)
    requires
        x < pow2(hi + lo),
    ensures
        x / pow2(lo) < pow2(hi),
        x % pow2(lo) < pow2(lo),
        x == (x / pow2(lo)) * pow2(lo) + x % pow2(lo),
{
    let p = pow2(lo);
    let q = pow2(hi);
    lemma_pow2_pos(lo);
    lemma_pow2_adds(hi, lo);
    lemma_fundamental_div_mod(x as int, p as int);
    lemma_mod_bound(x as int, p as int);
    lemma_mul_is_commutative(p as int, (x / p) as int);
    assert(x / p < q) by (nonlinear_arith)
        requires
            x < q * p,
            p > 0,
    ;
}

/// A high part below `2^hi` and a low part below `2^lo` join into a number below
/// `2^(hi + lo)`.
pub proof fn lemma_join(x: nat, y: nat, hi: nat, lo: nat)
    requires
        x < pow2(hi),
        y < pow2(lo),
    ensures
        x * pow2(lo) + y < pow2(hi + lo),
{
    let p = pow2(lo);
    let q = pow2(hi);
    lemma_pow2_adds(hi, lo);
    assert(x * p + y < q * p) by (nonlinear_arith)
        requires
            x < q,
            y < p,
    ;
}

/// Powers of two grow with the exponent.
pub proof fn lemma_pow2_monotonic(a: nat, b: nat)
    requires
        a <= b,
    ensures
        pow2(a) <= pow2(b),
{
    if a < b {
        lemma_pow2_strictly_increases(a, b);
    }
}

/// The value of a prefix one digit longer.
pub proof fn lemma_be_value_step(digits: Seq<nat>, width: nat, i: int)
    requires
        0 <= i < digits.len(),
    ensures
        be_value(digits.take(i + 1), width) == be_value(digits.take(i), width) * pow2(width)
            + digits[i],
{
    assert(digits.take(i + 1).drop_last() =~= digits.take(i));
}

/// `2^n` as a machine word.
pub fn pow2_u64(n: u32) -> (r: u64)
    requires
        n < 64,
    ensures
        r == pow2(n as nat),
{
    proof {
        lemma_u64_pow2_no_overflow(n as nat);
        lemma_u64_shl_is_mul(1, n as u64);
    }
    1u64 << n
}

/// The `n` lowest bits of `x`.
pub fn low_bits(x: u64, n: u32) -> (r: u64)
    requires
        n < 64,
    ensures
        r == x as nat % pow2(n as nat),
{
    let p: u64 = pow2_u64(n);
    proof {
        lemma_pow2_pos(n as nat);
        lemma_u64_low_bits_mask_is_mod(x, n as nat);
    }
    x & (p - 1)
}

/// What is left of `x` without its `n` lowest bits.
pub fn high_bits(x: u64, n: u32) -> (r: u64)
    requires
        n < 64,
    ensures
        r == x as nat / pow2(n as nat),
{
    proof {
        lemma_u64_shr_is_div(x, n as u64);
    }
    x >> n
}

/// `x` moved up by `n` bits, with `y` put below it.
pub fn shift_in(x: u64, n: u32, y: u64) -> (r: u64)
    requires
        n < 64,
        x * pow2(n as nat) + y <= u64::MAX,
    ensures
        r == x * pow2(n as nat) + y,
{
    proof {
        lemma_pow2_pos(n as nat);
        assert(x * pow2(n as nat) <= u64::MAX) by (nonlinear_arith)
            requires
                x * pow2(n as nat) + y <= u64::MAX,
                y >= 0,
        ;
        lemma_u64_shl_is_mul(x, n as u64);
    }
    (x << n) + y
}

} // verus!
