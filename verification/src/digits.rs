//! Digit sets held as bitmasks: bit d stands for digit d (1..=9).
use vstd::prelude::*;
use vstd::std_specs::bits::{u16_trailing_zeros, axiom_u16_trailing_zeros};

verus! {

/// All nine digits: bits 1..=9.
pub const ALL_DIGITS: u16 = 0x3FE;

/// Digit `d` belongs to the set `m`.
pub open spec fn has_digit(m: u16, d: u8) -> bool {
    d < 16 && (m >> d) & 1u16 == 1u16
}

/// `m` holds only digits 1..=9.
pub open spec fn only_digits(m: u16) -> bool {
    m & 0xFC01u16 == 0
}

/// 1 when bit `d` of `m` is set, else 0.
pub open spec fn bit(m: u16, d: int) -> int {
    if 0 <= d < 16 && (m >> (d as u16)) & 1u16 == 1u16 {
        1
    } else {
        0
    }
}

/// Number of set bits of `m` below position `k`.
pub open spec fn bits_below(m: u16, k: int) -> int
    decreases k,
{
    if k <= 0 {
        0
    } else {
        bits_below(m, k - 1) + bit(m, k - 1)
    }
}

/// Sum of the positions of the set bits of `m` below `k`: for a digit set,
/// the sum of its digits.
pub open spec fn weight_below(m: u16, k: int) -> int
    decreases k,
{
    if k <= 0 {
        0
    } else {
        weight_below(m, k - 1) + (k - 1) * bit(m, k - 1)
    }
}

/// Number of digits in `m`.
pub open spec fn popcount(m: u16) -> int {
    bits_below(m, 16)
}

/// Sum of the digits in `m`.
pub open spec fn digit_sum(m: u16) -> int {
    weight_below(m, 16)
}

pub proof fn lemma_bit_test(m: u16, d: u8)
    requires
        d < 16,
    ensures
        (m & (1u16 << d) == 0) <==> !((m >> d) & 1u16 == 1u16),
{
    assert(d < 16 ==> ((m & (1u16 << d) == 0) <==> !((m >> d) & 1u16 == 1u16))) by (bit_vector);
}

pub proof fn lemma_clear_digit(m: u16, d: u8, e: u8)
    requires
        d < 16,
        e < 16,
    ensures
        ((m & !(1u16 << d)) >> e) & 1u16 == 1u16 <==> ((m >> e) & 1u16 == 1u16 && e != d),
{
    assert(d < 16 && e < 16 ==> (((m & !(1u16 << d)) >> e) & 1u16 == 1u16 <==> ((m >> e) & 1u16
        == 1u16 && e != d))) by (bit_vector);
}

pub proof fn lemma_clear_digit_decreases(m: u16, d: u8)
    requires
        d < 16,
        (m >> d) & 1u16 == 1u16,
    ensures
        (m & !(1u16 << d)) < m,
        m != 0,
{
    assert(d < 16 && (m >> d) & 1u16 == 1u16 ==> (m & !(1u16 << d)) < m && m != 0) by (bit_vector);
}

/// A one-digit set holds exactly its lowest digit.
pub proof fn lemma_single_digit(m: u16, t: u8, e: u8)
    requires
        m != 0,
        m & ((m - 1) as u16) == 0,
        t < 16,
        e < 16,
        (m >> t) & 1u16 == 1u16,
    ensures
        (m >> e) & 1u16 == 1u16 <==> e == t,
{
    assert(m != 0 && m & ((m - 1) as u16) == 0 && t < 16 && e < 16 && (m >> t) & 1u16 == 1u16 ==> ((m
        >> e) & 1u16 == 1u16 <==> e == t)) by (bit_vector);
}

/// The lowest digit of a non-empty set belongs to it.
pub proof fn lemma_lowest_digit(m: u16)
    requires
        m != 0,
    ensures
        u16_trailing_zeros(m) < 16,
        has_digit(m, u16_trailing_zeros(m) as u8),
{
    axiom_u16_trailing_zeros(m);
    let t = u16_trailing_zeros(m);
    assert(t < 16 ==> (m >> (t as u16)) == (m >> (t as u8))) by (bit_vector);
}

pub proof fn lemma_only_digits(m: u16, e: u8)
    requires
        only_digits(m),
        e < 16,
        (m >> e) & 1u16 == 1u16,
    ensures
        1 <= e <= 9,
{
    assert(m & 0xFC01u16 == 0 && e < 16 && (m >> e) & 1u16 == 1u16 ==> 1 <= e <= 9) by (bit_vector);
}

pub proof fn lemma_only_digits_and(m: u16, x: u16)
    requires
        only_digits(m),
    ensures
        only_digits(m & x),
        only_digits(x & m),
{
    assert(m & 0xFC01u16 == 0 ==> (m & x) & 0xFC01u16 == 0 && (x & m) & 0xFC01u16 == 0) by (bit_vector);
}

pub proof fn lemma_all_digits(e: u8)
    requires
        e < 16,
    ensures
        (ALL_DIGITS >> e) & 1u16 == 1u16 <==> 1 <= e <= 9,
        only_digits(ALL_DIGITS),
        only_digits(0),
        (0u16 >> e) & 1u16 != 1u16,
{
    assert(e < 16 ==> ((0x3FEu16 >> e) & 1u16 == 1u16 <==> 1 <= e <= 9) && 0x3FEu16 & 0xFC01u16 == 0
        && 0u16 & 0xFC01u16 == 0 && (0u16 >> e) & 1u16 != 1u16) by (bit_vector);
}

pub proof fn lemma_bits_below_bounds(m: u16, k: int)
    requires
        0 <= k <= 16,
    ensures
        0 <= bits_below(m, k) <= k,
        0 <= weight_below(m, k),
    decreases k,
{
    if k > 0 {
        lemma_bits_below_bounds(m, k - 1);
    }
}

pub proof fn lemma_popcount_bound(m: u16)
    ensures
        0 <= popcount(m) <= 16,
{
    lemma_bits_below_bounds(m, 16);
}

/// A set of digits 1..=9 holds at most nine of them.
pub proof fn lemma_popcount_only_digits(m: u16)
    requires
        only_digits(m),
    ensures
        popcount(m) <= 9,
{
    assert forall|d: u16| d < 16 && (d == 0 || d >= 10) implies (m >> d) & 1u16 != 1u16 by {
        lemma_only_digits_outside(m, d);
    }
    lemma_only_digit_bits(m, 16);
}

proof fn lemma_only_digit_bits(m: u16, k: int)
    requires
        0 <= k <= 16,
        forall|d: u16| d < 16 && (d == 0 || d >= 10) ==> (m >> d) & 1u16 != 1u16,
    ensures
        bits_below(m, k) <= if k <= 1 { 0 } else if k <= 10 { k - 1 } else { 9 },
    decreases k,
{
    if k > 0 {
        lemma_only_digit_bits(m, k - 1);
        if k - 1 == 0 || k - 1 >= 10 {
            assert((m >> ((k - 1) as u16)) & 1u16 != 1u16);
        }
    }
}

/// Number of digits in a set.
pub fn count_digits(m: u16) -> (n: u32)
    ensures
        n == popcount(m),
        n <= 16,
{
    let mut n: u32 = 0;
    let mut d: u16 = 0;
    while d < 16
        invariant
            d <= 16,
            n == bits_below(m, d as int),
            n <= d,
        decreases 16 - d,
    {
        if (m >> d) & 1 == 1 {
            n += 1;
        }
        d += 1;
    }
    n
}

/// A digit set has no bit outside 1..=9.
pub proof fn lemma_only_digits_outside(m: u16, d: u16)
    ensures
        only_digits(m) && d < 16 && (d == 0 || d >= 10) ==> (m >> d) & 1u16 != 1u16,
{
    assert(m & 0xFC01u16 == 0 && d < 16 && (d == 0 || d >= 10) ==> (m >> d) & 1u16 != 1u16) by (bit_vector);
}

/// Shifting by a `u8` amount is shifting by the same `u16` amount.
pub proof fn lemma_shift_cast(m: u16, d: u8)
    requires
        d < 16,
    ensures
        (m >> (d as u16)) == (m >> d),
        (1u16 << (d as u16)) == (1u16 << d),
{
    assert(d < 16 ==> (m >> (d as u16)) == (m >> d) && (1u16 << (d as u16)) == (1u16 << d)) by (bit_vector);
}

/// Shifting by a `usize` amount is shifting by the same `u16` amount.
pub proof fn lemma_shift_usize(x: usize)
    requires
        x < 16,
    ensures
        (1u16 << x) == (1u16 << (x as u16)),
{
    assert(x < 16 ==> (1u16 << x) == (1u16 << (x as u16))) by (bit_vector);
}

} // verus!
