//! Killer sudoku: the digit combinations of a cage, sums of the smallest and
//! largest digits of a set, what a solution of a killer puzzle is, and the
//! digit-set facts the killer solver and the rater build on.
use vstd::prelude::*;
use vstd::std_specs::bits::{
    u16_leading_zeros, u16_trailing_zeros, axiom_u16_leading_zeros, axiom_u16_trailing_zeros,
};
use crate::digits::{
    bit, bits_below, count_digits, digit_sum, has_digit, lemma_bits_below_bounds,
    only_digits, popcount, weight_below,
};
use crate::grid::{Cage, cages_disjoint, cell_in_board, cells_sum, digit_at, in_some_cage};
use crate::rules::{in_board, is_solution_of};

verus! {

/// `m` is a digit combination for a cage of `size` cells summing to `sum`:
/// a non-empty set of digits 1..=9 with `size` members whose sum is `sum`.
pub open spec fn is_combo(m: u16, size: int, sum: int) -> bool {
    &&& m != 0
    &&& only_digits(m)
    &&& popcount(m) == size
    &&& digit_sum(m) == sum
}

proof fn lemma_weight_digits(m: u16, k: int)
    requires
        10 <= k <= 16,
        only_digits(m),
    ensures
        weight_below(m, k) == weight_below(m, 10),
        bits_below(m, k) == bits_below(m, 10),
    decreases k,
{
    if k > 10 {
        let d = (k - 1) as u16;
        crate::digits::lemma_only_digits_outside(m, d);
        lemma_weight_digits(m, k - 1);
    }
}

/// Every digit combination for a cage of `size` cells and sum `sum`, as
/// digit bitmasks in increasing order; `None` when there is none.
pub fn cage_combos(size: usize, sum: u8) -> (res: Option<Vec<u16>>)
    ensures
        res is None <==> forall|m: u16| !is_combo(m, size as int, sum as int),
        res matches Some(v) ==> {
            &&& forall|i: int| 0 <= i < v@.len() ==> is_combo(#[trigger] v@[i], size as int, sum as int)
            &&& forall|i: int, j: int| 0 <= i < j < v@.len() ==> v@[i] < v@[j]
            &&& forall|m: u16| is_combo(m, size as int, sum as int) ==> #[trigger] v@.contains(m)
        },
{
    let mut list: Vec<u16> = Vec::new();
    // Enumerate all non-empty subsets of digits 1-9 (bitmask 0x002..0x3FE)
    let mut mask: u16 = 1;
    proof {
        assert forall|m: u16| is_combo(m, size as int, sum as int) implies m >= 2 by {
            lemma_digit_mask_range(m);
        }
    }
    while mask < 512
        invariant
            1 <= mask <= 512,
            forall|i: int| 0 <= i < list@.len() ==> is_combo(#[trigger] list@[i], size as int, sum as int)
                && list@[i] < 2 * mask,
            forall|i: int, j: int| 0 <= i < j < list@.len() ==> list@[i] < list@[j],
            forall|m: u16| is_combo(m, size as int, sum as int) && m < 2 * mask ==> #[trigger] list@.contains(m),
        decreases 512 - mask,
    {
        let bitmask = mask << 1; // shift so bit i represents digit i
        assert(1 <= mask < 512 ==> mask << 1 == 2 * mask && (mask << 1) & 0xFC01u16 == 0) by (bit_vector);
        let n = count_digits(bitmask);
        let mut s: u8 = 0;
        let mut d: u8 = 1;
        proof {
            crate::digits::lemma_only_digits_outside(bitmask, 0);
            assert(weight_below(bitmask, 0) == 0);
            assert(weight_below(bitmask, 1) == 0);
        }
        while d <= 9
            invariant
                1 <= d <= 10,
                s == weight_below(bitmask, d as int),
                s <= 9 * d,
                bit(bitmask, 0) == 0,
            decreases 10 - d,
        {
            proof {
                crate::digits::lemma_bit_test(bitmask, d);
                crate::digits::lemma_shift_cast(bitmask, d);
            }
            if bitmask & (1u16 << d) != 0 {
                s += d;
            }
            d += 1;
        }
        proof {
            lemma_weight_digits(bitmask, 16);
        }
        let ghost before = list@;
        if n as usize == size && s == sum {
            list.push(bitmask);
        }
        proof {
            assert forall|m: u16| is_combo(m, size as int, sum as int) && m < 2 * (mask + 1) implies #[trigger] list@.contains(m) by {
                lemma_digit_mask_range(m);
                if m < 2 * mask {
                    assert(before.contains(m));
                    let j = choose|j: int| 0 <= j < before.len() && before[j] == m;
                    assert(list@[j] == m);
                } else {
                    assert(m == bitmask);
                    assert(list@[before.len() as int] == m);
                }
            }
        }
        mask += 1;
    }
    proof {
        assert forall|m: u16| is_combo(m, size as int, sum as int) implies m < 1024 by {
            lemma_digit_mask_range(m);
        }
    }
    if list.len() == 0 {
        proof {
            assert forall|m: u16| !is_combo(m, size as int, sum as int) by {
                if is_combo(m, size as int, sum as int) {
                    assert(list@.contains(m));
                }
            }
        }
        None
    } else {
        proof {
            assert(is_combo(list@[0], size as int, sum as int));
        }
        Some(list)
    }
}

/// Sum of the `n` smallest members of the digit set `m` (all of them when it has fewer).
pub open spec fn smallest_sum(m: u16, n: int) -> int
    decreases m,
{
    if n <= 0 || m == 0 {
        0
    } else {
        let t = u16_trailing_zeros(m);
        if t < 16 && m & !(1u16 << (t as u16)) < m {
            t + smallest_sum(m & !(1u16 << (t as u16)), n - 1)
        } else {
            0
        }
    }
}

/// Sum of the `n` largest members of the digit set `m` (all of them when it has fewer).
pub open spec fn largest_sum(m: u16, n: int) -> int
    decreases m,
{
    if n <= 0 || m == 0 {
        0
    } else {
        let h = 15 - u16_leading_zeros(m);
        if 0 <= h < 16 && m & !(1u16 << (h as u16)) < m {
            h + largest_sum(m & !(1u16 << (h as u16)), n - 1)
        } else {
            0
        }
    }
}

/// Sum of the smallest `n` digits from the bitmask.
pub fn smallest_n_sum(available: u16, n: u32) -> (sum: u8)
    ensures
        sum == smallest_sum(available, n as int),
{
    let ghost orig = available;
    let mut available = available;
    proof {
        lemma_weight_bound(available, 16);
    }
    let mut sum: u8 = 0;
    let mut picked: u32 = 0;
    while available != 0 && picked < n
        invariant
            picked <= n,
            sum + smallest_sum(available, n - picked) == smallest_sum(orig, n as int),
            sum + bits_sum_bound(available) <= 240,
            bits_sum_bound(available) >= 0,
        decreases available,
    {
        let t = available.trailing_zeros();
        proof {
            axiom_u16_trailing_zeros(available);
            lemma_remove_bit(available, t as u16);
        }
        let bit = 1u16 << t;
        sum += t as u8;
        available &= !bit;
        picked += 1;
    }
    sum
}

/// Sum of the largest `n` digits from the bitmask.
pub fn largest_n_sum(available: u16, n: u32) -> (sum: u8)
    ensures
        sum == largest_sum(available, n as int),
{
    let mut sum: u8 = 0;
    let mut picked: u32 = 0;
    let mut remaining = available;
    proof {
        lemma_weight_bound(available, 16);
    }
    while remaining != 0 && picked < n
        invariant
            picked <= n,
            sum + largest_sum(remaining, n - picked) == largest_sum(available, n as int),
            sum + bits_sum_bound(remaining) <= 240,
            bits_sum_bound(remaining) >= 0,
        decreases remaining,
    {
        let lz = remaining.leading_zeros();
        proof {
            axiom_u16_leading_zeros(remaining);
        }
        let h = 15 - lz;
        proof {
            assert((remaining >> ((15 - lz) as u16)) & 1u16 != 0u16);
            lemma_remove_bit(remaining, h as u16);
        }
        let highest_bit = 1u16 << h;
        let t = highest_bit.trailing_zeros();
        proof {
            lemma_trailing_of_single(h as u16);
        }
        sum += t as u8;
        remaining &= !highest_bit;
        picked += 1;
    }
    sum
}

/// Sum of all bit positions set in `m`: an upper bound for any sum of its members.
spec fn bits_sum_bound(m: u16) -> int {
    weight_below(m, 16)
}

proof fn lemma_weight_bound(m: u16, k: int)
    requires
        0 <= k <= 16,
    ensures
        0 <= weight_below(m, k) <= 15 * k,
    decreases k,
{
    if k > 0 {
        lemma_weight_bound(m, k - 1);
    }
}

proof fn lemma_remove_bit(m: u16, t: u16)
    requires
        t < 16,
        (m >> t) & 1u16 != 0,
    ensures
        m & !(1u16 << t) < m,
        bits_sum_bound(m & !(1u16 << t)) + t == bits_sum_bound(m),
        bits_sum_bound(m & !(1u16 << t)) >= 0,
{
    assert(t < 16 && (m >> t) & 1u16 != 0 ==> m & !(1u16 << t) < m) by (bit_vector);
    lemma_clear_weight(m, t, 16);
    lemma_bits_below_bounds(m & !(1u16 << t), 16);
}

pub proof fn lemma_clear_weight(m: u16, t: u16, k: int)
    requires
        t < 16,
        0 <= k <= 16,
        (m >> t) & 1u16 != 0,
    ensures
        weight_below(m & !(1u16 << t), k) + (if t < k { t as int } else { 0 }) == weight_below(m, k),
        bits_below(m & !(1u16 << t), k) + (if t < k { 1int } else { 0 }) == bits_below(m, k),
    decreases k,
{
    if k > 0 {
        lemma_clear_weight(m, t, k - 1);
        let e = (k - 1) as u16;
        lemma_clear_bit(m, t, e);
        lemma_bit_one(m, t);
    }
}

proof fn lemma_trailing_of_single(h: u16)
    requires
        h < 16,
    ensures
        u16_trailing_zeros(1u16 << h) == h,
{
    axiom_u16_trailing_zeros(1u16 << h);
    let t = u16_trailing_zeros(1u16 << h);
    assert(h < 16 ==> (1u16 << h) != 0 && ((1u16 << h) >> h) & 1u16 == 1u16) by (bit_vector);
    if t < h {
        assert(h < 16 && (t as u16) < h ==> ((1u16 << h) >> (t as u16)) & 1u16 == 0) by (bit_vector);
    } else if t > h {
        assert(forall|j: u16| 0 <= j < t ==> #[trigger] ((1u16 << h) >> j) & 1u16 == 0u16);
        assert(((1u16 << h) >> h) & 1u16 == 0u16);
    }
}

/// `list` holds exactly the digit combinations for `size` cells summing to `sum`.
pub open spec fn lists_combos(list: Seq<u16>, size: int, sum: int) -> bool {
    &&& forall|i: int| 0 <= i < list.len() ==> is_combo(#[trigger] list[i], size, sum)
    &&& forall|m: u16| is_combo(m, size, sum) ==> #[trigger] list.contains(m)
}

/// A cage's digits differ from each other and add up to `sum`.
pub open spec fn cage_ok(cells: Seq<(usize, usize)>, sum: int, s: Seq<Seq<u8>>) -> bool {
    &&& forall|k1: int, k2: int|
        0 <= k1 < cells.len() && 0 <= k2 < cells.len() && k1 != k2 ==> digit_at(s, #[trigger] cells[k1])
            != digit_at(s, #[trigger] cells[k2])
    &&& cells_sum(s, cells) == sum
}

/// `s` solves the killer puzzle: it solves the grid and keeps every cage.
pub open spec fn is_killer_solution_of(g: Seq<Seq<u8>>, cages: Seq<Cage>, s: Seq<Seq<u8>>) -> bool {
    &&& is_solution_of(g, s)
    &&& forall|ci: int| 0 <= ci < cages.len() ==> cage_ok(#[trigger] cages[ci].cells@, cages[ci].sum as int, s)
}

/// The cages split the board: every cell lies in exactly one cage, once.
pub open spec fn is_partition(cages: Seq<Cage>) -> bool {
    &&& forall|ci: int, k: int|
        0 <= ci < cages.len() && 0 <= k < cages[ci].cells@.len() ==> cell_in_board(#[trigger] cages[ci].cells@[k])
    &&& forall|ci: int, k1: int, k2: int|
        0 <= ci < cages.len() && 0 <= k1 < cages[ci].cells@.len() && 0 <= k2 < cages[ci].cells@.len() && k1 != k2
            ==> #[trigger] cages[ci].cells@[k1] != #[trigger] cages[ci].cells@[k2]
    &&& cages_disjoint(cages)
    &&& forall|r: int, c: int| in_board(r, c) ==> #[trigger] in_some_cage(cages, (r as usize, c as usize))
}

// ---------------------------------------------------------------------------
// Digit sets built from the cells of a cage
// ---------------------------------------------------------------------------

/// Placed digit of cell `p` in a row-major cell array.
pub open spec fn val(cells: Seq<u8>, p: (usize, usize)) -> u8 {
    cells[9 * p.0 + p.1]
}

/// Selects the positions of `list` whose cell is filled in `cells`.
pub open spec fn filled_sel(cells: Seq<u8>, list: Seq<(usize, usize)>) -> spec_fn(int) -> bool {
    |k: int| val(cells, list[k]) != 0
}

/// Selects the positions of `list` whose cell is empty in `cells`.
pub open spec fn empty_sel(cells: Seq<u8>, list: Seq<(usize, usize)>) -> spec_fn(int) -> bool {
    |k: int| val(cells, list[k]) == 0
}

/// Selects every position.
pub open spec fn all_sel() -> spec_fn(int) -> bool {
    |k: int| true
}

/// The digits that `s` puts on the selected cells among the first `n` of `list`.
pub open spec fn sel_mask(s: Seq<Seq<u8>>, list: Seq<(usize, usize)>, n: int, sel: spec_fn(int) -> bool) -> u16
    decreases n,
{
    if n <= 0 {
        0
    } else if sel(n - 1) {
        sel_mask(s, list, n - 1, sel) | (1u16 << (digit_at(s, list[n - 1]) as u16))
    } else {
        sel_mask(s, list, n - 1, sel)
    }
}

/// Number of selected positions among the first `n`.
pub open spec fn sel_count(n: int, sel: spec_fn(int) -> bool) -> int
    decreases n,
{
    if n <= 0 {
        0
    } else {
        sel_count(n - 1, sel) + if sel(n - 1) {
            1int
        } else {
            0int
        }
    }
}

/// Sum of the digits `s` puts on the selected cells among the first `n` of `list`.
pub open spec fn sel_sum(s: Seq<Seq<u8>>, list: Seq<(usize, usize)>, n: int, sel: spec_fn(int) -> bool) -> int
    decreases n,
{
    if n <= 0 {
        0
    } else {
        sel_sum(s, list, n - 1, sel) + if sel(n - 1) {
            digit_at(s, list[n - 1]) as int
        } else {
            0int
        }
    }
}

/// Bit `x` of `m` is set: `x` belongs to the set `m`.
pub open spec fn bit_set(m: u16, x: int) -> bool {
    0 <= x < 16 && (m >> (x as u16)) & 1u16 == 1u16
}

pub proof fn lemma_set_weight(m: u16, e: u16, k: int)
    requires
        e < 16,
        (m >> e) & 1u16 != 1u16,
        0 <= k <= 16,
    ensures
        weight_below(m | (1u16 << e), k) == weight_below(m, k) + (if e < k { e as int } else { 0 }),
        bits_below(m | (1u16 << e), k) == bits_below(m, k) + (if e < k { 1int } else { 0 }),
    decreases k,
{
    if k > 0 {
        lemma_set_weight(m, e, k - 1);
        let x = (k - 1) as u16;
        lemma_set_bit(m, e, x);
    }
}

pub proof fn lemma_set_member(m: u16, e: u16, x: int)
    requires
        e < 16,
    ensures
        bit_set(m | (1u16 << e), x) <==> (bit_set(m, x) || x == e),
{
    if 0 <= x < 16 {
        let y = x as u16;
        lemma_set_bit(m, e, y);
    }
}

/// The digit set of distinct digits: its size and sum are those of the digits.
pub proof fn lemma_sel_mask(s: Seq<Seq<u8>>, list: Seq<(usize, usize)>, n: int, sel: spec_fn(int) -> bool)
    requires
        0 <= n <= list.len(),
        forall|k: int| 0 <= k < n ==> 1 <= #[trigger] digit_at(s, list[k]) <= 9,
        forall|k1: int, k2: int| 0 <= k1 < n && 0 <= k2 < n && k1 != k2 ==> digit_at(s, #[trigger] list[k1]) != digit_at(s, #[trigger] list[k2]),
    ensures
        forall|x: int| bit_set(sel_mask(s, list, n, sel), x) <==> exists|k: int| 0 <= k < n && sel(k) && digit_at(s, list[k]) == x,
        popcount(sel_mask(s, list, n, sel)) == sel_count(n, sel),
        digit_sum(sel_mask(s, list, n, sel)) == sel_sum(s, list, n, sel),
        only_digits(sel_mask(s, list, n, sel)),
    decreases n,
{
    if n == 0 {
        assert(0u16 & 0xFC01u16 == 0) by (bit_vector);
        assert forall|x: int| !bit_set(0u16, x) by {
            if 0 <= x < 16 {
                let y = x as u16;
                lemma_zero_bit(y);
            }
        }
        lemma_zero_weight(16);
    } else {
        lemma_sel_mask(s, list, n - 1, sel);
        let m = sel_mask(s, list, n - 1, sel);
        if sel(n - 1) {
            let e = digit_at(s, list[n - 1]) as u16;
            assert(1 <= e <= 9);
            assert(!bit_set(m, e as int)) by {
                if bit_set(m, e as int) {
                    let k = choose|k: int| 0 <= k < n - 1 && sel(k) && digit_at(s, list[k]) == e as int;
                }
            }
            lemma_set_weight(m, e, 16);
            assert forall|x: int| bit_set(m | (1u16 << e), x) <==> exists|k: int| 0 <= k < n && sel(k) && digit_at(s, list[k]) == x by {
                lemma_set_member(m, e, x);
                if exists|k: int| 0 <= k < n && sel(k) && digit_at(s, list[k]) == x {
                    let k = choose|k: int| 0 <= k < n && sel(k) && digit_at(s, list[k]) == x;
                    if k < n - 1 {
                        assert(exists|k2: int| 0 <= k2 < n - 1 && sel(k2) && digit_at(s, list[k2]) == x);
                    }
                }
            }
            assert(m & 0xFC01u16 == 0 && 1 <= e <= 9 ==> (m | (1u16 << e)) & 0xFC01u16 == 0) by (bit_vector);
        } else {
            assert forall|x: int| bit_set(m, x) <==> exists|k: int| 0 <= k < n && sel(k) && digit_at(s, list[k]) == x by {
                if exists|k: int| 0 <= k < n && sel(k) && digit_at(s, list[k]) == x {
                    let k = choose|k: int| 0 <= k < n && sel(k) && digit_at(s, list[k]) == x;
                    assert(k < n - 1);
                }
            }
        }
    }
}

pub proof fn lemma_zero_weight(k: int)
    requires
        0 <= k <= 16,
    ensures
        weight_below(0u16, k) == 0,
        bits_below(0u16, k) == 0,
    decreases k,
{
    if k > 0 {
        lemma_zero_weight(k - 1);
        let x = (k - 1) as u16;
        lemma_zero_bit(x);
    }
}

/// Two masks with the same members have the same size and sum.
pub proof fn lemma_same_members(a: u16, b: u16, k: int)
    requires
        0 <= k <= 16,
        forall|x: int| 0 <= x < 16 ==> (bit_set(a, x) <==> bit_set(b, x)),
    ensures
        bits_below(a, k) == bits_below(b, k),
        weight_below(a, k) == weight_below(b, k),
    decreases k,
{
    if k > 0 {
        lemma_same_members(a, b, k - 1);
        assert(bit_set(a, k - 1) <==> bit_set(b, k - 1));
    }
}

/// A subset has no more members.
pub proof fn lemma_subset_count(a: u16, b: u16, k: int)
    requires
        0 <= k <= 16,
        forall|x: int| 0 <= x < 16 && bit_set(a, x) ==> bit_set(b, x),
    ensures
        bits_below(a, k) <= bits_below(b, k),
    decreases k,
{
    if k > 0 {
        lemma_subset_count(a, b, k - 1);
        assert(bit_set(a, k - 1) ==> bit_set(b, k - 1));
    }
}

pub proof fn lemma_popcount_zero(m: u16)
    requires
        popcount(m) == 0,
    ensures
        m == 0,
{
    assert forall|x: int| 0 <= x < 16 implies !bit_set(m, x) by {
        lemma_no_bits(m, 16, x);
    }
    assert(!bit_set(m, 0) && !bit_set(m, 1) && !bit_set(m, 2) && !bit_set(m, 3) && !bit_set(m, 4)
        && !bit_set(m, 5) && !bit_set(m, 6) && !bit_set(m, 7) && !bit_set(m, 8) && !bit_set(m, 9)
        && !bit_set(m, 10) && !bit_set(m, 11) && !bit_set(m, 12) && !bit_set(m, 13) && !bit_set(m, 14)
        && !bit_set(m, 15));
    assert((m >> 0u16) & 1u16 != 1u16 && (m >> 1u16) & 1u16 != 1u16 && (m >> 2u16) & 1u16 != 1u16
        && (m >> 3u16) & 1u16 != 1u16 && (m >> 4u16) & 1u16 != 1u16 && (m >> 5u16) & 1u16 != 1u16
        && (m >> 6u16) & 1u16 != 1u16 && (m >> 7u16) & 1u16 != 1u16 && (m >> 8u16) & 1u16 != 1u16
        && (m >> 9u16) & 1u16 != 1u16 && (m >> 10u16) & 1u16 != 1u16 && (m >> 11u16) & 1u16 != 1u16
        && (m >> 12u16) & 1u16 != 1u16 && (m >> 13u16) & 1u16 != 1u16 && (m >> 14u16) & 1u16 != 1u16
        && (m >> 15u16) & 1u16 != 1u16 ==> m == 0) by (bit_vector);
}

proof fn lemma_no_bits(m: u16, k: int, x: int)
    requires
        0 <= k <= 16,
        bits_below(m, k) == 0,
        0 <= x < k,
    ensures
        !bit_set(m, x),
    decreases k,
{
    lemma_bits_below_bounds(m, k - 1);
    if x < k - 1 {
        lemma_no_bits(m, k - 1, x);
    }
}

/// The `n` smallest members of a set sum to no more than any `n` of its members.
pub proof fn lemma_smallest_sum_le(a: u16, t: u16, n: int)
    requires
        forall|x: int| 0 <= x < 16 && bit_set(t, x) ==> bit_set(a, x),
        popcount(t) == n,
    ensures
        smallest_sum(a, n) <= digit_sum(t),
    decreases a,
{
    lemma_bits_below_bounds(t, 16);
    if n == 0 {
        lemma_popcount_zero(t);
        lemma_zero_weight(16);
    } else if a == 0 {
        assert forall|x: int| 0 <= x < 16 implies (bit_set(t, x) <==> bit_set(0u16, x)) by {
            let y = x as u16;
            lemma_zero_bit(y);
            if bit_set(t, x) {
                assert(bit_set(a, x));
            }
        }
        lemma_same_members(t, 0u16, 16);
        lemma_zero_weight(16);
    } else {
        assert(t != 0) by {
            if t == 0 {
                lemma_zero_weight(16);
            }
        }
        axiom_u16_trailing_zeros(a);
        axiom_u16_trailing_zeros(t);
        let ta = u16_trailing_zeros(a) as u16;
        let tt = u16_trailing_zeros(t) as u16;
        assert(bit_set(t, tt as int));
        assert(bit_set(a, tt as int));
        assert(tt >= ta) by {
            if tt < ta {
                assert((a >> tt) & 1u16 == 0u16);
            }
        }
        lemma_remove_bit(a, ta);
        lemma_clear_weight(t, tt, 16);
        let a2 = a & !(1u16 << ta);
        let t2 = t & !(1u16 << tt);
        assert forall|x: int| 0 <= x < 16 && bit_set(t2, x) implies bit_set(a2, x) by {
            let y = x as u16;
            lemma_clear_bit(t, tt, y);
            lemma_clear_bit(a, ta, y);
            assert((t >> y) & 1u16 == 1u16 && y != tt);
            assert(bit_set(t, x));
            assert(bit_set(a, x));
            if y == ta {
                assert(y < tt);
                assert((t >> y) & 1u16 == 0u16);
            }
        }
        lemma_smallest_sum_le(a2, t2, n - 1);
    }
}

/// The `n` largest members of a set sum to at least any `n` of its members.
pub proof fn lemma_largest_sum_ge(a: u16, t: u16, n: int)
    requires
        forall|x: int| 0 <= x < 16 && bit_set(t, x) ==> bit_set(a, x),
        popcount(t) == n,
    ensures
        largest_sum(a, n) >= digit_sum(t),
    decreases a,
{
    lemma_bits_below_bounds(t, 16);
    if n == 0 {
        lemma_popcount_zero(t);
        lemma_zero_weight(16);
    } else if a == 0 {
        assert forall|x: int| 0 <= x < 16 implies (bit_set(t, x) <==> bit_set(0u16, x)) by {
            let y = x as u16;
            lemma_zero_bit(y);
            if bit_set(t, x) {
                assert(bit_set(a, x));
            }
        }
        lemma_same_members(t, 0u16, 16);
        lemma_zero_weight(16);
    } else {
        assert(t != 0) by {
            if t == 0 {
                lemma_zero_weight(16);
            }
        }
        axiom_u16_leading_zeros(a);
        axiom_u16_leading_zeros(t);
        let ha = (15 - u16_leading_zeros(a)) as u16;
        let ht = (15 - u16_leading_zeros(t)) as u16;
        assert((a >> ha) & 1u16 != 0u16);
        assert((t >> ht) & 1u16 != 0u16);
        lemma_bit_one(t, ht);
        lemma_bit_one(a, ha);
        assert(bit_set(t, ht as int));
        assert(bit_set(a, ht as int));
        assert(ht <= ha) by {
            if ht > ha {
                assert(16 - u16_leading_zeros(a) <= ht < 16);
                assert((a >> ht) & 1u16 == 0u16);
            }
        }
        lemma_remove_bit(a, ha);
        lemma_clear_weight(t, ht, 16);
        let a2 = a & !(1u16 << ha);
        let t2 = t & !(1u16 << ht);
        assert forall|x: int| 0 <= x < 16 && bit_set(t2, x) implies bit_set(a2, x) by {
            let y = x as u16;
            lemma_clear_bit(t, ht, y);
            lemma_clear_bit(a, ha, y);
            assert((t >> y) & 1u16 == 1u16 && y != ht);
            assert(bit_set(t, x));
            assert(bit_set(a, x));
            if y == ha {
                assert(y > ht);
                assert(16 - u16_leading_zeros(t) <= y < 16);
                assert((t >> y) & 1u16 == 0u16);
            }
        }
        lemma_largest_sum_ge(a2, t2, n - 1);
    }
}

/// Selections that agree on the first `n` positions give the same digit set, count and sum.
pub proof fn lemma_sel_same(s: Seq<Seq<u8>>, list: Seq<(usize, usize)>, n: int, sel1: spec_fn(int) -> bool, sel2: spec_fn(int) -> bool)
    requires
        forall|k: int| 0 <= k < n ==> #[trigger] sel1(k) == sel2(k),
    ensures
        sel_mask(s, list, n, sel1) == sel_mask(s, list, n, sel2),
        sel_count(n, sel1) == sel_count(n, sel2),
        sel_sum(s, list, n, sel1) == sel_sum(s, list, n, sel2),
    decreases n,
{
    if n > 0 {
        lemma_sel_same(s, list, n - 1, sel1, sel2);
    }
}

/// Adding position `k0` to a selection adds its digit, one to the count and
/// its digit to the sum.
pub proof fn lemma_sel_one(s: Seq<Seq<u8>>, list: Seq<(usize, usize)>, n: int, sel1: spec_fn(int) -> bool, sel2: spec_fn(int) -> bool, k0: int)
    requires
        0 <= k0 < n,
        !sel1(k0),
        sel2(k0),
        forall|k: int| 0 <= k < n && k != k0 ==> #[trigger] sel1(k) == sel2(k),
    ensures
        digit_at(s, list[k0]) < 16 ==> sel_mask(s, list, n, sel2) == sel_mask(s, list, n, sel1) | (1u16 << (digit_at(s, list[k0]) as u16)),
        sel_count(n, sel2) == sel_count(n, sel1) + 1,
        sel_sum(s, list, n, sel2) == sel_sum(s, list, n, sel1) + digit_at(s, list[k0]),
    decreases n,
{
    let b = 1u16 << (digit_at(s, list[k0]) as u16);
    if n - 1 == k0 {
        lemma_sel_same(s, list, n - 1, sel1, sel2);
    } else {
        lemma_sel_one(s, list, n - 1, sel1, sel2, k0);
        let x = sel_mask(s, list, n - 1, sel1);
        let e = 1u16 << (digit_at(s, list[n - 1]) as u16);
        assert((x | b) | e == (x | e) | b) by (bit_vector);
    }
}

pub proof fn lemma_sel_count_bounds(n: int, sel: spec_fn(int) -> bool, j: int)
    requires
        0 <= n,
    ensures
        0 <= sel_count(n, sel) <= n,
        0 <= j < n && sel(j) ==> sel_count(n, sel) >= 1,
    decreases n,
{
    if n > 0 {
        lemma_sel_count_bounds(n - 1, sel, j);
    }
}

/// A selection and its complement together count and sum every position.
pub proof fn lemma_sel_split(s: Seq<Seq<u8>>, list: Seq<(usize, usize)>, n: int, sel1: spec_fn(int) -> bool, sel2: spec_fn(int) -> bool)
    requires
        forall|k: int| 0 <= k < n ==> #[trigger] sel1(k) != sel2(k),
    ensures
        sel_count(n, sel1) + sel_count(n, sel2) == sel_count(n, all_sel()),
        sel_sum(s, list, n, sel1) + sel_sum(s, list, n, sel2) == sel_sum(s, list, n, all_sel()),
    decreases n,
{
    if n > 0 {
        lemma_sel_split(s, list, n - 1, sel1, sel2);
    }
}

/// Summing every position of the whole list gives the sum over its cells.
pub proof fn lemma_sel_all_sum(s: Seq<Seq<u8>>, list: Seq<(usize, usize)>, n: int)
    requires
        0 <= n <= list.len(),
    ensures
        sel_sum(s, list, n, all_sel()) == cells_sum(s, list.subrange(0, n)),
        sel_count(n, all_sel()) == n,
    decreases n,
{
    if n > 0 {
        lemma_sel_all_sum(s, list, n - 1);
        let sub = list.subrange(0, n);
        assert(sub.drop_last() =~= list.subrange(0, n - 1));
        assert(sub.last() == list[n - 1]);
    }
}

/// Masks with the same members are equal.
pub proof fn lemma_mask_ext(a: u16, b: u16)
    requires
        forall|x: int| 0 <= x < 16 ==> (bit_set(a, x) <==> bit_set(b, x)),
    ensures
        a == b,
{
    assert((bit_set(a, 0) <==> bit_set(b, 0)) && (bit_set(a, 1) <==> bit_set(b, 1)) && (bit_set(a, 2) <==> bit_set(b, 2))
        && (bit_set(a, 3) <==> bit_set(b, 3)) && (bit_set(a, 4) <==> bit_set(b, 4)) && (bit_set(a, 5) <==> bit_set(b, 5))
        && (bit_set(a, 6) <==> bit_set(b, 6)) && (bit_set(a, 7) <==> bit_set(b, 7)) && (bit_set(a, 8) <==> bit_set(b, 8))
        && (bit_set(a, 9) <==> bit_set(b, 9)) && (bit_set(a, 10) <==> bit_set(b, 10)) && (bit_set(a, 11) <==> bit_set(b, 11))
        && (bit_set(a, 12) <==> bit_set(b, 12)) && (bit_set(a, 13) <==> bit_set(b, 13)) && (bit_set(a, 14) <==> bit_set(b, 14))
        && (bit_set(a, 15) <==> bit_set(b, 15)));
    assert(((a >> 0u16) & 1u16 == 1u16 <==> (b >> 0u16) & 1u16 == 1u16) && ((a >> 1u16) & 1u16 == 1u16 <==> (b >> 1u16) & 1u16 == 1u16)
        && ((a >> 2u16) & 1u16 == 1u16 <==> (b >> 2u16) & 1u16 == 1u16) && ((a >> 3u16) & 1u16 == 1u16 <==> (b >> 3u16) & 1u16 == 1u16)
        && ((a >> 4u16) & 1u16 == 1u16 <==> (b >> 4u16) & 1u16 == 1u16) && ((a >> 5u16) & 1u16 == 1u16 <==> (b >> 5u16) & 1u16 == 1u16)
        && ((a >> 6u16) & 1u16 == 1u16 <==> (b >> 6u16) & 1u16 == 1u16) && ((a >> 7u16) & 1u16 == 1u16 <==> (b >> 7u16) & 1u16 == 1u16)
        && ((a >> 8u16) & 1u16 == 1u16 <==> (b >> 8u16) & 1u16 == 1u16) && ((a >> 9u16) & 1u16 == 1u16 <==> (b >> 9u16) & 1u16 == 1u16)
        && ((a >> 10u16) & 1u16 == 1u16 <==> (b >> 10u16) & 1u16 == 1u16) && ((a >> 11u16) & 1u16 == 1u16 <==> (b >> 11u16) & 1u16 == 1u16)
        && ((a >> 12u16) & 1u16 == 1u16 <==> (b >> 12u16) & 1u16 == 1u16) && ((a >> 13u16) & 1u16 == 1u16 <==> (b >> 13u16) & 1u16 == 1u16)
        && ((a >> 14u16) & 1u16 == 1u16 <==> (b >> 14u16) & 1u16 == 1u16) && ((a >> 15u16) & 1u16 == 1u16 <==> (b >> 15u16) & 1u16 == 1u16)
        ==> a == b) by (bit_vector);
}

/// Members of `a & b`, `a & !b` and `a | b`.
pub proof fn lemma_mask_ops(a: u16, b: u16, x: int)
    ensures
        bit_set(a & b, x) <==> bit_set(a, x) && bit_set(b, x),
        bit_set(a & !b, x) <==> bit_set(a, x) && !bit_set(b, x),
        bit_set(a | b, x) <==> bit_set(a, x) || bit_set(b, x),
{
    if 0 <= x < 16 {
        let y = x as u16;
        assert(y < 16 ==> ((((a & b) >> y) & 1u16 == 1u16) <==> ((a >> y) & 1u16 == 1u16 && (b >> y) & 1u16 == 1u16))
            && ((((a & !b) >> y) & 1u16 == 1u16) <==> ((a >> y) & 1u16 == 1u16 && !((b >> y) & 1u16 == 1u16)))
            && ((((a | b) >> y) & 1u16 == 1u16) <==> ((a >> y) & 1u16 == 1u16 || (b >> y) & 1u16 == 1u16))) by (bit_vector);
    }
}

/// The empty set has no member.
pub proof fn lemma_zero_bit(y: u16)
    ensures
        (0u16 >> y) & 1u16 != 1u16,
{
    assert((0u16 >> y) & 1u16 != 1u16) by (bit_vector);
}

/// A bit that is not clear is set.
pub proof fn lemma_bit_one(m: u16, x: u16)
    ensures
        (m >> x) & 1u16 != 0u16 ==> (m >> x) & 1u16 == 1u16,
{
    assert((m >> x) & 1u16 != 0u16 ==> (m >> x) & 1u16 == 1u16) by (bit_vector);
}

/// Members of `m` with bit `t` cleared.
pub proof fn lemma_clear_bit(m: u16, t: u16, y: u16)
    requires
        t < 16,
        y < 16,
    ensures
        (((m & !(1u16 << t)) >> y) & 1u16 == 1u16) <==> (((m >> y) & 1u16 == 1u16) && y != t),
{
    assert(t < 16 && y < 16 ==> ((((m & !(1u16 << t)) >> y) & 1u16 == 1u16) <==> (((m >> y) & 1u16 == 1u16) && y != t))) by (bit_vector);
}

/// Members of `m` with bit `e` set.
pub proof fn lemma_set_bit(m: u16, e: u16, y: u16)
    requires
        e < 16,
        y < 16,
    ensures
        (((m | (1u16 << e)) >> y) & 1u16 == 1u16) <==> (((m >> y) & 1u16 == 1u16) || y == e),
{
    assert(e < 16 && y < 16 ==> ((((m | (1u16 << e)) >> y) & 1u16 == 1u16) <==> (((m >> y) & 1u16 == 1u16) || y == e))) by (bit_vector);
}

/// A non-empty digit set is even, at least 2 and below 1024.
proof fn lemma_digit_mask_range(m: u16)
    ensures
        only_digits(m) ==> m < 1024 && (m != 0 ==> m >= 2 && m % 2 == 0),
{
    assert(m & 0xFC01u16 == 0 ==> m < 1024 && (m != 0 ==> m >= 2 && m % 2 == 0)) by (bit_vector);
}

/// `has_digit` and `bit_set` agree.
pub proof fn lemma_has_bit(m: u16, d: u8)
    ensures
        has_digit(m, d) <==> bit_set(m, d as int),
{
    if d < 16 {
        crate::digits::lemma_shift_cast(m, d);
    }
}

/// The set of the positions listed in `xs`.
pub open spec fn mask_of(xs: Seq<int>) -> u16
    decreases xs.len(),
{
    if xs.len() == 0 {
        0
    } else {
        mask_of(xs.drop_last()) | (1u16 << (xs.last() as u16))
    }
}

/// Positions 0..16 listed once each.
pub open spec fn distinct_positions(xs: Seq<int>) -> bool {
    &&& forall|i: int| 0 <= i < xs.len() ==> 0 <= #[trigger] xs[i] < 16
    &&& forall|i: int, j: int| 0 <= i < j < xs.len() ==> xs[i] != xs[j]
}

pub proof fn lemma_mask_of(xs: Seq<int>)
    requires
        distinct_positions(xs),
    ensures
        popcount(mask_of(xs)) == xs.len(),
        forall|y: int| bit_set(mask_of(xs), y) <==> xs.contains(y),
    decreases xs.len(),
{
    if xs.len() == 0 {
        lemma_zero_weight(16);
        assert forall|y: int| !bit_set(0u16, y) by {
            if 0 <= y < 16 {
                lemma_zero_bit(y as u16);
            }
        }
    } else {
        let ys = xs.drop_last();
        let e = xs.last();
        assert(distinct_positions(ys)) by {
            assert forall|i: int| 0 <= i < ys.len() implies 0 <= #[trigger] ys[i] < 16 by {
                assert(ys[i] == xs[i]);
            }
            assert forall|i: int, j: int| 0 <= i < j < ys.len() implies ys[i] != ys[j] by {
                assert(ys[i] == xs[i] && ys[j] == xs[j]);
            }
        }
        lemma_mask_of(ys);
        assert(0 <= e < 16);
        assert(!ys.contains(e)) by {
            if ys.contains(e) {
                let j = choose|j: int| 0 <= j < ys.len() && ys[j] == e;
                assert(xs[j] == xs[xs.len() - 1]);
            }
        }
        assert(!bit_set(mask_of(ys), e));
        lemma_set_weight(mask_of(ys), e as u16, 16);
        assert forall|y: int| bit_set(mask_of(xs), y) <==> xs.contains(y) by {
            lemma_set_member(mask_of(ys), e as u16, y);
            if xs.contains(y) && y != e {
                let j = choose|j: int| 0 <= j < xs.len() && xs[j] == y;
                assert(j < xs.len() - 1);
                assert(ys[j] == y);
            }
            if ys.contains(y) {
                let j = choose|j: int| 0 <= j < ys.len() && ys[j] == y;
                assert(xs[j] == y);
            }
        }
    }
}

/// A set with `n` members holds no member besides `n` distinct listed ones.
pub proof fn lemma_members_listed(m: u16, xs: Seq<int>, x: int)
    requires
        distinct_positions(xs),
        forall|i: int| 0 <= i < xs.len() ==> bit_set(m, #[trigger] xs[i]),
        popcount(m) == xs.len(),
        bit_set(m, x),
    ensures
        xs.contains(x),
{
    if !xs.contains(x) {
        let ys = xs.push(x);
        assert(distinct_positions(ys)) by {
            assert forall|i: int| 0 <= i < ys.len() implies 0 <= #[trigger] ys[i] < 16 by {
                if i < xs.len() {
                    assert(ys[i] == xs[i]);
                }
            }
            assert forall|i: int, j: int| 0 <= i < j < ys.len() implies ys[i] != ys[j] by {
                assert(ys[i] == xs[i]);
                if j == xs.len() {
                    assert(!xs.contains(ys[j]));
                    assert(xs.contains(xs[i]));
                } else {
                    assert(ys[j] == xs[j]);
                }
            }
        }
        lemma_mask_of(ys);
        assert forall|y: int| 0 <= y < 16 && bit_set(mask_of(ys), y) implies bit_set(m, y) by {
            assert(ys.contains(y));
            let j = choose|j: int| 0 <= j < ys.len() && ys[j] == y;
            if j < xs.len() {
                assert(ys[j] == xs[j]);
            }
        }
        lemma_subset_count(mask_of(ys), m, 16);
    }
}

} // verus!
