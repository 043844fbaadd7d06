//! Counting empty cells and weighing candidate sets over a flat 81-cell board.
use vstd::prelude::*;
use crate::digits::{has_digit, lemma_popcount_bound, popcount};

verus! {

/// Number of empty (0) cells among the first `n` cells.
pub open spec fn count_empty(s: Seq<u8>, n: int) -> nat
    decreases n,
{
    if n <= 0 {
        0
    } else {
        count_empty(s, n - 1) + if s[n - 1] == 0 {
            1nat
        } else {
            0nat
        }
    }
}

/// Sum of the candidate masks of the first `n` cells, read as numbers.
pub open spec fn cand_sum(s: Seq<u16>, n: int) -> nat
    decreases n,
{
    if n <= 0 {
        0
    } else {
        cand_sum(s, n - 1) + s[n - 1] as nat
    }
}

pub proof fn lemma_count_empty_update(s: Seq<u8>, k: int, v: u8, n: int)
    requires
        0 <= k < s.len(),
        n <= s.len(),
    ensures
        count_empty(s.update(k, v), n) + (if k < n && s[k] == 0 {
            1int
        } else {
            0int
        }) == count_empty(s, n) + (if k < n && v == 0 {
            1int
        } else {
            0int
        }),
    decreases n,
{
    if n > 0 {
        lemma_count_empty_update(s, k, v, n - 1);
    }
}

pub proof fn lemma_cand_sum_update(s: Seq<u16>, k: int, v: u16, n: int)
    requires
        0 <= k < s.len(),
        n <= s.len(),
    ensures
        cand_sum(s.update(k, v), n) + (if k < n {
            s[k] as int
        } else {
            0int
        }) == cand_sum(s, n) + (if k < n {
            v as int
        } else {
            0int
        }),
    decreases n,
{
    if n > 0 {
        lemma_cand_sum_update(s, k, v, n - 1);
    }
}

pub proof fn lemma_count_empty_bounds(s: Seq<u8>, n: int)
    requires
        0 <= n <= s.len(),
    ensures
        count_empty(s, n) <= n,
        count_empty(s, n) == 0 ==> forall|k: int| 0 <= k < n ==> s[k] != 0,
        count_empty(s, n) > 0 ==> exists|k: int| 0 <= k < n && s[k] == 0,
    decreases n,
{
    if n > 0 {
        lemma_count_empty_bounds(s, n - 1);
        if count_empty(s, n) > 0 && s[n - 1] != 0 {
            let k = choose|k: int| 0 <= k < n - 1 && s[k] == 0;
            assert(0 <= k < n && s[k] == 0);
        }
    }
}

/// Number of candidates left over the first `n` cells.
pub open spec fn bits_total(s: Seq<u16>, n: int) -> int
    decreases n,
{
    if n <= 0 {
        0
    } else {
        bits_total(s, n - 1) + popcount(s[n - 1])
    }
}

pub proof fn lemma_bits_total_update(s: Seq<u16>, k: int, v: u16, n: int)
    requires
        0 <= k < s.len(),
        n <= s.len(),
    ensures
        bits_total(s.update(k, v), n) + (if 0 <= k < n { popcount(s[k]) } else { 0 })
            == bits_total(s, n) + (if 0 <= k < n { popcount(v) } else { 0 }),
    decreases n,
{
    if n > 0 {
        lemma_bits_total_update(s, k, v, n - 1);
    }
}

pub proof fn lemma_bits_total_bounds(s: Seq<u16>, n: int)
    requires
        0 <= n <= s.len(),
    ensures
        0 <= bits_total(s, n) <= 16 * n,
    decreases n,
{
    if n > 0 {
        lemma_bits_total_bounds(s, n - 1);
        lemma_popcount_bound(s[n - 1]);
    }
}

/// Cells filled in `a` keep their digit in `b`.
pub open spec fn keeps(a: Seq<u8>, b: Seq<u8>) -> bool {
    forall|k: int| 0 <= k < 81 && a[k] != 0 ==> #[trigger] b[k] == a[k]
}

/// Keeping filled cells is transitive.
pub proof fn lemma_keeps_trans(a: Seq<u8>, b: Seq<u8>, c: Seq<u8>)
    requires
        keeps(a, b),
        keeps(b, c),
    ensures
        keeps(a, c),
{
    assert forall|k: int| 0 <= k < 81 && a[k] != 0 implies #[trigger] c[k] == a[k] by {
        assert(b[k] == a[k]);
    }
}

/// `x` holds no digit outside `y`.
pub open spec fn sub_mask(x: u16, y: u16) -> bool {
    x & y == x
}

/// `x & y` holds no digit outside `x`.
pub proof fn lemma_and_sub(x: u16, y: u16)
    ensures
        sub_mask(x & y, x),
{
    assert((x & y) & x == x & y) by (bit_vector);
}

/// No cell gained a candidate from `a` to `b`.
pub open spec fn shrinks(a: Seq<u16>, b: Seq<u16>) -> bool {
    forall|k: int| 0 <= k < 81 ==> #[trigger] sub_mask(b[k], a[k])
}

pub proof fn lemma_sub_mask_trans(x: u16, y: u16, z: u16)
    requires
        sub_mask(x, y),
        sub_mask(y, z),
    ensures
        sub_mask(x, z),
{
    assert(x & y == x && y & z == y ==> x & z == x) by (bit_vector);
}

pub proof fn lemma_shrinks_trans(a: Seq<u16>, b: Seq<u16>, c: Seq<u16>)
    requires
        shrinks(a, b),
        shrinks(b, c),
    ensures
        shrinks(a, c),
{
    assert forall|k: int| 0 <= k < 81 implies #[trigger] sub_mask(c[k], a[k]) by {
        assert(sub_mask(b[k], a[k]));
        assert(sub_mask(c[k], b[k]));
        lemma_sub_mask_trans(c[k], b[k], a[k]);
    }
}

pub proof fn lemma_shrinks_refl(a: Seq<u16>)
    ensures
        shrinks(a, a),
{
    assert forall|k: int| 0 <= k < 81 implies #[trigger] sub_mask(a[k], a[k]) by {
        let x = a[k];
        assert(x & x == x) by (bit_vector);
    }
}

/// A digit of a subset is a digit of the set.
pub proof fn lemma_sub_mask_digit(x: u16, y: u16, d: u8)
    requires
        sub_mask(x, y),
        has_digit(x, d),
    ensures
        has_digit(y, d),
{
    crate::killer::lemma_has_bit(x, d);
    crate::killer::lemma_has_bit(y, d);
    crate::killer::lemma_has_bit(x & y, d);
    crate::killer::lemma_mask_ops(x, y, d as int);
}

/// A digit absent from a cell stays absent while candidates only shrink.
pub proof fn lemma_lacks_kept(a: Seq<u16>, b: Seq<u16>, d: u8)
    requires
        shrinks(a, b),
    ensures
        forall|k: int| 0 <= k < 81 && !has_digit(a[k], d) ==> !has_digit(#[trigger] b[k], d),
{
    assert forall|k: int| 0 <= k < 81 && !has_digit(a[k], d) implies !has_digit(#[trigger] b[k], d) by {
        assert(sub_mask(b[k], a[k]));
        if has_digit(b[k], d) {
            lemma_sub_mask_digit(b[k], a[k], d);
        }
    }
}

/// The empty set holds no digit and lies inside every set.
pub proof fn lemma_empty_mask(x: u16, d: u8)
    ensures
        sub_mask(0u16, x),
        !has_digit(0u16, d),
{
    assert(0u16 & x == 0u16) by (bit_vector);
    assert(d < 16 ==> (0u16 >> d) & 1u16 != 1u16) by (bit_vector);
}

} // verus!
