//! Bit-mask arithmetic shared by every level of the storage and journal trees.
//!
//! A mask is a `u64` whose bit `i` summarises child `i` (or slot `i` at a
//! leaf). All reasoning elsewhere goes through [`bit_set`]; the raw shifts
//! and the bit-vector proofs stay in this module.

use vstd::prelude::*;
use vstd::std_specs::bits::{axiom_u64_trailing_ones, axiom_u64_trailing_zeros};

verus! {

/// Bit `i` of `mask` is one.
pub open spec fn bit_set(mask: u64, i: int) -> bool {
    0 <= i < 64 && (mask >> (i as u64)) & 1u64 == 1u64
}

/// Number of one bits of `mask` among the positions below `n`.
pub open spec fn count_bits(mask: u64, n: nat) -> nat
    decreases n,
{
    if n == 0 {
        0
    } else {
        count_bits(mask, (n - 1) as nat) + if bit_set(mask, n - 1) {
            1nat
        } else {
            0nat
        }
    }
}

/// Sum of a sequence of counts.
pub open spec fn seq_sum(s: Seq<nat>) -> nat
    decreases s.len(),
{
    if s.len() == 0 {
        0
    } else {
        seq_sum(s.drop_last()) + s.last()
    }
}

/// A mask is zero exactly when none of its bits is set.
pub proof fn lemma_zero_mask(mask: u64)
    ensures
        mask == 0 <==> (forall|j: int| 0 <= j < 64 ==> !#[trigger] bit_set(mask, j)),
{
    axiom_u64_trailing_zeros(mask);
    if mask == 0 {
        assert forall|j: int| 0 <= j < 64 implies !#[trigger] bit_set(mask, j) by {
            let ju = j as u64;
            assert((0u64 >> ju) & 1u64 == 0u64) by (bit_vector);
        }
    } else {
        let t = mask.trailing_zeros() as int;
        assert(bit_set(mask, t));
    }
}

/// A mask is saturated exactly when every one of its bits is set.
pub proof fn lemma_full_mask(mask: u64)
    ensures
        mask == u64::MAX <==> (forall|j: int| 0 <= j < 64 ==> #[trigger] bit_set(mask, j)),
{
    axiom_u64_trailing_ones(mask);
    if mask == u64::MAX {
        assert forall|j: int| 0 <= j < 64 implies #[trigger] bit_set(mask, j) by {
            let ju = j as u64;
            assert((0xffff_ffff_ffff_ffffu64 >> ju) & 1u64 == 1u64) by (bit_vector)
                requires
                    ju < 64,
            ;
        }
    } else {
        let t = mask.trailing_ones() as int;
        assert(!bit_set(mask, t));
    }
}

/// A bit of an intersection is set exactly where it is set in both masks.
pub proof fn lemma_mask_and(a: u64, b: u64)
    ensures
        forall|j: int| #[trigger] bit_set(a & b, j) == (bit_set(a, j) && bit_set(b, j)),
{
    assert forall|j: int| #[trigger] bit_set(a & b, j) == (bit_set(a, j) && bit_set(b, j)) by {
        if 0 <= j < 64 {
            let ju = j as u64;
            assert((((a & b) >> ju) & 1u64 == 1u64) == (((a >> ju) & 1u64 == 1u64) && ((b >> ju)
                & 1u64 == 1u64))) by (bit_vector);
        }
    }
}

/// A bit of a union is set exactly where it is set in one of the masks.
pub proof fn lemma_mask_or(a: u64, b: u64)
    ensures
        forall|j: int| #[trigger] bit_set(a | b, j) == (bit_set(a, j) || bit_set(b, j)),
{
    assert forall|j: int| #[trigger] bit_set(a | b, j) == (bit_set(a, j) || bit_set(b, j)) by {
        if 0 <= j < 64 {
            let ju = j as u64;
            assert((((a | b) >> ju) & 1u64 == 1u64) == (((a >> ju) & 1u64 == 1u64) || ((b >> ju)
                & 1u64 == 1u64))) by (bit_vector);
        }
    }
}

/// A bit of a complement is set exactly where it is clear in the mask.
pub proof fn lemma_mask_not(a: u64)
    ensures
        forall|j: int| 0 <= j < 64 ==> #[trigger] bit_set(!a, j) == !bit_set(a, j),
{
    assert forall|j: int| 0 <= j < 64 implies #[trigger] bit_set(!a, j) == !bit_set(a, j) by {
        let ju = j as u64;
        assert((((!a) >> ju) & 1u64 == 1u64) == !((a >> ju) & 1u64 == 1u64)) by (bit_vector)
            requires
                ju < 64,
        ;
    }
}

/// Below `n` there are at most `n` one bits.
pub proof fn lemma_count_bits_bound(mask: u64, n: nat)
    ensures
        count_bits(mask, n) <= n,
    decreases n,
{
    if n > 0 {
        lemma_count_bits_bound(mask, (n - 1) as nat);
    }
}

/// Masks that agree below `n` have the same count below `n`.
pub proof fn lemma_count_bits_same(a: u64, b: u64, n: nat)
    requires
        forall|j: int| 0 <= j < n ==> bit_set(a, j) == bit_set(b, j),
    ensures
        count_bits(a, n) == count_bits(b, n),
    decreases n,
{
    if n > 0 {
        lemma_count_bits_same(a, b, (n - 1) as nat);
    }
}

/// Turning on one bit below `n` that was off raises the count by one.
pub proof fn lemma_count_bits_flip(a: u64, b: u64, i: int, n: nat)
    requires
        0 <= i < n,
        !bit_set(a, i),
        bit_set(b, i),
        forall|j: int| 0 <= j < n && j != i ==> bit_set(a, j) == bit_set(b, j),
    ensures
        count_bits(b, n) == count_bits(a, n) + 1,
    decreases n,
{
    if n - 1 == i {
        lemma_count_bits_same(a, b, (n - 1) as nat);
    } else {
        lemma_count_bits_flip(a, b, i, (n - 1) as nat);
    }
}

/// The count below `n` is `n` exactly when every bit below `n` is set, and
/// zero exactly when none is.
pub proof fn lemma_count_bits_extremes(mask: u64, n: nat)
    requires
        n <= 64,
    ensures
        count_bits(mask, n) == n <==> (forall|j: int| 0 <= j < n ==> #[trigger] bit_set(mask, j)),
        count_bits(mask, n) == 0 <==> (forall|j: int| 0 <= j < n ==> !#[trigger] bit_set(mask, j)),
    decreases n,
{
    if n > 0 {
        lemma_count_bits_extremes(mask, (n - 1) as nat);
        lemma_count_bits_bound(mask, (n - 1) as nat);
        if count_bits(mask, n) == n {
            assert(bit_set(mask, n - 1));
        }
        if count_bits(mask, n) == 0 {
            assert(!bit_set(mask, n - 1));
        }
    }
}

/// A mask holds 64 ones exactly when it is saturated, none exactly when it is zero.
pub proof fn lemma_count_bits_mask(mask: u64)
    ensures
        count_bits(mask, 64) <= 64,
        count_bits(mask, 64) == 64 <==> mask == u64::MAX,
        count_bits(mask, 64) == 0 <==> mask == 0,
{
    lemma_count_bits_bound(mask, 64);
    lemma_count_bits_extremes(mask, 64);
    lemma_full_mask(mask);
    lemma_zero_mask(mask);
}

/// Replacing one count changes the sum by the difference.
pub proof fn lemma_seq_sum_update(s: Seq<nat>, i: int, v: nat)
    requires
        0 <= i < s.len(),
    ensures
        seq_sum(s.update(i, v)) + s[i] == seq_sum(s) + v,
    decreases s.len(),
{
    let t = s.update(i, v);
    if i == s.len() - 1 {
        assert(t.drop_last() =~= s.drop_last());
    } else {
        assert(t.drop_last() =~= s.drop_last().update(i, v));
        lemma_seq_sum_update(s.drop_last(), i, v);
    }
}

/// A sum of `s.len()` counts, each at most `bound`, is at most
/// `s.len() * bound`, reaches it only when every count does, and is zero only
/// when every count is.
pub proof fn lemma_seq_sum_bounds(s: Seq<nat>, bound: nat)
    requires
        forall|j: int| 0 <= j < s.len() ==> #[trigger] s[j] <= bound,
    ensures
        seq_sum(s) <= s.len() * bound,
        seq_sum(s) == s.len() * bound <==> (forall|j: int| 0 <= j < s.len() ==> #[trigger] s[j] == bound),
        seq_sum(s) == 0 <==> (forall|j: int| 0 <= j < s.len() ==> #[trigger] s[j] == 0),
    decreases s.len(),
{
    if s.len() > 0 {
        let r = s.drop_last();
        lemma_seq_sum_bounds(r, bound);
        assert(s.len() * bound == r.len() * bound + bound) by (nonlinear_arith)
            requires
                s.len() == r.len() + 1,
        ;
        assert(forall|j: int| 0 <= j < r.len() ==> r[j] == s[j]);
        if seq_sum(s) == s.len() * bound {
            assert(s.last() == bound);
            assert forall|j: int| 0 <= j < s.len() implies #[trigger] s[j] == bound by {
                if j < r.len() {
                    assert(r[j] == bound);
                }
            }
        }
        if forall|j: int| 0 <= j < s.len() ==> #[trigger] s[j] == bound {
            assert forall|j: int| 0 <= j < r.len() implies #[trigger] r[j] == bound by {
                assert(s[j] == bound);
            }
        }
        if seq_sum(s) == 0 {
            assert forall|j: int| 0 <= j < s.len() implies #[trigger] s[j] == 0 by {
                if j < r.len() {
                    assert(r[j] == 0);
                }
            }
        }
        if forall|j: int| 0 <= j < s.len() ==> #[trigger] s[j] == 0 {
            assert forall|j: int| 0 <= j < r.len() implies #[trigger] r[j] == 0 by {
                assert(s[j] == 0);
            }
        }
    } else {
        assert(s.len() * bound == 0) by (nonlinear_arith)
            requires
                s.len() == 0,
        ;
    }
}

/// Reads bit `i`.
pub fn test_bit(mask: u64, i: u32) -> (r: bool)
    requires
        i < 64,
    ensures
        r == bit_set(mask, i as int),
{
    let sh: u64 = i as u64;
    assert(((mask >> sh) & 1u64 != 0u64) == ((mask >> sh) & 1u64 == 1u64)) by (bit_vector);
    (mask >> sh) & 1u64 != 0u64
}

/// The mask with bit `i` turned on and every other bit kept.
pub fn with_bit(mask: u64, i: u32) -> (r: u64)
    requires
        i < 64,
    ensures
        forall|j: int| #[trigger] bit_set(r, j) == (j == i || bit_set(mask, j)),
{
    let sh: u64 = i as u64;
    let r = mask | (1u64 << sh);
    assert forall|j: int| #[trigger] bit_set(r, j) == (j == i || bit_set(mask, j)) by {
        if 0 <= j < 64 {
            let ju = j as u64;
            assert((((mask | (1u64 << sh)) >> ju) & 1u64 == 1u64) == (ju == sh || (mask >> ju) & 1u64
                == 1u64)) by (bit_vector)
                requires
                    sh < 64,
                    ju < 64,
            ;
        }
    }
    r
}

/// The mask with bit `i` turned off and every other bit kept.
pub fn without_bit(mask: u64, i: u32) -> (r: u64)
    requires
        i < 64,
    ensures
        forall|j: int| #[trigger] bit_set(r, j) == (j != i && bit_set(mask, j)),
{
    let sh: u64 = i as u64;
    let r = mask & !(1u64 << sh);
    assert forall|j: int| #[trigger] bit_set(r, j) == (j != i && bit_set(mask, j)) by {
        if 0 <= j < 64 {
            let ju = j as u64;
            assert((((mask & !(1u64 << sh)) >> ju) & 1u64 == 1u64) == (ju != sh && (mask >> ju)
                & 1u64 == 1u64)) by (bit_vector)
                requires
                    sh < 64,
                    ju < 64,
            ;
        }
    }
    r
}

/// Counts the one bits of a mask.
pub fn popcount(mask: u64) -> (n: u32)
    ensures
        n == count_bits(mask, 64),
        n <= 64,
{
    let mut n: u32 = 0;
    let mut i: u32 = 0;
    while i < 64
        invariant
            i <= 64,
            n == count_bits(mask, i as nat),
            n <= i,
        decreases 64 - i,
    {
        if test_bit(mask, i) {
            n += 1;
        }
        i += 1;
    }
    n
}

/// Index of the lowest zero bit, or `None` when the mask is saturated.
pub fn first_zero(mask: u64) -> (r: Option<u32>)
    ensures
        r.is_none() <==> mask == u64::MAX,
        r.is_some() ==> r.unwrap() < 64 && !bit_set(mask, r.unwrap() as int) && forall|j: int|
            0 <= j < r.unwrap() ==> bit_set(mask, j),
{
    proof {
        axiom_u64_trailing_ones(mask);
    }
    if mask == u64::MAX {
        None
    } else {
        let t = mask.trailing_ones();
        assert forall|j: int| 0 <= j < t implies bit_set(mask, j) by {
            let ju = j as u64;
            assert((mask >> ju) & 1u64 == 1u64);
        }
        Some(t)
    }
}

/// Index of the lowest one bit at or above `from`, or `None` when there is none.
pub fn next_set_bit(mask: u64, from: u32) -> (r: Option<u32>)
    ensures
        r.is_none() ==> forall|j: int| from <= j < 64 ==> !bit_set(mask, j),
        r.is_some() ==> from <= r.unwrap() < 64 && bit_set(mask, r.unwrap() as int) && forall|j: int|
            from <= j < r.unwrap() ==> !bit_set(mask, j),
{
    if from >= 64 {
        return None;
    }
    let sh: u64 = from as u64;
    let m = mask >> sh;
    proof {
        axiom_u64_trailing_zeros(m);
    }
    if m == 0 {
        assert forall|j: int| from <= j < 64 implies !bit_set(mask, j) by {
            let ju = j as u64;
            assert((mask >> ju) & 1u64 == 0u64) by (bit_vector)
                requires
                    mask >> sh == 0,
                    sh <= ju,
                    ju < 64,
            ;
        }
        None
    } else {
        let t = m.trailing_zeros();
        let tu: u64 = t as u64;
        assert(sh + tu < 64 && (mask >> ((sh + tu) as u64)) & 1u64 == 1u64) by (bit_vector)
            requires
                sh < 64,
                tu < 64,
                ((mask >> sh) >> tu) & 1u64 == 1u64,
        ;
        assert forall|j: int| from <= j < from + t implies !bit_set(mask, j) by {
            let ju = j as u64;
            let ku = (j - from) as u64;
            assert((m >> ku) & 1u64 == 0u64);
            assert((mask >> ju) & 1u64 == 0u64) by (bit_vector)
                requires
                    ((mask >> sh) >> ku) & 1u64 == 0u64,
                    ju == sh + ku,
                    ju < 64,
            ;
        }
        Some(from + t)
    }
}

} // verus!
