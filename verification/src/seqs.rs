//! Helpers over sequences: sums, copies and an ascending sort.
use vstd::prelude::*;

verus! {

/// Sum of a sequence of unsigned integers, as a mathematical integer.
pub open spec fn seq_sum(s: Seq<u64>) -> int
    decreases s.len(),
{
    if s.len() == 0 {
        0
    } else {
        seq_sum(s.drop_last()) + s.last()
    }
}

/// Sum of a sequence of `u32` values, as a mathematical integer.
pub open spec fn seq_sum_u32(s: Seq<u32>) -> int
    decreases s.len(),
{
    if s.len() == 0 {
        0
    } else {
        seq_sum_u32(s.drop_last()) + s.last()
    }
}

/// Each element of a prefix sum is bounded by the total sum.
pub proof fn lemma_seq_sum_prefix(s: Seq<u64>, k: int)
    requires
        0 <= k <= s.len(),
    ensures
        seq_sum(s.take(k)) <= seq_sum(s),
        0 <= seq_sum(s.take(k)),
    decreases s.len(),
{
    if k == s.len() {
        assert(s.take(k) =~= s);
        lemma_seq_sum_nonneg(s);
    } else {
        lemma_seq_sum_prefix(s.drop_last(), k);
        assert(s.drop_last().take(k) =~= s.take(k));
    }
}

/// Sums of unsigned sequences are non-negative.
pub proof fn lemma_seq_sum_nonneg(s: Seq<u64>)
    ensures
        seq_sum(s) >= 0,
    decreases s.len(),
{
    if s.len() > 0 {
        lemma_seq_sum_nonneg(s.drop_last());
    }
}

/// Prefix sums of `u32` sequences are bounded by the total and non-negative.
pub proof fn lemma_seq_sum_u32_prefix(s: Seq<u32>, k: int)
    requires
        0 <= k <= s.len(),
    ensures
        0 <= seq_sum_u32(s.take(k)) <= seq_sum_u32(s),
    decreases s.len(),
{
    if k == s.len() {
        assert(s.take(k) =~= s);
        lemma_seq_sum_u32_nonneg(s);
    } else {
        lemma_seq_sum_u32_prefix(s.drop_last(), k);
        assert(s.drop_last().take(k) =~= s.take(k));
    }
}

/// Sums of `u32` sequences are non-negative.
pub proof fn lemma_seq_sum_u32_nonneg(s: Seq<u32>)
    ensures
        seq_sum_u32(s) >= 0,
    decreases s.len(),
{
    if s.len() > 0 {
        lemma_seq_sum_u32_nonneg(s.drop_last());
    }
}

/// Each element of an unsigned sequence is bounded by its sum.
pub proof fn lemma_seq_sum_element(s: Seq<u64>, i: int)
    requires
        0 <= i < s.len(),
    ensures
        s[i] <= seq_sum(s),
    decreases s.len(),
{
    lemma_seq_sum_nonneg(s.drop_last());
    if i < s.len() - 1 {
        lemma_seq_sum_element(s.drop_last(), i);
    }
}

/// Calls `slice::sort_unstable`: std documents an in-place ascending sort,
/// so the result is an ascending permutation of the input.
#[verifier::external_body]
pub(crate) fn sort_block(v: &mut Vec<u64>)
    ensures
        final(v)@.len() == old(v)@.len(),
        final(v)@.to_multiset() == old(v)@.to_multiset(),
        forall|i: int, j: int| 0 <= i <= j < final(v)@.len() ==> final(v)@[i] <= final(v)@[j],
{
    v.sort_unstable();
}

/// Replacing one element changes the sum by the difference.
pub proof fn lemma_seq_sum_update(s: Seq<u64>, i: int, v: u64)
    requires
        0 <= i < s.len(),
    ensures
        seq_sum(s.update(i, v)) == seq_sum(s) - s[i] + v,
    decreases s.len(),
{
    if i == s.len() - 1 {
        assert(s.update(i, v).drop_last() =~= s.drop_last());
    } else {
        lemma_seq_sum_update(s.drop_last(), i, v);
        assert(s.update(i, v).drop_last() =~= s.drop_last().update(i, v));
    }
}

/// Computes the sum of a `u64` slice; the caller guarantees it fits.
pub fn sum_u64(s: &[u64]) -> (total: u64)
    requires
        seq_sum(s@) <= u64::MAX,
    ensures
        total == seq_sum(s@),
{
    let mut total: u64 = 0;
    let mut i: usize = 0;
    while i < s.len()
        invariant
            i <= s.len(),
            total == seq_sum(s@.take(i as int)),
            seq_sum(s@) <= u64::MAX,
        decreases s.len() - i,
    {
        proof {
            lemma_seq_sum_prefix(s@, i + 1);
            assert(s@.take(i + 1).drop_last() =~= s@.take(i as int));
        }
        total = total + s[i];
        i = i + 1;
    }
    assert(s@.take(s.len() as int) =~= s@);
    total
}

/// Computes the sum of a `u32` slice as a `u64`; the caller guarantees it fits.
pub fn sum_u32(s: &[u32]) -> (total: u64)
    requires
        seq_sum_u32(s@) <= u64::MAX,
    ensures
        total == seq_sum_u32(s@),
{
    let mut total: u64 = 0;
    let mut i: usize = 0;
    while i < s.len()
        invariant
            i <= s.len(),
            total == seq_sum_u32(s@.take(i as int)),
            seq_sum_u32(s@) <= u64::MAX,
        decreases s.len() - i,
    {
        proof {
            lemma_seq_sum_u32_prefix(s@, i + 1);
            assert(s@.take(i + 1).drop_last() =~= s@.take(i as int));
        }
        total = total + s[i] as u64;
        i = i + 1;
    }
    assert(s@.take(s.len() as int) =~= s@);
    total
}

/// Owned copy of a slice of `Copy` values.
pub fn copy_slice<T: Copy>(s: &[T]) -> (v: Vec<T>)
    ensures
        v@ == s@,
{
    let mut v: Vec<T> = Vec::new();
    let mut i: usize = 0;
    while i < s.len()
        invariant
            i <= s.len(),
            v@ == s@.take(i as int),
        decreases s.len() - i,
    {
        v.push(s[i]);
        i = i + 1;
        assert(v@ =~= s@.take(i as int));
    }
    assert(s@.take(s.len() as int) =~= s@);
    v
}

/// Replacing one element changes a `u32` sum by the difference.
pub proof fn lemma_seq_sum_u32_update(s: Seq<u32>, i: int, v: u32)
    requires
        0 <= i < s.len(),
    ensures
        seq_sum_u32(s.update(i, v)) == seq_sum_u32(s) - s[i] + v,
    decreases s.len(),
{
    if i == s.len() - 1 {
        assert(s.update(i, v).drop_last() =~= s.drop_last());
    } else {
        lemma_seq_sum_u32_update(s.drop_last(), i, v);
        assert(s.update(i, v).drop_last() =~= s.drop_last().update(i, v));
    }
}

/// Every element of a `u32` sequence is at most its sum.
pub proof fn lemma_seq_sum_u32_element(s: Seq<u32>, i: int)
    requires
        0 <= i < s.len(),
    ensures
        s[i] <= seq_sum_u32(s),
    decreases s.len(),
{
    lemma_seq_sum_u32_nonneg(s.drop_last());
    if i < s.len() - 1 {
        lemma_seq_sum_u32_element(s.drop_last(), i);
    }
}

/// A `u32` sequence with zero sum is all zeros, and conversely.
pub proof fn lemma_seq_sum_u32_zero(s: Seq<u32>)
    ensures
        seq_sum_u32(s) == 0 <==> forall|i: int| 0 <= i < s.len() ==> s[i] == 0,
    decreases s.len(),
{
    if s.len() > 0 {
        lemma_seq_sum_u32_zero(s.drop_last());
        lemma_seq_sum_u32_nonneg(s.drop_last());
        if seq_sum_u32(s) == 0 {
            assert forall|i: int| 0 <= i < s.len() implies s[i] == 0 by {
                if i < s.len() - 1 {
                    assert(s.drop_last()[i] == s[i]);
                }
            }
        }
        if forall|i: int| 0 <= i < s.len() ==> s[i] == 0 {
            assert forall|i: int| 0 <= i < s.drop_last().len() implies s.drop_last()[i] == 0 by {
                assert(s[i] == 0);
            }
            assert(s[s.len() - 1] == 0);
        }
    }
}

} // verus!
