//! Predicates that decide whether a block of a block-sparse contraction can
//! be handed to GEMM as it lies, through GEMM's transpose flag, or needs a
//! physical permutation first.

use vstd::prelude::*;

verus! {

/// `axes` is `[0, 1, ..., n-1]` in order.
pub open spec fn is_prefix_run(axes: Seq<usize>) -> bool {
    forall|i: int| 0 <= i < axes.len() ==> axes[i] == i
}

/// `axes` is `[rank-n, ..., rank-1]` in order, for `n = axes.len()`.
pub open spec fn is_suffix_run(axes: Seq<usize>, rank: nat) -> bool {
    forall|i: int| 0 <= i < axes.len() ==> axes[i] == rank - axes.len() + i
}

/// `perm` maps every position to itself.
pub fn is_identity_perm(perm: &[usize]) -> (r: bool)
    ensures
        r == is_prefix_run(perm@),
{
    is_ascending_prefix(perm)
}

/// The axes are exactly `[0, 1, ..., n-1]` in order: an in-order leading
/// prefix of the axes, whose linearization matches between operands.
pub fn is_ascending_prefix(axes: &[usize]) -> (r: bool)
    ensures
        r == is_prefix_run(axes@),
{
    let mut i: usize = 0;
    while i < axes.len()
        invariant
            i <= axes@.len(),
            forall|j: int| 0 <= j < i ==> axes@[j] == j,
        decreases axes.len() - i,
    {
        if axes[i] != i {
            return false;
        }
        i = i + 1;
    }
    true
}

/// The axes are exactly `[rank-n, rank-n+1, ..., rank-1]` in order.
pub fn is_ascending_suffix(axes: &[usize], rank: usize) -> (r: bool)
    requires
        axes@.len() <= rank,
    ensures
        r == is_suffix_run(axes@, rank as nat),
{
    let offset = rank - axes.len();
    let mut i: usize = 0;
    while i < axes.len()
        invariant
            i <= axes@.len() <= rank,
            offset == rank - axes@.len(),
            forall|j: int| 0 <= j < i ==> axes@[j] == rank - axes@.len() + j,
        decreases axes.len() - i,
    {
        if axes[i] != offset + i {
            return false;
        }
        i = i + 1;
    }
    true
}

/// Left operand: the block can be read as `(m, k)` through GEMM's transpose
/// flag, without a physical permutation, when it is not already in
/// `(free, contracted)` order, its contracted axes are an ascending prefix
/// and its free axes an ascending suffix.
pub fn compute_lhs_trans_flag(lhs_is_id: bool, axes_lhs: &[usize], free_lhs: &[usize], rank: usize) -> (r: bool)
    requires
        !lhs_is_id && is_prefix_run(axes_lhs@) ==> free_lhs@.len() <= rank,
    ensures
        r == (!lhs_is_id && is_prefix_run(axes_lhs@) && is_suffix_run(free_lhs@, rank as nat)),
{
    !lhs_is_id && is_ascending_prefix(axes_lhs) && is_ascending_suffix(free_lhs, rank)
}

/// Right operand: the block can be read as `(k, n)` through GEMM's
/// transpose flag when it is not already in `(contracted, free)` order, its
/// free axes are an ascending prefix and its contracted axes an ascending
/// suffix.
pub fn compute_rhs_trans_flag(rhs_is_id: bool, axes_rhs: &[usize], free_rhs: &[usize], rank: usize) -> (r: bool)
    requires
        !rhs_is_id && is_prefix_run(free_rhs@) ==> axes_rhs@.len() <= rank,
    ensures
        r == (!rhs_is_id && is_prefix_run(free_rhs@) && is_suffix_run(axes_rhs@, rank as nat)),
{
    !rhs_is_id && is_ascending_prefix(free_rhs) && is_ascending_suffix(axes_rhs, rank)
}

} // verus!
