//! The decisions of a block-sparse contraction over axis pairs: the free
//! axes of each operand, how each block is laid out for GEMM, which pairs of
//! blocks meet (their contracted-axis block indices agree) and at which
//! block of the output their product lands, and the GEMM extents of a block.
//!
//! A block is identified by its coordinate: one block index per axis.

use vstd::prelude::*;

use crate::contract_spec::{free_axes_below, is_invalid_argument, LinalgError};
use crate::legs::{
    check_trace_pair_legs, trace_direction_message, trace_structure_message, traceable_pair, LegShape,
};
use crate::gemm_flags::{compute_lhs_trans_flag, compute_rhs_trans_flag, is_prefix_run, is_suffix_run};
use crate::seqs::{concat_all, first_pos, lemma_first_pos};
use crate::strided::prod;
use crate::text::{decimal, push_str, push_usize};

verus! {

/// The block indices of `coord` along `axes`, in the order of `axes`.
pub open spec fn key_of(coord: Seq<usize>, axes: Seq<usize>) -> Seq<usize> {
    axes.map_values(|a: usize| coord[a as int])
}

/// Every axis in `axes` is an axis of every coordinate in `coords`.
pub open spec fn axes_within(coords: Seq<Seq<usize>>, axes: Seq<usize>) -> bool {
    forall|i: int, t: int| 0 <= i < coords.len() && 0 <= t < axes.len() ==> #[trigger] axes[t] < #[trigger] coords[i].len()
}

/// The output coordinate of the product of a left and a right block: the
/// left block indices along the free left axes, then the right ones along
/// the free right axes.
pub open spec fn out_coord_of(lc: Seq<usize>, rc: Seq<usize>, free_lhs: Seq<usize>, free_rhs: Seq<usize>) -> Seq<usize> {
    key_of(lc, free_lhs) + key_of(rc, free_rhs)
}

/// The right blocks that meet left block `i`: those whose block indices
/// along `axes_rhs` equal the left block's along `axes_lhs`, ascending.
pub open spec fn partners(
    lhs: Seq<Seq<usize>>,
    rhs: Seq<Seq<usize>>,
    axes_lhs: Seq<usize>,
    axes_rhs: Seq<usize>,
    i: int,
) -> Seq<int> {
    Seq::new(rhs.len(), |j: int| j).filter(|j: int| key_of(rhs[j], axes_rhs) == key_of(lhs[i], axes_lhs))
}

/// A pair of blocks that meet, with the coordinate of the output block their
/// product lands in.
#[derive(Debug, Clone, PartialEq, Eq)]
pub struct BlockPair {
    /// Position of the left block.
    pub lhs: usize,
    /// Position of the right block.
    pub rhs: usize,
    /// Coordinate of the output block.
    pub out_coord: Vec<usize>,
}

impl BlockPair {
    /// The pair as plain values.
    pub open spec fn view(&self) -> (int, int, Seq<usize>) {
        (self.lhs as int, self.rhs as int, self.out_coord@)
    }
}

/// The pairs of blocks that meet, left block by left block, and for each
/// left block its partners in ascending order.
pub open spec fn block_pairs(
    lhs: Seq<Seq<usize>>,
    rhs: Seq<Seq<usize>>,
    axes_lhs: Seq<usize>,
    axes_rhs: Seq<usize>,
    free_lhs: Seq<usize>,
    free_rhs: Seq<usize>,
) -> Seq<(int, int, Seq<usize>)> {
    concat_all(
        Seq::new(
            lhs.len(),
            |i: int|
                partners(lhs, rhs, axes_lhs, axes_rhs, i).map_values(
                    |j: int| (i, j, out_coord_of(lhs[i], rhs[j], free_lhs, free_rhs)),
                ),
        ),
    )
}

/// The block indices of `coord` along `axes`.
pub fn contracted_key(coord: &[usize], axes: &[usize]) -> (r: Vec<usize>)
    requires
        forall|t: int| 0 <= t < axes@.len() ==> #[trigger] axes@[t] < coord@.len(),
    ensures
        r@ == key_of(coord@, axes@),
{
    let mut key: Vec<usize> = Vec::new();
    let mut t: usize = 0;
    while t < axes.len()
        invariant
            t <= axes@.len(),
            forall|u: int| 0 <= u < axes@.len() ==> #[trigger] axes@[u] < coord@.len(),
            key@ == key_of(coord@, axes@).take(t as int),
        decreases axes.len() - t,
    {
        key.push(coord[axes[t]]);
        assert(key@ =~= key_of(coord@, axes@).take(t + 1));
        t = t + 1;
    }
    key
}

/// `a` and `b` hold the same entries.
fn same_key(a: &Vec<usize>, b: &Vec<usize>) -> (r: bool)
    ensures
        r == (a@ == b@),
{
    if a.len() != b.len() {
        return false;
    }
    let mut i: usize = 0;
    while i < a.len()
        invariant
            i <= a@.len() == b@.len(),
            forall|t: int| 0 <= t < i ==> a@[t] == b@[t],
        decreases a.len() - i,
    {
        if a[i] != b[i] {
            return false;
        }
        i = i + 1;
    }
    assert(a@ =~= b@);
    true
}

/// The axes below `rank` that are not in `axes`, ascending.
pub fn free_axes(axes: &[usize], rank: usize) -> (r: Vec<usize>)
    ensures
        r@ == free_axes_below(axes@, rank as nat),
{
    let ghost p = |t: usize| !axes@.contains(t);
    let ghost all = crate::contract_spec::axes_below(rank as nat);
    let mut free: Vec<usize> = Vec::new();
    let mut a: usize = 0;
    assert(all.take(0).filter(p) =~= Seq::<usize>::empty()) by {
        reveal(Seq::filter);
    }
    while a < rank
        invariant
            a <= rank,
            p == (|t: usize| !axes@.contains(t)),
            all == crate::contract_spec::axes_below(rank as nat),
            free@ == all.take(a as int).filter(p),
        decreases rank - a,
    {
        proof {
            crate::seqs::lemma_filter_take_step(all, p, a as int);
        }
        let mut found = false;
        let mut t: usize = 0;
        while t < axes.len()
            invariant
                t <= axes@.len(),
                found == exists|u: int| 0 <= u < t && axes@[u] == a,
            decreases axes.len() - t,
        {
            if axes[t] == a {
                found = true;
            }
            t = t + 1;
        }
        assert(found == axes@.contains(a));
        if !found {
            free.push(a);
        }
        a = a + 1;
    }
    assert(all.take(a as int) =~= all);
    free
}

/// The pairs of blocks that meet when contracting `axes_lhs` of the left
/// operand, whose blocks have coordinates `lhs`, against `axes_rhs` of the
/// right operand, whose blocks have coordinates `rhs`: for each left block
/// in order, each right block, ascending, whose block indices along
/// `axes_rhs` equal the left block's along `axes_lhs`, with the coordinate
/// of the output block their product accumulates into.
pub fn pair_blocks(
    lhs: &Vec<Vec<usize>>,
    rhs: &Vec<Vec<usize>>,
    axes_lhs: &[usize],
    axes_rhs: &[usize],
    free_lhs: &[usize],
    free_rhs: &[usize],
) -> (r: Vec<BlockPair>)
    requires
        axes_within(lhs@.map_values(|c: Vec<usize>| c@), axes_lhs@),
        axes_within(lhs@.map_values(|c: Vec<usize>| c@), free_lhs@),
        axes_within(rhs@.map_values(|c: Vec<usize>| c@), axes_rhs@),
        axes_within(rhs@.map_values(|c: Vec<usize>| c@), free_rhs@),
    ensures
        r@.map_values(|p: BlockPair| p.view()) == block_pairs(
            lhs@.map_values(|c: Vec<usize>| c@),
            rhs@.map_values(|c: Vec<usize>| c@),
            axes_lhs@,
            axes_rhs@,
            free_lhs@,
            free_rhs@,
        ),
{
    let ghost lv = lhs@.map_values(|c: Vec<usize>| c@);
    let ghost rv = rhs@.map_values(|c: Vec<usize>| c@);
    let ghost rows = Seq::new(
        lv.len(),
        |i: int|
            partners(lv, rv, axes_lhs@, axes_rhs@, i).map_values(
                |j: int| (i, j, out_coord_of(lv[i], rv[j], free_lhs@, free_rhs@)),
            ),
    );
    // The keys of the right blocks.
    let mut rhs_keys: Vec<Vec<usize>> = Vec::new();
    let mut j: usize = 0;
    while j < rhs.len()
        invariant
            j <= rhs@.len() == rv.len(),
            rv == rhs@.map_values(|c: Vec<usize>| c@),
            axes_within(rv, axes_rhs@),
            rhs_keys@.len() == j,
            forall|u: int| 0 <= u < j ==> #[trigger] rhs_keys@[u]@ == key_of(rv[u], axes_rhs@),
        decreases rhs.len() - j,
    {
        assert(rv[j as int] == rhs@[j as int]@);
        proof {
            assert forall|t: int| 0 <= t < axes_rhs@.len() implies #[trigger] axes_rhs@[t] < rhs@[j as int]@.len() by {
                assert(axes_rhs@[t] < rv[j as int].len());
            }
        }
        let k = contracted_key(&rhs[j], axes_rhs);
        rhs_keys.push(k);
        j = j + 1;
    }
    let mut pairs: Vec<BlockPair> = Vec::new();
    let mut i: usize = 0;
    assert(rows.take(0) =~= Seq::<Seq<(int, int, Seq<usize>)>>::empty());
    while i < lhs.len()
        invariant
            i <= lhs@.len() == lv.len(),
            lv == lhs@.map_values(|c: Vec<usize>| c@),
            rv == rhs@.map_values(|c: Vec<usize>| c@),
            rhs_keys@.len() == rv.len(),
            forall|u: int| 0 <= u < rv.len() ==> #[trigger] rhs_keys@[u]@ == key_of(rv[u], axes_rhs@),
            axes_within(lv, axes_lhs@),
            axes_within(lv, free_lhs@),
            axes_within(rv, free_rhs@),
            rows == Seq::new(
                lv.len(),
                |i: int|
                    partners(lv, rv, axes_lhs@, axes_rhs@, i).map_values(
                        |j: int| (i, j, out_coord_of(lv[i], rv[j], free_lhs@, free_rhs@)),
                    ),
            ),
            pairs@.map_values(|p: BlockPair| p.view()) == concat_all(rows.take(i as int)),
        decreases lhs.len() - i,
    {
        assert(lv[i as int] == lhs@[i as int]@);
        proof {
            assert forall|t: int| 0 <= t < axes_lhs@.len() implies #[trigger] axes_lhs@[t] < lhs@[i as int]@.len() by {
                assert(axes_lhs@[t] < lv[i as int].len());
            }
            assert forall|t: int| 0 <= t < free_lhs@.len() implies #[trigger] free_lhs@[t] < lhs@[i as int]@.len() by {
                assert(free_lhs@[t] < lv[i as int].len());
            }
        }
        let key = contracted_key(&lhs[i], axes_lhs);
        let left_part = contracted_key(&lhs[i], free_lhs);
        let ghost head = pairs@.map_values(|p: BlockPair| p.view());
        let ghost cand = Seq::new(rv.len(), |j: int| j);
        let ghost pred = |j: int| key_of(rv[j], axes_rhs@) == key_of(lv[i as int], axes_lhs@);
        let ghost mk = |j: int| (i as int, j, out_coord_of(lv[i as int], rv[j], free_lhs@, free_rhs@));
        let mut j: usize = 0;
        assert(cand.take(0).filter(pred) =~= Seq::<int>::empty()) by {
            reveal(Seq::filter);
        }
        while j < rhs.len()
            invariant
                j <= rhs@.len() == rv.len() == rhs_keys@.len(),
                i < lv.len(),
                lv == lhs@.map_values(|c: Vec<usize>| c@),
                rv == rhs@.map_values(|c: Vec<usize>| c@),
                forall|u: int| 0 <= u < rv.len() ==> #[trigger] rhs_keys@[u]@ == key_of(rv[u], axes_rhs@),
                axes_within(rv, free_rhs@),
                key@ == key_of(lv[i as int], axes_lhs@),
                left_part@ == key_of(lv[i as int], free_lhs@),
                cand == Seq::new(rv.len(), |j: int| j),
                pred == (|j: int| key_of(rv[j], axes_rhs@) == key_of(lv[i as int], axes_lhs@)),
                mk == (|j: int| (i as int, j, out_coord_of(lv[i as int], rv[j], free_lhs@, free_rhs@))),
                pairs@.map_values(|p: BlockPair| p.view()) == head + cand.take(j as int).filter(
                    pred,
                ).map_values(mk),
            decreases rhs.len() - j,
        {
            proof {
                crate::seqs::lemma_filter_take_step(cand, pred, j as int);
            }
            if same_key(&rhs_keys[j], &key) {
                assert(rv[j as int] == rhs@[j as int]@);
                proof {
                    assert forall|t: int| 0 <= t < free_rhs@.len() implies #[trigger] free_rhs@[t] < rhs@[j as int]@.len() by {
                        assert(free_rhs@[t] < rv[j as int].len());
                    }
                }
                let right_part = contracted_key(&rhs[j], free_rhs);
                let mut out_coord: Vec<usize> = left_part.clone();
                let mut t: usize = 0;
                let ghost lp = left_part@;
                assert(out_coord@ == lp);
                while t < right_part.len()
                    invariant
                        t <= right_part@.len(),
                        out_coord@ == lp + right_part@.take(t as int),
                    decreases right_part.len() - t,
                {
                    out_coord.push(right_part[t]);
                    assert(out_coord@ =~= lp + right_part@.take(t + 1));
                    t = t + 1;
                }
                assert(right_part@.take(t as int) =~= right_part@);
                let ghost before = pairs@.map_values(|p: BlockPair| p.view());
                pairs.push(BlockPair { lhs: i, rhs: j, out_coord });
                proof {
                    assert(pred(j as int));
                    assert(cand[j as int] == j as int);
                    assert(pairs@.map_values(|p: BlockPair| p.view()) =~= before.push(mk(j as int)));
                    assert(cand.take(j + 1).filter(pred).map_values(mk) =~= cand.take(j as int).filter(
                        pred,
                    ).map_values(mk).push(mk(j as int)));
                }
            } else {
                proof {
                    assert(cand[j as int] == j as int);
                    assert(!pred(j as int));
                }
            }
            j = j + 1;
        }
        proof {
            assert(cand.take(j as int) =~= cand);
            assert(rows[i as int] == cand.filter(pred).map_values(mk)) by {
                assert(partners(lv, rv, axes_lhs@, axes_rhs@, i as int) =~= cand.filter(pred)) by {
                    assert(pred == (|j: int| key_of(rv[j], axes_rhs@) == key_of(lv[i as int], axes_lhs@)));
                }
            }
            assert(rows.take(i + 1).drop_last() =~= rows.take(i as int));
            assert(rows.take(i + 1).last() == rows[i as int]);
        }
        i = i + 1;
    }
    assert(rows.take(i as int) =~= rows);
    pairs
}

/// How a block of one operand reaches GEMM.
#[derive(Debug, Clone, Copy, PartialEq, Eq)]
pub struct GemmOperand {
    /// The axes are already in GEMM order.
    pub is_identity: bool,
    /// The block is read through GEMM's transpose flag.
    pub trans_flag: bool,
    /// The block has to be permuted physically first.
    pub needs_transpose: bool,
}

/// `order` lists `0, 1, ...` in order.
pub open spec fn in_place(order: Seq<usize>) -> bool {
    is_prefix_run(order)
}

/// How a left block reaches GEMM as `(m, k)`: in place when its axes are
/// already `(free, contracted)`; through the transpose flag when the
/// contracted axes are an ascending prefix and the free axes an ascending
/// suffix; otherwise by a physical permutation.
pub fn lhs_gemm_operand(axes_lhs: &[usize], free_lhs: &[usize], rank: usize) -> (r: GemmOperand)
    requires
        free_lhs@.len() <= rank,
    ensures
        r.is_identity == in_place(free_lhs@ + axes_lhs@),
        r.trans_flag == (!r.is_identity && is_prefix_run(axes_lhs@) && is_suffix_run(free_lhs@, rank as nat)),
        r.needs_transpose == (!r.is_identity && !r.trans_flag),
{
    let is_identity = concatenation_in_place(free_lhs, axes_lhs);
    let trans_flag = compute_lhs_trans_flag(is_identity, axes_lhs, free_lhs, rank);
    GemmOperand { is_identity, trans_flag, needs_transpose: !is_identity && !trans_flag }
}

/// How a right block reaches GEMM as `(k, n)`: in place when its axes are
/// already `(contracted, free)`; through the transpose flag when the free
/// axes are an ascending prefix and the contracted axes an ascending
/// suffix; otherwise by a physical permutation.
pub fn rhs_gemm_operand(axes_rhs: &[usize], free_rhs: &[usize], rank: usize) -> (r: GemmOperand)
    requires
        axes_rhs@.len() <= rank,
    ensures
        r.is_identity == in_place(axes_rhs@ + free_rhs@),
        r.trans_flag == (!r.is_identity && is_prefix_run(free_rhs@) && is_suffix_run(axes_rhs@, rank as nat)),
        r.needs_transpose == (!r.is_identity && !r.trans_flag),
{
    let is_identity = concatenation_in_place(axes_rhs, free_rhs);
    let trans_flag = compute_rhs_trans_flag(is_identity, axes_rhs, free_rhs, rank);
    GemmOperand { is_identity, trans_flag, needs_transpose: !is_identity && !trans_flag }
}

/// `first` followed by `second` lists `0, 1, ...` in order.
fn concatenation_in_place(first: &[usize], second: &[usize]) -> (r: bool)
    ensures
        r == in_place(first@ + second@),
{
    let n = first.len();
    let mut i: usize = 0;
    while i < n
        invariant
            i <= n == first@.len(),
            forall|t: int| 0 <= t < i ==> first@[t] == t,
        decreases n - i,
    {
        if first[i] != i {
            assert((first@ + second@)[i as int] == first@[i as int]);
            return false;
        }
        i = i + 1;
    }
    let mut j: usize = 0;
    while j < second.len()
        invariant
            j <= second@.len(),
            n == first@.len(),
            forall|t: int| 0 <= t < n ==> first@[t] == t,
            forall|t: int| 0 <= t < j ==> second@[t] == n + t,
        decreases second.len() - j,
    {
        if n > usize::MAX - j || second[j] != n + j {
            assert((first@ + second@)[n + j] == second@[j as int]);
            return false;
        }
        j = j + 1;
    }
    assert forall|t: int| 0 <= t < (first@ + second@).len() implies (first@ + second@)[t] == t by {
        if t >= n {
            assert((first@ + second@)[t] == second@[t - n]);
        }
    }
    true
}

/// The rank of the output of a contraction over `num_contracted` axis
/// pairs.
pub fn output_rank(lhs_rank: usize, rhs_rank: usize, num_contracted: usize) -> (r: usize)
    requires
        num_contracted <= lhs_rank,
        num_contracted <= rhs_rank,
        lhs_rank + rhs_rank <= usize::MAX,
    ensures
        r == lhs_rank + rhs_rank - 2 * num_contracted,
{
    lhs_rank + rhs_rank - 2 * num_contracted
}

/// For a full contraction, where `axes_lhs` lists every left axis: the right
/// axis paired with each left axis, in left-axis order.
pub fn full_contraction_rhs_perm(axes_lhs: &[usize], axes_rhs: &[usize], lhs_rank: usize) -> (r: Vec<usize>)
    requires
        axes_lhs@.len() == axes_rhs@.len(),
        forall|l: usize| l < lhs_rank ==> #[trigger] axes_lhs@.contains(l),
    ensures
        r@.len() == lhs_rank,
        forall|l: int| 0 <= l < lhs_rank ==> #[trigger] r@[l] == axes_rhs@[first_pos(axes_lhs@, l as usize)],
{
    let mut perm: Vec<usize> = Vec::new();
    let mut l: usize = 0;
    while l < lhs_rank
        invariant
            l <= lhs_rank,
            axes_lhs@.len() == axes_rhs@.len(),
            forall|u: usize| u < lhs_rank ==> #[trigger] axes_lhs@.contains(u),
            perm@.len() == l,
            forall|u: int| 0 <= u < l ==> #[trigger] perm@[u] == axes_rhs@[first_pos(axes_lhs@, u as usize)],
        decreases lhs_rank - l,
    {
        assert(axes_lhs@.contains(l));
        let pos = crate::contract_spec::axis_position(axes_lhs, l);
        proof {
            lemma_first_pos(axes_lhs@, l);
        }
        perm.push(axes_rhs[pos]);
        l = l + 1;
    }
    perm
}

/// The extent along GEMM of a block with extents `block_shape`: the product
/// of its extents along `axes`, or 1 when that is 0.
pub fn block_gemm_extent(block_shape: &[usize], axes: &[usize]) -> (r: usize)
    requires
        forall|t: int| 0 <= t < axes@.len() ==> #[trigger] axes@[t] < block_shape@.len(),
        forall|k: int| 0 <= k <= axes@.len() ==> #[trigger] prod(key_of(block_shape@, axes@).take(k)) <= usize::MAX,
    ensures
        r == if prod(key_of(block_shape@, axes@)) == 0 {
            1
        } else {
            prod(key_of(block_shape@, axes@))
        },
{
    let ghost ext = key_of(block_shape@, axes@);
    let mut acc: usize = 1;
    let mut t: usize = 0;
    assert(ext.take(0) =~= Seq::<usize>::empty());
    while t < axes.len()
        invariant
            t <= axes@.len() == ext.len(),
            ext == key_of(block_shape@, axes@),
            forall|u: int| 0 <= u < axes@.len() ==> #[trigger] axes@[u] < block_shape@.len(),
            forall|k: int| 0 <= k <= axes@.len() ==> #[trigger] prod(ext.take(k)) <= usize::MAX,
            acc == prod(ext.take(t as int)),
        decreases axes.len() - t,
    {
        let d = block_shape[axes[t]];
        proof {
            assert(ext.take(t + 1).drop_last() =~= ext.take(t as int));
            assert(ext.take(t + 1).last() == d);
            assert(prod(ext.take(t + 1)) <= usize::MAX);
        }
        acc = acc * d;
        t = t + 1;
    }
    assert(ext.take(t as int) =~= ext);
    if acc == 0 {
        1
    } else {
        acc
    }
}

/// The legs that the pairs of a partial trace tie together, pair by pair.
pub open spec fn traced_legs(pairs: Seq<(usize, usize)>) -> Seq<usize>
    decreases pairs.len(),
{
    if pairs.len() == 0 {
        Seq::empty()
    } else {
        traced_legs(pairs.drop_last()).push(pairs.last().0).push(pairs.last().1)
    }
}

/// The legs of a rank-`rank` tensor that a partial trace over `pairs`
/// keeps: those in no pair, in their original order.
pub fn trace_free_axes(pairs: &[(usize, usize)], rank: usize) -> (r: Vec<usize>)
    ensures
        r@ == free_axes_below(traced_legs(pairs@), rank as nat),
{
    let mut legs: Vec<usize> = Vec::new();
    let mut k: usize = 0;
    while k < pairs.len()
        invariant
            k <= pairs@.len(),
            legs@ == traced_legs(pairs@.take(k as int)),
        decreases pairs.len() - k,
    {
        let (a, b) = pairs[k];
        assert(pairs@.take(k + 1).drop_last() =~= pairs@.take(k as int));
        legs.push(a);
        legs.push(b);
        k = k + 1;
    }
    assert(pairs@.take(k as int) =~= pairs@);
    free_axes(&legs, rank)
}

/// A block has support on the diagonal of a partial trace when each pair
/// of traced legs sits at the same block index.
pub open spec fn on_trace_diagonal(coord: Seq<usize>, pairs: Seq<(usize, usize)>) -> bool {
    forall|k: int| 0 <= k < pairs.len() ==> coord[#[trigger] pairs[k].0 as int] == coord[pairs[k].1 as int]
}

/// Whether the block at `coord` contributes to a partial trace over
/// `pairs`: only blocks on the diagonal of every pair do.
pub fn block_on_trace_diagonal(coord: &[usize], pairs: &[(usize, usize)]) -> (r: bool)
    requires
        forall|k: int| 0 <= k < pairs@.len() ==> #[trigger] pairs@[k].0 < coord@.len() && pairs@[k].1 < coord@.len(),
    ensures
        r == on_trace_diagonal(coord@, pairs@),
{
    let mut k: usize = 0;
    while k < pairs.len()
        invariant
            k <= pairs@.len(),
            forall|j: int| 0 <= j < pairs@.len() ==> #[trigger] pairs@[j].0 < coord@.len() && pairs@[j].1 < coord@.len(),
            forall|j: int| 0 <= j < k ==> coord@[#[trigger] pairs@[j].0 as int] == coord@[pairs@[j].1 as int],
        decreases pairs.len() - k,
    {
        let (a, b) = pairs[k];
        if coord[a] != coord[b] {
            return false;
        }
        k = k + 1;
    }
    true
}

/// Message: a traced leg is past the last one.
pub open spec fn trace_range_message(a: nat, b: nat, rank: nat) -> Seq<char> {
    "Trace pair ("@ + decimal(a) + ", "@ + decimal(b) + ") out of range for rank "@ + decimal(rank)
}

/// Message: a leg is paired with itself.
pub open spec fn trace_self_message(a: nat) -> Seq<char> {
    "Self-pair ("@ + decimal(a) + ", "@ + decimal(a) + ") cannot be traced"@
}

/// Message: a leg is in more than one pair.
pub open spec fn trace_reuse_message(a: nat) -> Seq<char> {
    "Leg "@ + decimal(a) + " appears in multiple pairs"@
}

/// Pair `k` of `pairs` ties two distinct legs below `rank`, neither in an
/// earlier pair.
pub open spec fn pair_ok(pairs: Seq<(usize, usize)>, rank: nat, k: int) -> bool {
    &&& pairs[k].0 < rank
    &&& pairs[k].1 < rank
    &&& pairs[k].0 != pairs[k].1
    &&& !traced_legs(pairs.take(k)).contains(pairs[k].0)
    &&& !traced_legs(pairs.take(k)).contains(pairs[k].1)
}

/// The reused leg of pair `k`: its first leg if that is reused, else its
/// second.
pub open spec fn reused_leg(pairs: Seq<(usize, usize)>, k: int) -> usize {
    if traced_legs(pairs.take(k)).contains(pairs[k].0) {
        pairs[k].0
    } else {
        pairs[k].1
    }
}

proof fn lemma_traced_legs_len(pairs: Seq<(usize, usize)>)
    ensures
        traced_legs(pairs).len() == 2 * pairs.len(),
    decreases pairs.len(),
{
    if pairs.len() > 0 {
        lemma_traced_legs_len(pairs.drop_last());
    }
}

/// Checks the pairs of legs of a partial trace of a rank-`rank` tensor:
/// each pair ties two distinct legs in range, and no leg is in two pairs.
/// Reports the first pair that breaks this: a leg out of range first,
/// then a self-pair, then a reused leg. On success, returns which legs are
/// traced.
pub fn validate_trace_pairs(pairs: &[(usize, usize)], rank: usize) -> (r: Result<Vec<bool>, LinalgError>)
    ensures
        r is Ok <==> forall|k: int| 0 <= k < pairs@.len() ==> #[trigger] pair_ok(pairs@, rank as nat, k),
        r matches Ok(used) ==> used@.len() == rank && forall|i: int|
            0 <= i < rank ==> (#[trigger] used@[i] <==> traced_legs(pairs@).contains(i as usize)),
        forall|k: int|
            0 <= k < pairs@.len() && !pair_ok(pairs@, rank as nat, k) && (forall|j: int|
                0 <= j < k ==> #[trigger] pair_ok(pairs@, rank as nat, j)) ==> if pairs@[k].0 >= rank
                || pairs@[k].1 >= rank {
                is_invalid_argument(r, trace_range_message(pairs@[k].0 as nat, pairs@[k].1 as nat, rank as nat))
            } else if pairs@[k].0 == pairs@[k].1 {
                is_invalid_argument(r, trace_self_message(pairs@[k].0 as nat))
            } else {
                is_invalid_argument(r, trace_reuse_message(reused_leg(pairs@, k) as nat))
            },
{
    let mut used: Vec<bool> = Vec::new();
    let mut t: usize = 0;
    while t < rank
        invariant
            t <= rank,
            used@.len() == t,
            forall|j: int| 0 <= j < t ==> !#[trigger] used@[j],
        decreases rank - t,
    {
        used.push(false);
        t = t + 1;
    }
    assert(pairs@.take(0) =~= Seq::<(usize, usize)>::empty());
    let mut k: usize = 0;
    while k < pairs.len()
        invariant
            k <= pairs@.len(),
            used@.len() == rank,
            forall|i: int| 0 <= i < rank ==> (#[trigger] used@[i] <==> traced_legs(pairs@.take(k as int)).contains(
                i as usize,
            )),
            forall|j: int| 0 <= j < k ==> #[trigger] pair_ok(pairs@, rank as nat, j),
        decreases pairs.len() - k,
    {
        let (a, b) = pairs[k];
        let ghost prev = traced_legs(pairs@.take(k as int));
        proof {
            lemma_traced_legs_len(pairs@.take(k as int));
        }
        if a >= rank || b >= rank {
            let mut m = "Trace pair (".to_owned();
            push_usize(&mut m, a);
            push_str(&mut m, ", ");
            push_usize(&mut m, b);
            push_str(&mut m, ") out of range for rank ");
            push_usize(&mut m, rank);
            proof {
                lemma_first_failing_pair(pairs@, rank as nat, k as int);
            }
            return Err(LinalgError::InvalidArgument(m));
        }
        if a == b {
            let mut m = "Self-pair (".to_owned();
            push_usize(&mut m, a);
            push_str(&mut m, ", ");
            push_usize(&mut m, a);
            push_str(&mut m, ") cannot be traced");
            proof {
                lemma_first_failing_pair(pairs@, rank as nat, k as int);
            }
            return Err(LinalgError::InvalidArgument(m));
        }
        if used[a] || used[b] {
            let leg = if used[a] {
                a
            } else {
                b
            };
            let mut m = "Leg ".to_owned();
            push_usize(&mut m, leg);
            push_str(&mut m, " appears in multiple pairs");
            proof {
                lemma_first_failing_pair(pairs@, rank as nat, k as int);
            }
            return Err(LinalgError::InvalidArgument(m));
        }
        used.set(a, true);
        used.set(b, true);
        assert(pairs@.take(k + 1).drop_last() =~= pairs@.take(k as int));
        assert(traced_legs(pairs@.take(k + 1)) == prev.push(a).push(b));
        assert forall|i: int| 0 <= i < rank implies (#[trigger] used@[i] <==> traced_legs(
            pairs@.take(k + 1),
        ).contains(i as usize)) by {
            let next = prev.push(a).push(b);
            if next.contains(i as usize) {
                let w = choose|w: int| 0 <= w < next.len() && next[w] == i as usize;
                if w < prev.len() {
                    assert(prev[w] == i as usize);
                }
            }
            if prev.contains(i as usize) {
                let w = choose|w: int| 0 <= w < prev.len() && prev[w] == i as usize;
                assert(next[w] == i as usize);
            }
            if i == a {
                assert(next[prev.len() as int] == a);
            }
            if i == b {
                assert(next[prev.len() + 1int] == b);
            }
        }
        assert(pair_ok(pairs@, rank as nat, k as int));
        k = k + 1;
    }
    assert(pairs@.take(k as int) =~= pairs@);
    Ok(used)
}

/// Plans a partial trace of a block-sparse tensor whose legs are `legs`:
/// checks the pairs (in range, no self-pair, no leg twice), then the legs
/// of each pair (identical blocks, opposite directions), and returns the
/// legs that stay, in their original order. An empty list of pairs keeps
/// every leg.
pub fn plan_trace(legs: &[LegShape], pairs: &[(usize, usize)]) -> (r: Result<Vec<usize>, LinalgError>)
    ensures
        r is Ok <==> (forall|k: int| 0 <= k < pairs@.len() ==> #[trigger] pair_ok(pairs@, legs@.len() as nat, k))
            && (forall|k: int| 0 <= k < pairs@.len() ==> #[trigger] traceable_pair(legs@, pairs@, k)),
        r matches Ok(free) ==> free@ == free_axes_below(traced_legs(pairs@), legs@.len() as nat),
        forall|k: int|
            0 <= k < pairs@.len() && !pair_ok(pairs@, legs@.len() as nat, k) && (forall|j: int|
                0 <= j < k ==> #[trigger] pair_ok(pairs@, legs@.len() as nat, j)) ==> if pairs@[k].0 >= legs@.len()
                || pairs@[k].1 >= legs@.len() {
                is_invalid_argument(r, trace_range_message(pairs@[k].0 as nat, pairs@[k].1 as nat, legs@.len() as nat))
            } else if pairs@[k].0 == pairs@[k].1 {
                is_invalid_argument(r, trace_self_message(pairs@[k].0 as nat))
            } else {
                is_invalid_argument(r, trace_reuse_message(reused_leg(pairs@, k) as nat))
            },
        (forall|k: int| 0 <= k < pairs@.len() ==> #[trigger] pair_ok(pairs@, legs@.len() as nat, k)) ==> forall|k: int|
            0 <= k < pairs@.len() && !traceable_pair(legs@, pairs@, k) && (forall|j: int|
                0 <= j < k ==> #[trigger] traceable_pair(legs@, pairs@, j)) ==> if legs@[pairs@[k].0 as int].blocks@
                != legs@[pairs@[k].1 as int].blocks@ {
                is_invalid_argument(r, trace_structure_message(pairs@[k].0 as nat, pairs@[k].1 as nat))
            } else {
                is_invalid_argument(r, trace_direction_message(pairs@[k].0 as nat, pairs@[k].1 as nat))
            },
{
    match validate_trace_pairs(pairs, legs.len()) {
        Err(e) => {
            return Err(e);
        },
        Ok(_) => {},
    }
    assert forall|k: int| 0 <= k < pairs@.len() implies #[trigger] pairs@[k].0 < legs@.len() && pairs@[k].1
        < legs@.len() by {
        assert(pair_ok(pairs@, legs@.len() as nat, k));
    }
    match check_trace_pair_legs(legs, pairs) {
        Err(e) => {
            proof {
                assert forall|k: int|
                    0 <= k < pairs@.len() && !traceable_pair(legs@, pairs@, k) && (forall|j: int|
                        0 <= j < k ==> #[trigger] traceable_pair(legs@, pairs@, j)) implies if legs@[pairs@[k].0 as int].blocks@
                    != legs@[pairs@[k].1 as int].blocks@ {
                    is_invalid_argument(Err::<Vec<usize>, LinalgError>(e), trace_structure_message(pairs@[k].0 as nat, pairs@[k].1 as nat))
                } else {
                    is_invalid_argument(Err::<Vec<usize>, LinalgError>(e), trace_direction_message(pairs@[k].0 as nat, pairs@[k].1 as nat))
                } by {
                    let w = choose|w: int|
                        0 <= w < pairs@.len() && !traceable_pair(legs@, pairs@, w) && (forall|j: int|
                            0 <= j < w ==> #[trigger] traceable_pair(legs@, pairs@, j)) && if legs@[pairs@[w].0 as int].blocks@
                            != legs@[pairs@[w].1 as int].blocks@ {
                            is_invalid_argument(Err::<(), LinalgError>(e), trace_structure_message(pairs@[w].0 as nat, pairs@[w].1 as nat))
                        } else {
                            is_invalid_argument(Err::<(), LinalgError>(e), trace_direction_message(pairs@[w].0 as nat, pairs@[w].1 as nat))
                        };
                    if w < k {
                        assert(traceable_pair(legs@, pairs@, w));
                    }
                    if k < w {
                        assert(traceable_pair(legs@, pairs@, k));
                    }
                }
            }
            Err(e)
        },
        Ok(()) => Ok(trace_free_axes(pairs, legs.len())),
    }
}

/// Once pair `k` fails and every earlier one passes, it is the first
/// failing pair, and the checks cannot all pass.
proof fn lemma_first_failing_pair(pairs: Seq<(usize, usize)>, rank: nat, k: int)
    requires
        0 <= k < pairs.len(),
        !pair_ok(pairs, rank, k),
        forall|j: int| 0 <= j < k ==> #[trigger] pair_ok(pairs, rank, j),
    ensures
        !(forall|j: int| 0 <= j < pairs.len() ==> #[trigger] pair_ok(pairs, rank, j)),
        forall|m: int|
            0 <= m < pairs.len() && !pair_ok(pairs, rank, m) && (forall|j: int|
                0 <= j < m ==> #[trigger] pair_ok(pairs, rank, j)) ==> m == k,
{
    assert forall|m: int|
        0 <= m < pairs.len() && !pair_ok(pairs, rank, m) && (forall|j: int|
            0 <= j < m ==> #[trigger] pair_ok(pairs, rank, j)) implies m == k by {
        if m < k {
            assert(pair_ok(pairs, rank, m));
        }
        if m > k {
            assert(pair_ok(pairs, rank, k));
        }
    }
}

/// What a concatenation holds: what one of its parts holds.
proof fn lemma_concat_all_contains<A>(ss: Seq<Seq<A>>, x: A)
    ensures
        concat_all(ss).contains(x) <==> exists|k: int| 0 <= k < ss.len() && #[trigger] ss[k].contains(x),
    decreases ss.len(),
{
    if ss.len() > 0 {
        let d = ss.drop_last();
        lemma_concat_all_contains(d, x);
        let (a, b) = (concat_all(d), ss.last());
        if (a + b).contains(x) {
            let i = choose|i: int| 0 <= i < (a + b).len() && (a + b)[i] == x;
            if i < a.len() {
                assert(a[i] == x);
                let k = choose|k: int| 0 <= k < d.len() && #[trigger] d[k].contains(x);
                assert(ss[k] == d[k]);
            } else {
                assert(b[i - a.len()] == x);
                assert(ss[ss.len() - 1].contains(x));
            }
        }
        if exists|k: int| 0 <= k < ss.len() && #[trigger] ss[k].contains(x) {
            let k = choose|k: int| 0 <= k < ss.len() && #[trigger] ss[k].contains(x);
            if k < d.len() {
                assert(d[k] == ss[k]);
                let i = choose|i: int| 0 <= i < a.len() && a[i] == x;
                assert((a + b)[i] == x);
            } else {
                let i = choose|i: int| 0 <= i < b.len() && b[i] == x;
                assert((a + b)[a.len() + i] == x);
            }
        }
    }
}

/// A concatenation of parts without repeats, no two sharing an element,
/// has no repeats.
proof fn lemma_concat_all_no_duplicates<A>(ss: Seq<Seq<A>>)
    requires
        forall|k: int| 0 <= k < ss.len() ==> #[trigger] ss[k].no_duplicates(),
        forall|k1: int, k2: int, x: A|
            0 <= k1 < ss.len() && 0 <= k2 < ss.len() && k1 != k2 && #[trigger] ss[k1].contains(x) ==> !#[trigger] ss[k2].contains(
                x,
            ),
    ensures
        concat_all(ss).no_duplicates(),
    decreases ss.len(),
{
    if ss.len() > 0 {
        let d = ss.drop_last();
        assert forall|k: int| 0 <= k < d.len() implies #[trigger] d[k].no_duplicates() by {
            assert(d[k] == ss[k]);
        }
        assert forall|k1: int, k2: int, x: A|
            0 <= k1 < d.len() && 0 <= k2 < d.len() && k1 != k2 && #[trigger] d[k1].contains(x) implies !#[trigger] d[k2].contains(
            x,
        ) by {
            assert(d[k1] == ss[k1] && d[k2] == ss[k2]);
        }
        lemma_concat_all_no_duplicates(d);
        let (a, b) = (concat_all(d), ss.last());
        assert(b == ss[ss.len() - 1]);
        assert(ss[ss.len() - 1].no_duplicates());
        assert forall|i: int, j: int| 0 <= i < (a + b).len() && 0 <= j < (a + b).len() && i != j implies (a
            + b)[i] != (a + b)[j] by {
            if i < a.len() && j >= a.len() {
                let x = a[i];
                if (a + b)[j] == x {
                    assert(b[j - a.len()] == x);
                    lemma_concat_all_contains(d, x);
                    let k = choose|k: int| 0 <= k < d.len() && #[trigger] d[k].contains(x);
                    assert(ss[k].contains(x));
                    assert(ss[ss.len() - 1].contains(x));
                }
            } else if j < a.len() && i >= a.len() {
                let x = a[j];
                if (a + b)[i] == x {
                    assert(b[i - a.len()] == x);
                    lemma_concat_all_contains(d, x);
                    let k = choose|k: int| 0 <= k < d.len() && #[trigger] d[k].contains(x);
                    assert(ss[k].contains(x));
                    assert(ss[ss.len() - 1].contains(x));
                }
            } else if i >= a.len() && j >= a.len() {
                assert(b[i - a.len()] != b[j - a.len()]);
            }
        }
    }
}

/// The right blocks that meet left block `i`: exactly those whose keys
/// agree with its, each once.
proof fn lemma_partners(
    lhs: Seq<Seq<usize>>,
    rhs: Seq<Seq<usize>>,
    axes_lhs: Seq<usize>,
    axes_rhs: Seq<usize>,
    i: int,
)
    ensures
        forall|j: int|
            #[trigger] partners(lhs, rhs, axes_lhs, axes_rhs, i).contains(j) <==> 0 <= j < rhs.len() && key_of(
                rhs[j],
                axes_rhs,
            ) == key_of(lhs[i], axes_lhs),
        partners(lhs, rhs, axes_lhs, axes_rhs, i).no_duplicates(),
{
    let all = Seq::new(rhs.len(), |j: int| j);
    let p = |j: int| key_of(rhs[j], axes_rhs) == key_of(lhs[i], axes_lhs);
    crate::dense_plan::lemma_filter_members(all, p);
    assert forall|j: int| all.contains(j) <==> 0 <= j < rhs.len() by {
        if 0 <= j < rhs.len() {
            assert(all[j] == j);
        }
    }
    crate::dense_plan::lemma_filter_unique(all, p);
}

/// The blocks that meet in a block-sparse contraction are exactly the
/// pairs whose block indices agree along the contracted axes: a triple
/// `(i, j, c)` is among the block pairs if and only if left block `i` and
/// right block `j` exist, their keys agree, and `c` is the coordinate of
/// the output block their product lands in. No pair is listed twice.
pub proof fn law_block_pairs_match(
    lhs: Seq<Seq<usize>>,
    rhs: Seq<Seq<usize>>,
    axes_lhs: Seq<usize>,
    axes_rhs: Seq<usize>,
    free_lhs: Seq<usize>,
    free_rhs: Seq<usize>,
    e: (int, int, Seq<usize>),
)
    ensures
        block_pairs(lhs, rhs, axes_lhs, axes_rhs, free_lhs, free_rhs).contains(e) <==> {
            &&& 0 <= e.0 < lhs.len()
            &&& 0 <= e.1 < rhs.len()
            &&& key_of(rhs[e.1], axes_rhs) == key_of(lhs[e.0], axes_lhs)
            &&& e.2 == out_coord_of(lhs[e.0], rhs[e.1], free_lhs, free_rhs)
        },
        block_pairs(lhs, rhs, axes_lhs, axes_rhs, free_lhs, free_rhs).no_duplicates(),
{
    let rows = Seq::new(
        lhs.len(),
        |i: int|
            partners(lhs, rhs, axes_lhs, axes_rhs, i).map_values(
                |j: int| (i, j, out_coord_of(lhs[i], rhs[j], free_lhs, free_rhs)),
            ),
    );
    assert(block_pairs(lhs, rhs, axes_lhs, axes_rhs, free_lhs, free_rhs) == concat_all(rows));
    // What row `i` holds.
    assert forall|i: int, x: (int, int, Seq<usize>)| 0 <= i < lhs.len() implies (#[trigger] rows[i].contains(x)
        <==> (x.0 == i && 0 <= x.1 < rhs.len() && key_of(rhs[x.1], axes_rhs) == key_of(lhs[i], axes_lhs)
        && x.2 == out_coord_of(lhs[i], rhs[x.1], free_lhs, free_rhs))) by {
        lemma_partners(lhs, rhs, axes_lhs, axes_rhs, i);
        let ps = partners(lhs, rhs, axes_lhs, axes_rhs, i);
        if rows[i].contains(x) {
            let t = choose|t: int| 0 <= t < rows[i].len() && rows[i][t] == x;
            assert(ps.contains(ps[t]));
        }
        if x.0 == i && 0 <= x.1 < rhs.len() && key_of(rhs[x.1], axes_rhs) == key_of(lhs[i], axes_lhs) && x.2
            == out_coord_of(lhs[i], rhs[x.1], free_lhs, free_rhs) {
            assert(ps.contains(x.1));
            let t = choose|t: int| 0 <= t < ps.len() && ps[t] == x.1;
            assert(rows[i][t] == x);
        }
    }
    lemma_concat_all_contains(rows, e);
    if 0 <= e.0 < lhs.len() && 0 <= e.1 < rhs.len() && key_of(rhs[e.1], axes_rhs) == key_of(lhs[e.0], axes_lhs)
        && e.2 == out_coord_of(lhs[e.0], rhs[e.1], free_lhs, free_rhs) {
        assert(rows[e.0].contains(e));
    }
    // No repeats: each row has none, and rows differ in their first component.
    assert forall|k: int| 0 <= k < rows.len() implies #[trigger] rows[k].no_duplicates() by {
        lemma_partners(lhs, rhs, axes_lhs, axes_rhs, k);
        let ps = partners(lhs, rhs, axes_lhs, axes_rhs, k);
        assert forall|a: int, b: int| 0 <= a < rows[k].len() && 0 <= b < rows[k].len() && a != b implies rows[k][a]
            != rows[k][b] by {
            assert(ps[a] != ps[b]);
        }
    }
    assert forall|k1: int, k2: int, x: (int, int, Seq<usize>)|
        0 <= k1 < rows.len() && 0 <= k2 < rows.len() && k1 != k2 && #[trigger] rows[k1].contains(x) implies !#[trigger] rows[k2].contains(
        x,
    ) by {}
    lemma_concat_all_no_duplicates(rows);
}

/// A sequence splits into what passes a test and what fails it.
proof fn lemma_filter_split<A>(s: Seq<A>, p: spec_fn(A) -> bool)
    ensures
        s.filter(p).len() + s.filter(|x: A| !p(x)).len() == s.len(),
    decreases s.len(),
{
    if s.len() > 0 {
        let d = s.drop_last();
        lemma_filter_split(d, p);
        assert(d.push(s.last()) =~= s);
        d.lemma_filter_push(s.last(), p);
        d.lemma_filter_push(s.last(), |x: A| !p(x));
    }
}

/// The legs of valid pairs are distinct and in range.
proof fn lemma_traced_legs_valid(pairs: Seq<(usize, usize)>, rank: nat)
    requires
        forall|k: int| 0 <= k < pairs.len() ==> #[trigger] pair_ok(pairs, rank, k),
    ensures
        traced_legs(pairs).no_duplicates(),
        forall|x: usize| #[trigger] traced_legs(pairs).contains(x) ==> x < rank,
    decreases pairs.len(),
{
    if pairs.len() > 0 {
        let d = pairs.drop_last();
        let n = pairs.len() - 1;
        assert forall|k: int| 0 <= k < d.len() implies #[trigger] pair_ok(d, rank, k) by {
            assert(pair_ok(pairs, rank, k));
            assert(d.take(k) =~= pairs.take(k));
        }
        lemma_traced_legs_valid(d, rank);
        assert(pair_ok(pairs, rank, n));
        assert(pairs.take(n) =~= d);
        let prev = traced_legs(d);
        let (a, b) = (pairs.last().0, pairs.last().1);
        let next = prev.push(a).push(b);
        assert(traced_legs(pairs) == next);
        assert forall|i: int, j: int| 0 <= i < next.len() && 0 <= j < next.len() && i != j implies next[i]
            != next[j] by {
            if i < prev.len() && j == prev.len() {
                assert(prev.contains(prev[i]));
            } else if i < prev.len() && j == prev.len() + 1 {
                assert(prev.contains(prev[i]));
            } else if j < prev.len() && i == prev.len() {
                assert(prev.contains(prev[j]));
            } else if j < prev.len() && i == prev.len() + 1 {
                assert(prev.contains(prev[j]));
            } else if i < prev.len() && j < prev.len() {
                assert(prev[i] != prev[j]);
            }
        }
        assert forall|x: usize| #[trigger] next.contains(x) implies x < rank by {
            let w = choose|w: int| 0 <= w < next.len() && next[w] == x;
            if w < prev.len() {
                assert(prev.contains(x));
            }
        }
    }
}

/// A partial trace over valid pairs keeps every leg but the two of each
/// pair: `rank - 2 · pairs.len()` legs.
pub proof fn law_trace_keeps_other_legs(pairs: Seq<(usize, usize)>, rank: nat)
    requires
        rank <= usize::MAX,
        forall|k: int| 0 <= k < pairs.len() ==> #[trigger] pair_ok(pairs, rank, k),
    ensures
        free_axes_below(traced_legs(pairs), rank).len() + 2 * pairs.len() == rank,
{
    let legs = traced_legs(pairs);
    let all = crate::contract_spec::axes_below(rank);
    let traced = |t: usize| legs.contains(t);
    lemma_traced_legs_valid(pairs, rank);
    lemma_traced_legs_len(pairs);
    lemma_filter_split(all, traced);
    let untraced = |x: usize| !traced(x);
    assert(untraced =~= (|t: usize| !legs.contains(t)));
    assert(all.filter(untraced) == free_axes_below(legs, rank));
    crate::dense_plan::lemma_filter_members(all, traced);
    assert(all.no_duplicates()) by {
        assert forall|i: int, j: int| 0 <= i < all.len() && 0 <= j < all.len() && i != j implies all[i] != all[j] by {}
    }
    crate::dense_plan::lemma_filter_unique(all, traced);
    assert forall|x: usize| all.filter(traced).contains(x) <==> legs.contains(x) by {
        if legs.contains(x) {
            assert(x < rank);
            assert(all[x as int] == x);
        }
    }
    crate::dense_plan::lemma_same_members_len(all.filter(traced), legs);
}

} // verus!
