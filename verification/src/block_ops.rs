//! Per-block layout primitives of block-sparse tensors: offsets of blocks
//! stacked along one axis, truncation of a factor to its leading rows or
//! columns, and the extents and coordinates of blocks whose legs are fused.

use vstd::prelude::*;

use crate::backend::MemoryOrder;
use crate::contract_spec::{is_invalid_argument, LinalgError};
use crate::seqs::concat_all;
use crate::text::{decimal, push_str, push_usize};

verus! {

/// Sum of the entries of `s`.
pub open spec fn sum_of(s: Seq<usize>) -> nat
    decreases s.len(),
{
    if s.len() == 0 {
        0
    } else {
        (sum_of(s.drop_last()) + s.last()) as nat
    }
}

/// Sums of a prefix grow with the prefix.
proof fn lemma_sum_of_prefix(s: Seq<usize>, i: int, j: int)
    requires
        0 <= i <= j <= s.len(),
    ensures
        sum_of(s.take(i)) <= sum_of(s.take(j)),
    decreases j - i,
{
    if i < j {
        assert(s.take(j).drop_last() =~= s.take(j - 1));
        lemma_sum_of_prefix(s, i, j - 1);
    }
}

/// Block `i` of blocks of extents `s` stacked in order covers position `p`.
pub open spec fn block_covers(s: Seq<usize>, i: int, p: int) -> bool {
    0 <= i < s.len() && sum_of(s.take(i)) <= p < sum_of(s.take(i)) + s[i]
}

/// Blocks stacked one after another along an axis, each at the sum of the
/// extents before it, tile the axis: every position below the total extent
/// lies in exactly one block.
pub proof fn law_stacked_blocks_tile(s: Seq<usize>, p: int)
    requires
        0 <= p < sum_of(s),
    ensures
        exists|i: int| #[trigger] block_covers(s, i, p),
        forall|i: int, j: int| #[trigger] block_covers(s, i, p) && #[trigger] block_covers(s, j, p) ==> i == j,
    decreases s.len(),
{
    let n = s.len() as int;
    assert(s.take(n) =~= s);
    assert(s.take(n - 1) =~= s.drop_last());
    if p >= sum_of(s.drop_last()) {
        assert(block_covers(s, n - 1, p));
    } else {
        law_stacked_blocks_tile(s.drop_last(), p);
        let i = choose|i: int| #[trigger] block_covers(s.drop_last(), i, p);
        assert(s.drop_last().take(i) =~= s.take(i));
        assert(block_covers(s, i, p));
    }
    assert forall|i: int, j: int| #[trigger] block_covers(s, i, p) && #[trigger] block_covers(s, j, p) implies i
        == j by {
        if i < j {
            lemma_sum_of_prefix(s, i + 1, j);
            assert(s.take(i + 1).drop_last() =~= s.take(i));
        }
        if j < i {
            lemma_sum_of_prefix(s, j + 1, i);
            assert(s.take(j + 1).drop_last() =~= s.take(j));
        }
    }
}

/// Where each of the blocks of extents `dims`, stacked in order along one
/// axis, begins: entry `i` is the sum of the extents before block `i`.
pub fn cumulative_offsets(dims: &[usize]) -> (r: Vec<usize>)
    requires
        sum_of(dims@) <= usize::MAX,
    ensures
        r@.len() == dims@.len(),
        forall|i: int| 0 <= i < dims@.len() ==> r@[i] == sum_of(#[trigger] dims@.take(i)),
{
    let mut offsets: Vec<usize> = Vec::new();
    let mut offset: usize = 0;
    let mut i: usize = 0;
    while i < dims.len()
        invariant
            i <= dims@.len(),
            sum_of(dims@) <= usize::MAX,
            offset == sum_of(dims@.take(i as int)),
            offsets@.len() == i,
            forall|k: int| 0 <= k < i ==> offsets@[k] == sum_of(#[trigger] dims@.take(k)),
        decreases dims.len() - i,
    {
        offsets.push(offset);
        proof {
            assert(dims@.take(i + 1).drop_last() =~= dims@.take(i as int));
            lemma_sum_of_prefix(dims@, i + 1, dims@.len() as int);
            assert(dims@.take(dims@.len() as int) =~= dims@);
        }
        offset = offset + dims[i];
        i = i + 1;
    }
    offsets
}

/// The rows of an `rows × width` row-major matrix `data`, each cut to its
/// first `keep` entries.
pub open spec fn leading_columns<T>(data: Seq<T>, rows: nat, width: nat, keep: nat) -> Seq<Seq<T>> {
    Seq::new(rows, |r: int| data.subrange(r * width, r * width + keep))
}

/// `r * w + w` is `(r + 1) * w`, and it stays within `n * w` for `r < n`.
proof fn lemma_row_end(r: int, w: int, n: int)
    requires
        0 <= r < n,
        0 <= w,
    ensures
        r * w + w == (r + 1) * w,
        (r + 1) * w <= n * w,
        0 <= r * w,
{
    assert(r * w + w == (r + 1) * w) by (nonlinear_arith);
    assert((r + 1) * w <= n * w) by (nonlinear_arith)
        requires
            r + 1 <= n,
            0 <= w,
    ;
    assert(0 <= r * w) by (nonlinear_arith)
        requires
            0 <= r,
            0 <= w,
    ;
}

/// Appends the first `keep` entries of each of the `rows` rows, of length
/// `width`, of `data`.
fn keep_leading<T: Copy>(data: &[T], rows: usize, width: usize, keep: usize) -> (r: Vec<T>)
    requires
        keep <= width,
        rows * width <= data@.len(),
    ensures
        r@ == concat_all(leading_columns(data@, rows as nat, width as nat, keep as nat)),
{
    let ghost parts = leading_columns(data@, rows as nat, width as nat, keep as nat);
    let total = data.len();
    let mut buf: Vec<T> = Vec::new();
    let mut row: usize = 0;
    while row < rows
        invariant
            row <= rows,
            total == data@.len(),
            keep <= width,
            rows * width <= data@.len(),
            parts == leading_columns(data@, rows as nat, width as nat, keep as nat),
            buf@ == concat_all(parts.take(row as int)),
        decreases rows - row,
    {
        proof {
            lemma_row_end(row as int, width as int, rows as int);
        }
        let start = row * width;
        let ghost before = buf@;
        let mut c: usize = 0;
        while c < keep
            invariant
                c <= keep <= width,
                total == data@.len(),
                start + width <= data@.len(),
                buf@ == before + data@.subrange(start as int, start + c),
            decreases keep - c,
        {
            buf.push(data[start + c]);
            assert(data@.subrange(start as int, start + c + 1) =~= data@.subrange(
                start as int,
                start + c,
            ).push(data@[start + c]));
            c = c + 1;
        }
        assert(parts.take(row + 1).drop_last() =~= parts.take(row as int));
        assert(parts[row as int] == data@.subrange(start as int, start + keep));
        row = row + 1;
    }
    assert(parts.take(rows as int) =~= parts);
    buf
}

/// The first `n` entries of `data`.
fn leading<T: Copy>(data: &[T], n: usize) -> (r: Vec<T>)
    requires
        n <= data@.len(),
    ensures
        r@ == data@.take(n as int),
{
    let mut buf: Vec<T> = Vec::new();
    let mut i: usize = 0;
    while i < n
        invariant
            i <= n <= data@.len(),
            buf@ == data@.take(i as int),
        decreases n - i,
    {
        buf.push(data[i]);
        assert(data@.take(i + 1) =~= data@.take(i as int).push(data@[i as int]));
        i = i + 1;
    }
    buf
}

/// The first `k_t` columns of the `m × k_f` matrix `data` laid out in
/// `order`, as an `m × k_t` matrix in the same order.
pub fn truncate_cols<T: Copy>(data: &[T], m: usize, k_f: usize, k_t: usize, order: MemoryOrder) -> (r: Vec<T>)
    requires
        k_t <= k_f,
        m * k_f <= data@.len(),
    ensures
        match order {
            MemoryOrder::RowMajor => r@ == concat_all(
                leading_columns(data@, m as nat, k_f as nat, k_t as nat),
            ),
            MemoryOrder::ColumnMajor => r@ == data@.take(k_t * m),
        },
{
    match order {
        MemoryOrder::RowMajor => keep_leading(data, m, k_f, k_t),
        MemoryOrder::ColumnMajor => {
            let _total = data.len();
            assert(k_t * m <= m * k_f) by (nonlinear_arith)
                requires
                    k_t <= k_f,
            ;
            leading(data, k_t * m)
        },
    }
}

/// The first `k_t` rows of the `k_f × n` matrix `data` laid out in `order`,
/// as a `k_t × n` matrix in the same order.
pub fn truncate_rows<T: Copy>(data: &[T], k_f: usize, n: usize, k_t: usize, order: MemoryOrder) -> (r: Vec<T>)
    requires
        k_t <= k_f,
        k_f * n <= data@.len(),
    ensures
        match order {
            MemoryOrder::RowMajor => r@ == data@.take(k_t * n),
            MemoryOrder::ColumnMajor => r@ == concat_all(
                leading_columns(data@, n as nat, k_f as nat, k_t as nat),
            ),
        },
{
    match order {
        MemoryOrder::RowMajor => {
            let _total = data.len();
            assert(k_t * n <= k_f * n) by (nonlinear_arith)
                requires
                    k_t <= k_f,
            ;
            leading(data, k_t * n)
        },
        MemoryOrder::ColumnMajor => {
            assert(n * k_f == k_f * n) by (nonlinear_arith);
            keep_leading(data, n, k_f, k_t)
        },
    }
}

/// Message: a row-leg count out of range.
pub open spec fn nrow_message(nrow: nat, rank: nat) -> Seq<char> {
    "nrow must satisfy 1 <= nrow < rank, got nrow="@ + decimal(nrow) + " for rank="@ + decimal(rank)
}

/// Checks that `nrow` legs can form the rows of a matrix of a rank-`rank`
/// tensor, leaving at least one leg for the columns: `1 <= nrow < rank`.
pub fn validate_nrow(rank: usize, nrow: usize) -> (r: Result<(), LinalgError>)
    ensures
        1 <= nrow < rank ==> r is Ok,
        !(1 <= nrow < rank) ==> is_invalid_argument(r, nrow_message(nrow as nat, rank as nat)),
{
    if nrow == 0 || nrow >= rank {
        let mut m = "nrow must satisfy 1 <= nrow < rank, got nrow=".to_owned();
        push_usize(&mut m, nrow);
        push_str(&mut m, " for rank=");
        push_usize(&mut m, rank);
        return Err(LinalgError::InvalidArgument(m));
    }
    Ok(())
}

/// Message: the axis to scale is past the last leg.
pub open spec fn scale_axis_message(axis: nat, rank: nat) -> Seq<char> {
    "axis "@ + decimal(axis) + " out of range for rank "@ + decimal(rank)
}

/// Checks that `axis` names a leg of a rank-`rank` tensor before the
/// tensor is scaled along it.
pub fn check_scale_axis(axis: usize, rank: usize) -> (r: Result<(), LinalgError>)
    ensures
        axis < rank ==> r is Ok,
        axis >= rank ==> is_invalid_argument(r, scale_axis_message(axis as nat, rank as nat)),
{
    if axis >= rank {
        let mut m = "axis ".to_owned();
        push_usize(&mut m, axis);
        push_str(&mut m, " out of range for rank ");
        push_usize(&mut m, rank);
        return Err(LinalgError::InvalidArgument(m));
    }
    Ok(())
}

/// Message: a weight list does not match the block it scales.
pub open spec fn weight_length_message(weights: nat, dim: nat, axis: nat, sector: Seq<char>) -> Seq<char> {
    "weight length "@ + decimal(weights) + " doesn't match block dimension "@ + decimal(dim) + " at axis "@
        + decimal(axis) + " for sector "@ + sector
}

/// Checks that the weights for the sector printed as `sector` have one
/// entry per position of the block along the scaled axis, whose extent is
/// `dim`.
pub fn check_weight_length(weights_len: usize, dim: usize, axis: usize, sector: &str) -> (r: Result<(), LinalgError>)
    ensures
        weights_len == dim ==> r is Ok,
        weights_len != dim ==> is_invalid_argument(
            r,
            weight_length_message(weights_len as nat, dim as nat, axis as nat, sector@),
        ),
{
    if weights_len != dim {
        let mut m = "weight length ".to_owned();
        push_usize(&mut m, weights_len);
        push_str(&mut m, " doesn't match block dimension ");
        push_usize(&mut m, dim);
        push_str(&mut m, " at axis ");
        push_usize(&mut m, axis);
        push_str(&mut m, " for sector ");
        push_str(&mut m, sector);
        return Err(LinalgError::InvalidArgument(m));
    }
    Ok(())
}

/// Message: fewer than two legs to fuse.
pub open spec fn fuse_count_message(count: nat) -> Seq<char> {
    "fuse_legs count must be >= 2, got "@ + decimal(count)
}

/// Message: the legs to fuse run past the last leg.
pub open spec fn fuse_range_message(start: nat, end: nat, rank: nat) -> Seq<char> {
    "fuse_legs range ["@ + decimal(start) + ".."@ + decimal(end) + "] out of range for rank "@
        + decimal(rank)
}

/// Checks that legs `start .. start + count` of a rank-`rank` tensor can be
/// fused: at least two of them, all within the tensor.
pub fn check_fuse_range(rank: usize, start: usize, count: usize) -> (r: Result<(), LinalgError>)
    requires
        start + count <= usize::MAX,
    ensures
        count < 2 ==> is_invalid_argument(r, fuse_count_message(count as nat)),
        count >= 2 && start + count > rank ==> is_invalid_argument(
            r,
            fuse_range_message(start as nat, (start + count) as nat, rank as nat),
        ),
        count >= 2 && start + count <= rank ==> r is Ok,
{
    if count < 2 {
        let mut m = "fuse_legs count must be >= 2, got ".to_owned();
        push_usize(&mut m, count);
        return Err(LinalgError::InvalidArgument(m));
    }
    if start + count > rank {
        let mut m = "fuse_legs range [".to_owned();
        push_usize(&mut m, start);
        push_str(&mut m, "..");
        push_usize(&mut m, start + count);
        push_str(&mut m, "] out of range for rank ");
        push_usize(&mut m, rank);
        return Err(LinalgError::InvalidArgument(m));
    }
    Ok(())
}

/// The coordinate of a block after fusing legs `start .. start + count`:
/// the block indices before them, the fused block index, then the block
/// indices after them.
pub fn fused_coord(coord: &[usize], start: usize, count: usize, fused_block: usize) -> (r: Vec<usize>)
    requires
        start + count <= coord@.len(),
    ensures
        r@ == coord@.take(start as int).push(fused_block) + coord@.skip(start + count),
{
    let n = coord.len();
    let mut out: Vec<usize> = Vec::new();
    let mut i: usize = 0;
    while i < start
        invariant
            i <= start <= coord@.len(),
            out@ == coord@.take(i as int),
        decreases start - i,
    {
        out.push(coord[i]);
        assert(coord@.take(i + 1) =~= coord@.take(i as int).push(coord@[i as int]));
        i = i + 1;
    }
    out.push(fused_block);
    let ghost head = out@;
    let mut j: usize = start + count;
    while j < coord.len()
        invariant
            start + count <= j <= coord@.len(),
            out@ == head + coord@.subrange(start + count, j as int),
        decreases coord.len() - j,
    {
        out.push(coord[j]);
        assert(coord@.subrange(start + count, j + 1) =~= coord@.subrange(start + count, j as int).push(
            coord@[j as int],
        ));
        j = j + 1;
    }
    assert(coord@.subrange(start + count, j as int) =~= coord@.skip(start + count));
    out
}

/// Product of the extents of `s`, or 1 when that is 0.
pub open spec fn extent_or_one(s: Seq<usize>) -> nat {
    if crate::strided::prod(s) == 0 {
        1
    } else {
        crate::strided::prod(s)
    }
}

/// Product of `s[lo..hi]`, or 1 when that is 0.
fn span_product(s: &[usize], lo: usize, hi: usize) -> (r: usize)
    requires
        lo <= hi <= s@.len(),
        forall|k: int| lo <= k <= hi ==> #[trigger] crate::strided::prod(s@.subrange(lo as int, k))
            <= usize::MAX,
    ensures
        r == extent_or_one(s@.subrange(lo as int, hi as int)),
{
    let mut acc: usize = 1;
    let mut k: usize = lo;
    assert(s@.subrange(lo as int, lo as int) =~= Seq::<usize>::empty());
    while k < hi
        invariant
            lo <= k <= hi <= s@.len(),
            forall|t: int| lo <= t <= hi ==> #[trigger] crate::strided::prod(s@.subrange(lo as int, t))
                <= usize::MAX,
            acc == crate::strided::prod(s@.subrange(lo as int, k as int)),
        decreases hi - k,
    {
        proof {
            assert(s@.subrange(lo as int, k + 1).drop_last() =~= s@.subrange(lo as int, k as int));
            assert(s@.subrange(lo as int, k + 1).last() == s@[k as int]);
            assert(crate::strided::prod(s@.subrange(lo as int, k + 1)) <= usize::MAX);
        }
        acc = acc * s[k];
        k = k + 1;
    }
    if acc == 0 {
        1
    } else {
        acc
    }
}

/// The running products of every span of `s` fit in a `usize`.
pub open spec fn span_products_fit(s: Seq<usize>, lo: int, hi: int) -> bool {
    forall|k: int| lo <= k <= hi ==> #[trigger] crate::strided::prod(s.subrange(lo, k)) <= usize::MAX
}

/// The extents of a block around the legs being fused: the product of
/// those before them, of the fused ones, and of those after them, each at
/// least 1.
pub fn fuse_extents(block_shape: &[usize], start: usize, count: usize) -> (r: (usize, usize, usize))
    requires
        start + count <= block_shape@.len(),
        span_products_fit(block_shape@, 0, start as int),
        span_products_fit(block_shape@, start as int, start + count),
        span_products_fit(block_shape@, start + count, block_shape@.len() as int),
    ensures
        r.0 == extent_or_one(block_shape@.take(start as int)),
        r.1 == extent_or_one(block_shape@.subrange(start as int, start + count)),
        r.2 == extent_or_one(block_shape@.skip(start + count)),
{
    let n = block_shape.len();
    let leading = span_product(block_shape, 0, start);
    let fused = span_product(block_shape, start, start + count);
    let trailing = span_product(block_shape, start + count, n);
    assert(block_shape@.subrange(0, start as int) =~= block_shape@.take(start as int));
    assert(block_shape@.subrange(start + count, n as int) =~= block_shape@.skip(start + count));
    (leading, fused, trailing)
}

} // verus!
