//! Copies between a matrix and one of its rectangular sub-blocks, in either
//! memory order: the gather and scatter steps that move the blocks of a
//! block-sparse tensor into one dense matrix per sector and back, and the
//! copy of a block into its slot of a fused block.

use vstd::prelude::*;

use crate::backend::MemoryOrder;

verus! {

/// `d` with the entries from `at` on replaced by `s`.
pub open spec fn splice<T>(d: Seq<T>, at: int, s: Seq<T>) -> Seq<T> {
    d.take(at) + s + d.skip(at + s.len())
}

/// `d` after copying, for each `i < count` in turn, the slab of `src` of
/// length `len` at `src_base + i * src_stride` to `dst_base + i * dst_stride`.
pub open spec fn copy_slabs<T>(
    d: Seq<T>,
    src: Seq<T>,
    count: nat,
    len: nat,
    src_stride: nat,
    dst_stride: nat,
    src_base: nat,
    dst_base: nat,
) -> Seq<T>
    decreases count,
{
    if count == 0 {
        d
    } else {
        let i = (count - 1) as nat;
        splice(
            copy_slabs(d, src, i, len, src_stride, dst_stride, src_base, dst_base),
            (dst_base + i * dst_stride) as int,
            src.subrange((src_base + i * src_stride) as int, (src_base + i * src_stride + len) as int),
        )
    }
}

/// The last of `count` slabs of length `len`, `stride` apart from `base`,
/// ends within `total`.
pub open spec fn slabs_fit(count: nat, len: nat, stride: nat, base: nat, total: nat) -> bool {
    count > 0 ==> base + (count - 1) * stride + len <= total
}

/// Entry `j` of slab `i`.
pub open spec fn slab_pos(base: nat, i: int, stride: nat, j: int) -> int {
    base + i * stride + j
}

proof fn lemma_splice<T>(d: Seq<T>, at: int, s: Seq<T>)
    requires
        0 <= at,
        at + s.len() <= d.len(),
    ensures
        splice(d, at, s).len() == d.len(),
        forall|p: int| 0 <= p < at ==> #[trigger] splice(d, at, s)[p] == d[p],
        forall|p: int| at + s.len() <= p < d.len() ==> #[trigger] splice(d, at, s)[p] == d[p],
        forall|p: int| at <= p < at + s.len() ==> #[trigger] splice(d, at, s)[p] == s[p - at],
{
}

/// Fewer slabs fit where more do.
proof fn lemma_slabs_fit_fewer(count: nat, len: nat, stride: nat, base: nat, total: nat)
    requires
        count > 0,
        slabs_fit(count, len, stride, base, total),
    ensures
        slabs_fit((count - 1) as nat, len, stride, base, total),
{
    if count > 1 {
        assert((count - 2) * stride <= (count - 1) * stride) by (nonlinear_arith)
            requires
                count > 1,
        ;
    }
}

/// Copying slabs keeps the length of the destination.
proof fn lemma_copy_slabs_len<T>(
    d: Seq<T>,
    src: Seq<T>,
    count: nat,
    len: nat,
    ss: nat,
    ds: nat,
    sb: nat,
    db: nat,
)
    requires
        slabs_fit(count, len, ss, sb, src.len()),
        slabs_fit(count, len, ds, db, d.len()),
    ensures
        copy_slabs(d, src, count, len, ss, ds, sb, db).len() == d.len(),
    decreases count,
{
    if count > 0 {
        let k = (count - 1) as nat;
        lemma_slabs_fit_fewer(count, len, ss, sb, src.len());
        lemma_slabs_fit_fewer(count, len, ds, db, d.len());
        lemma_copy_slabs_len(d, src, k, len, ss, ds, sb, db);
        let prev = copy_slabs(d, src, k, len, ss, ds, sb, db);
        let slab = src.subrange((sb + k * ss) as int, (sb + k * ss + len) as int);
        lemma_splice(prev, (db + k * ds) as int, slab);
    }
}

/// Entry `j` of slab `i` of the destination holds entry `j` of slab `i` of
/// the source, when the destination slabs do not overlap.
proof fn lemma_copy_slabs_at<T>(
    d: Seq<T>,
    src: Seq<T>,
    count: nat,
    len: nat,
    ss: nat,
    ds: nat,
    sb: nat,
    db: nat,
    i: int,
    j: int,
)
    requires
        slabs_fit(count, len, ss, sb, src.len()),
        slabs_fit(count, len, ds, db, d.len()),
        len <= ds,
        0 <= i < count,
        0 <= j < len,
    ensures
        copy_slabs(d, src, count, len, ss, ds, sb, db)[slab_pos(db, i, ds, j)] == src[slab_pos(sb, i, ss, j)],
    decreases count,
{
    let k = (count - 1) as nat;
    lemma_slabs_fit_fewer(count, len, ss, sb, src.len());
    lemma_slabs_fit_fewer(count, len, ds, db, d.len());
    lemma_copy_slabs_len(d, src, k, len, ss, ds, sb, db);
    let prev = copy_slabs(d, src, k, len, ss, ds, sb, db);
    let slab = src.subrange((sb + k * ss) as int, (sb + k * ss + len) as int);
    lemma_splice(prev, (db + k * ds) as int, slab);
    if i < k {
        assert(i * ds + j < k * ds) by (nonlinear_arith)
            requires
                0 <= i < k,
                0 <= j < len,
                len <= ds,
        ;
        assert(0 <= i * ds) by (nonlinear_arith)
            requires
                0 <= i,
        ;
        lemma_copy_slabs_at(d, src, k, len, ss, ds, sb, db, i, j);
    }
}

/// An entry of the destination outside every slab keeps its value.
proof fn lemma_copy_slabs_outside<T>(
    d: Seq<T>,
    src: Seq<T>,
    count: nat,
    len: nat,
    ss: nat,
    ds: nat,
    sb: nat,
    db: nat,
    p: int,
)
    requires
        slabs_fit(count, len, ss, sb, src.len()),
        slabs_fit(count, len, ds, db, d.len()),
        0 <= p < d.len(),
        forall|i: int|
            0 <= i < count ==> p < #[trigger] slab_pos(db, i, ds, 0) || slab_pos(db, i, ds, 0) + len <= p,
    ensures
        copy_slabs(d, src, count, len, ss, ds, sb, db)[p] == d[p],
    decreases count,
{
    if count > 0 {
        let k = (count - 1) as nat;
        lemma_slabs_fit_fewer(count, len, ss, sb, src.len());
        lemma_slabs_fit_fewer(count, len, ds, db, d.len());
        lemma_copy_slabs_len(d, src, k, len, ss, ds, sb, db);
        let prev = copy_slabs(d, src, k, len, ss, ds, sb, db);
        let slab = src.subrange((sb + k * ss) as int, (sb + k * ss + len) as int);
        lemma_splice(prev, (db + k * ds) as int, slab);
        assert(p < slab_pos(db, k as int, ds, 0) || slab_pos(db, k as int, ds, 0) + len <= p);
        lemma_copy_slabs_outside(d, src, k, len, ss, ds, sb, db, p);
    }
}

/// A sub-block of rows `r .. r + a` and columns `c .. c + b` of a
/// `rows × cols` grid stored one row after another in `total` entries is
/// `a` slabs of length `b`, `cols` apart from `r * cols + c`, all in range.
proof fn lemma_sub_block_fits(rows: nat, cols: nat, r: nat, a: nat, c: nat, b: nat, total: nat)
    requires
        r + a <= rows,
        c + b <= cols,
        rows * cols <= total,
    ensures
        slabs_fit(a, b, cols, r * cols + c, total),
{
    if a > 0 {
        assert((r + a) * cols <= rows * cols) by (nonlinear_arith)
            requires
                r + a <= rows,
        ;
        assert(r * cols + (a - 1) * cols + cols == (r + a) * cols) by (nonlinear_arith);
    }
}

/// In a grid `cols` wide, an entry that falls in the band of columns
/// `lo .. lo + width` of row `row` is in that row and band.
proof fn lemma_in_band(cols: int, r: int, c: int, row: int, lo: int, width: int)
    requires
        0 <= c < cols,
        0 <= lo,
        lo + width <= cols,
        0 <= r,
        0 <= row,
        row * cols + lo <= r * cols + c < row * cols + lo + width,
    ensures
        r == row,
        lo <= c < lo + width,
{
    if r < row {
        assert(r * cols + cols <= row * cols) by (nonlinear_arith)
            requires
                r < row,
                cols >= 0,
        ;
    }
    if r > row {
        assert(row * cols + cols <= r * cols) by (nonlinear_arith)
            requires
                r > row,
                cols >= 0,
        ;
    }
}

/// Copies `count` slabs of length `len` from `src` into `dst`: slab `i`
/// runs from `src_base + i * src_stride` in `src` and lands at
/// `dst_base + i * dst_stride` in `dst`.
fn copy_strided_slabs<T: Copy>(
    src: &[T],
    dst: &mut [T],
    count: usize,
    len: usize,
    src_stride: usize,
    dst_stride: usize,
    src_base: usize,
    dst_base: usize,
)
    requires
        slabs_fit(count as nat, len as nat, src_stride as nat, src_base as nat, src@.len()),
        slabs_fit(count as nat, len as nat, dst_stride as nat, dst_base as nat, old(dst)@.len()),
    ensures
        final(dst)@ == copy_slabs(
            old(dst)@,
            src@,
            count as nat,
            len as nat,
            src_stride as nat,
            dst_stride as nat,
            src_base as nat,
            dst_base as nat,
        ),
{
    let src_total = src.len();
    let dst_total = dst.len();
    let mut i: usize = 0;
    while i < count
        invariant
            i <= count,
            src_total == src@.len(),
            dst_total == dst@.len(),
            slabs_fit(count as nat, len as nat, src_stride as nat, src_base as nat, src@.len()),
            slabs_fit(count as nat, len as nat, dst_stride as nat, dst_base as nat, dst@.len()),
            dst@.len() == old(dst)@.len(),
            dst@ == copy_slabs(
                old(dst)@,
                src@,
                i as nat,
                len as nat,
                src_stride as nat,
                dst_stride as nat,
                src_base as nat,
                dst_base as nat,
            ),
        decreases count - i,
    {
        proof {
            let c = (count - 1) as int;
            assert(i * src_stride <= c * src_stride) by (nonlinear_arith)
                requires
                    i <= c,
            ;
            assert(i * dst_stride <= c * dst_stride) by (nonlinear_arith)
                requires
                    i <= c,
            ;
            assert(0 <= i * src_stride && 0 <= i * dst_stride) by (nonlinear_arith);
        }
        let src_start = src_base + i * src_stride;
        let dst_start = dst_base + i * dst_stride;
        let ghost before = dst@;
        let ghost slab = src@.subrange(src_start as int, src_start + len);
        let mut j: usize = 0;
        while j < len
            invariant
                j <= len,
                src_total == src@.len(),
                dst_total == dst@.len(),
                src_start + len <= src@.len(),
                dst_start + len <= dst@.len(),
                dst@.len() == before.len(),
                slab == src@.subrange(src_start as int, src_start + len),
                dst@ == splice(before, dst_start as int, slab.take(j as int)),
            decreases len - j,
        {
            let v = src[src_start + j];
            dst[dst_start + j] = v;
            assert(dst@ =~= splice(before, dst_start as int, slab.take(j + 1)));
            j = j + 1;
        }
        assert(slab.take(len as int) =~= slab);
        i = i + 1;
    }
}


/// Where entry `(r, c)` of a `rows × cols` matrix stored in `order` sits.
pub open spec fn grid_offset(order: MemoryOrder, rows: int, cols: int, r: int, c: int) -> int {
    match order {
        MemoryOrder::RowMajor => r * cols + c,
        MemoryOrder::ColumnMajor => c * rows + r,
    }
}

/// Rows `r .. r + a` and columns `c .. c + b` lie within an `m × n` matrix.
pub open spec fn sub_block_fits(m: nat, n: nat, r: nat, c: nat, a: nat, b: nat) -> bool {
    r + a <= m && c + b <= n
}

/// A row-major matrix `n` wide after the row-major `m_i × n_j` block
/// `block` is written at row `row_off`, column `col_off`.
pub open spec fn placed_rows<T>(matrix: Seq<T>, block: Seq<T>, n: nat, row_off: nat, col_off: nat, m_i: nat, n_j: nat) -> Seq<T> {
    copy_slabs(matrix, block, m_i, n_j, n_j, n, 0, row_off * n + col_off)
}

/// `scratch` after the row-major `m_i × n_j` block at row `row_off`,
/// column `col_off` of a row-major matrix `n` wide is read into it.
pub open spec fn taken_rows<T>(scratch: Seq<T>, matrix: Seq<T>, n: nat, row_off: nat, col_off: nat, m_i: nat, n_j: nat) -> Seq<T> {
    copy_slabs(scratch, matrix, m_i, n_j, n, n_j, row_off * n + col_off, 0)
}

/// The `m × n` matrix `matrix`, stored in `order`, after the `m_i × n_j`
/// block `block` is written at row `row_off`, column `col_off`. A
/// column-major matrix is the row-major storage of its transpose.
pub open spec fn placed<T>(
    matrix: Seq<T>,
    block: Seq<T>,
    order: MemoryOrder,
    m: nat,
    n: nat,
    row_off: nat,
    col_off: nat,
    m_i: nat,
    n_j: nat,
) -> Seq<T> {
    match order {
        MemoryOrder::RowMajor => placed_rows(matrix, block, n, row_off, col_off, m_i, n_j),
        MemoryOrder::ColumnMajor => placed_rows(matrix, block, m, col_off, row_off, n_j, m_i),
    }
}

/// `scratch` after the `m_i × n_j` block at row `row_off`, column `col_off`
/// of the `m × n` matrix `matrix`, both stored in `order`, is read into it.
pub open spec fn taken<T>(
    scratch: Seq<T>,
    matrix: Seq<T>,
    order: MemoryOrder,
    m: nat,
    n: nat,
    row_off: nat,
    col_off: nat,
    m_i: nat,
    n_j: nat,
) -> Seq<T> {
    match order {
        MemoryOrder::RowMajor => taken_rows(scratch, matrix, n, row_off, col_off, m_i, n_j),
        MemoryOrder::ColumnMajor => taken_rows(scratch, matrix, m, col_off, row_off, n_j, m_i),
    }
}

/// Facts shared by the row-major lemmas: every slab fits, in the source
/// and the destination, and the written slabs end within `m · n`.
proof fn lemma_rows_fit(len_matrix: nat, len_block: nat, m: nat, n: nat, row_off: nat, col_off: nat, m_i: nat, n_j: nat)
    requires
        sub_block_fits(m, n, row_off, col_off, m_i, n_j),
        m * n <= len_matrix,
        m_i * n_j <= len_block,
    ensures
        slabs_fit(m_i, n_j, n, row_off * n + col_off, len_matrix),
        slabs_fit(m_i, n_j, n, row_off * n + col_off, m * n),
        slabs_fit(m_i, n_j, n_j, 0, len_block),
        n_j <= n,
{
    lemma_sub_block_fits(m, n, row_off, m_i, col_off, n_j, len_matrix);
    lemma_sub_block_fits(m, n, row_off, m_i, col_off, n_j, m * n);
    lemma_sub_block_fits(m_i, n_j, 0, m_i, 0, n_j, len_block);
}

/// An entry inside the written block of a row-major matrix holds the
/// matching entry of the block.
proof fn lemma_placed_rows_inside<T>(
    matrix: Seq<T>,
    block: Seq<T>,
    m: nat,
    n: nat,
    row_off: nat,
    col_off: nat,
    m_i: nat,
    n_j: nat,
    r: int,
    c: int,
)
    requires
        sub_block_fits(m, n, row_off, col_off, m_i, n_j),
        m * n <= matrix.len(),
        m_i * n_j <= block.len(),
        row_off <= r < row_off + m_i,
        col_off <= c < col_off + n_j,
    ensures
        placed_rows(matrix, block, n, row_off, col_off, m_i, n_j).len() == matrix.len(),
        placed_rows(matrix, block, n, row_off, col_off, m_i, n_j)[r * n + c]
            == block[(r - row_off) * n_j + (c - col_off)],
{
    let db = row_off * n + col_off;
    lemma_rows_fit(matrix.len(), block.len(), m, n, row_off, col_off, m_i, n_j);
    lemma_copy_slabs_len(matrix, block, m_i, n_j, n_j, n, 0, db);
    let (i, j) = (r - row_off, c - col_off);
    lemma_copy_slabs_at(matrix, block, m_i, n_j, n_j, n, 0, db, i, j);
    assert(slab_pos(db, i, n, j) == r * n + c) by (nonlinear_arith)
        requires
            i == r - row_off,
            j == c - col_off,
            db == row_off * n + col_off,
    ;
}

/// An entry of a row-major matrix outside the written block keeps its
/// value.
proof fn lemma_placed_rows_outside<T>(
    matrix: Seq<T>,
    block: Seq<T>,
    m: nat,
    n: nat,
    row_off: nat,
    col_off: nat,
    m_i: nat,
    n_j: nat,
    r: int,
    c: int,
)
    requires
        sub_block_fits(m, n, row_off, col_off, m_i, n_j),
        m * n <= matrix.len(),
        m_i * n_j <= block.len(),
        0 <= r < m,
        0 <= c < n,
        !(row_off <= r < row_off + m_i && col_off <= c < col_off + n_j),
    ensures
        placed_rows(matrix, block, n, row_off, col_off, m_i, n_j)[r * n + c] == matrix[r * n + c],
{
    let db = row_off * n + col_off;
    lemma_rows_fit(matrix.len(), block.len(), m, n, row_off, col_off, m_i, n_j);
    let p = r * n + c;
    assert(0 <= p < m * n) by (nonlinear_arith)
        requires
            p == r * n + c,
            0 <= r < m,
            0 <= c < n,
    ;
    assert forall|i: int| 0 <= i < m_i implies p < #[trigger] slab_pos(db, i, n, 0) || slab_pos(db, i, n, 0)
        + n_j <= p by {
        assert(slab_pos(db, i, n, 0) == (row_off + i) * n + col_off) by (nonlinear_arith)
            requires
                db == row_off * n + col_off,
        ;
        if slab_pos(db, i, n, 0) <= p < slab_pos(db, i, n, 0) + n_j {
            lemma_in_band(n as int, r, c, row_off + i, col_off as int, n_j as int);
        }
    }
    lemma_copy_slabs_outside(matrix, block, m_i, n_j, n_j, n, 0, db, p);
}

/// An entry of a row-major matrix past its `m · n` entries keeps its
/// value.
proof fn lemma_placed_rows_beyond<T>(
    matrix: Seq<T>,
    block: Seq<T>,
    m: nat,
    n: nat,
    row_off: nat,
    col_off: nat,
    m_i: nat,
    n_j: nat,
    p: int,
)
    requires
        sub_block_fits(m, n, row_off, col_off, m_i, n_j),
        m * n <= matrix.len(),
        m_i * n_j <= block.len(),
        m * n <= p < matrix.len(),
    ensures
        placed_rows(matrix, block, n, row_off, col_off, m_i, n_j)[p] == matrix[p],
{
    let db = row_off * n + col_off;
    lemma_rows_fit(matrix.len(), block.len(), m, n, row_off, col_off, m_i, n_j);
    assert forall|i: int| 0 <= i < m_i implies p < #[trigger] slab_pos(db, i, n, 0) || slab_pos(db, i, n, 0)
        + n_j <= p by {
        assert(i * n <= (m_i - 1) * n) by (nonlinear_arith)
            requires
                0 <= i < m_i,
        ;
    }
    lemma_copy_slabs_outside(matrix, block, m_i, n_j, n_j, n, 0, db, p);
}

/// Entry `(r, c)` of a row-major block read from a row-major matrix holds
/// entry `(row_off + r, col_off + c)` of the matrix.
proof fn lemma_taken_rows_inside<T>(
    scratch: Seq<T>,
    matrix: Seq<T>,
    m: nat,
    n: nat,
    row_off: nat,
    col_off: nat,
    m_i: nat,
    n_j: nat,
    r: int,
    c: int,
)
    requires
        sub_block_fits(m, n, row_off, col_off, m_i, n_j),
        m * n <= matrix.len(),
        m_i * n_j <= scratch.len(),
        0 <= r < m_i,
        0 <= c < n_j,
    ensures
        taken_rows(scratch, matrix, n, row_off, col_off, m_i, n_j).len() == scratch.len(),
        taken_rows(scratch, matrix, n, row_off, col_off, m_i, n_j)[r * n_j + c]
            == matrix[(row_off + r) * n + (col_off + c)],
{
    let sb = row_off * n + col_off;
    lemma_rows_fit(matrix.len(), scratch.len(), m, n, row_off, col_off, m_i, n_j);
    lemma_copy_slabs_len(scratch, matrix, m_i, n_j, n, n_j, sb, 0);
    lemma_copy_slabs_at(scratch, matrix, m_i, n_j, n, n_j, sb, 0, r, c);
    assert(slab_pos(sb, r, n, c) == (row_off + r) * n + (col_off + c)) by (nonlinear_arith)
        requires
            sb == row_off * n + col_off,
    ;
}

/// An entry of a row-major block past its `m_i · n_j` entries keeps its
/// value.
proof fn lemma_taken_rows_beyond<T>(
    scratch: Seq<T>,
    matrix: Seq<T>,
    m: nat,
    n: nat,
    row_off: nat,
    col_off: nat,
    m_i: nat,
    n_j: nat,
    p: int,
)
    requires
        sub_block_fits(m, n, row_off, col_off, m_i, n_j),
        m * n <= matrix.len(),
        m_i * n_j <= p < scratch.len(),
    ensures
        taken_rows(scratch, matrix, n, row_off, col_off, m_i, n_j)[p] == scratch[p],
{
    let sb = row_off * n + col_off;
    lemma_rows_fit(matrix.len(), scratch.len(), m, n, row_off, col_off, m_i, n_j);
    assert forall|i: int| 0 <= i < m_i implies p < #[trigger] slab_pos(0, i, n_j, 0) || slab_pos(0, i, n_j, 0)
        + n_j <= p by {
        assert(i * n_j + n_j <= m_i * n_j) by (nonlinear_arith)
            requires
                0 <= i < m_i,
        ;
    }
    lemma_copy_slabs_outside(scratch, matrix, m_i, n_j, n, n_j, sb, 0, p);
}

/// `p` is entry `(p / cols, p % cols)` of a row-major grid `cols` wide, and
/// that row is below `rows` when `p` is below `rows · cols`.
proof fn lemma_split_index(p: int, rows: int, cols: int)
    requires
        0 <= p < rows * cols,
        0 <= rows,
        0 <= cols,
    ensures
        cols > 0,
        p == (p / cols) * cols + p % cols,
        0 <= p / cols < rows,
        0 <= p % cols < cols,
{
    assert(cols > 0) by (nonlinear_arith)
        requires
            0 <= p < rows * cols,
            0 <= rows,
            0 <= cols,
    ;
    vstd::arithmetic::div_mod::lemma_fundamental_div_mod(p, cols);
    vstd::arithmetic::div_mod::lemma_mod_pos_bound(p, cols);
    vstd::arithmetic::div_mod::lemma_div_pos_is_pos(p, cols);
    let q = p / cols;
    assert(cols * q == q * cols) by (nonlinear_arith);
    assert(q < rows) by (nonlinear_arith)
        requires
            p == q * cols + p % cols,
            0 <= p % cols,
            p < rows * cols,
            cols > 0,
    ;
}

/// Row-major form of `law_take_undoes_place`.
proof fn lemma_take_undoes_place_rows<T>(
    matrix: Seq<T>,
    block: Seq<T>,
    scratch: Seq<T>,
    m: nat,
    n: nat,
    row_off: nat,
    col_off: nat,
    m_i: nat,
    n_j: nat,
)
    requires
        sub_block_fits(m, n, row_off, col_off, m_i, n_j),
        m * n <= matrix.len(),
        block.len() == m_i * n_j,
        scratch.len() == m_i * n_j,
    ensures
        taken_rows(scratch, placed_rows(matrix, block, n, row_off, col_off, m_i, n_j), n, row_off, col_off, m_i, n_j)
            == block,
{
    let pl = placed_rows(matrix, block, n, row_off, col_off, m_i, n_j);
    let tk = taken_rows(scratch, pl, n, row_off, col_off, m_i, n_j);
    lemma_rows_fit(matrix.len(), block.len(), m, n, row_off, col_off, m_i, n_j);
    lemma_copy_slabs_len(matrix, block, m_i, n_j, n_j, n, 0, row_off * n + col_off);
    lemma_rows_fit(pl.len(), scratch.len(), m, n, row_off, col_off, m_i, n_j);
    lemma_copy_slabs_len(scratch, pl, m_i, n_j, n, n_j, row_off * n + col_off, 0);
    assert forall|p: int| 0 <= p < block.len() implies #[trigger] tk[p] == block[p] by {
        lemma_split_index(p, m_i as int, n_j as int);
        let (r, c) = (p / n_j as int, p % n_j as int);
        lemma_taken_rows_inside(scratch, pl, m, n, row_off, col_off, m_i, n_j, r, c);
        lemma_placed_rows_inside(matrix, block, m, n, row_off, col_off, m_i, n_j, row_off + r, col_off + c);
    }
    assert(tk =~= block);
}

/// Row-major form of `law_place_undoes_take`.
proof fn lemma_place_undoes_take_rows<T>(
    matrix: Seq<T>,
    scratch: Seq<T>,
    m: nat,
    n: nat,
    row_off: nat,
    col_off: nat,
    m_i: nat,
    n_j: nat,
)
    requires
        sub_block_fits(m, n, row_off, col_off, m_i, n_j),
        m * n <= matrix.len(),
        m_i * n_j <= scratch.len(),
    ensures
        placed_rows(matrix, taken_rows(scratch, matrix, n, row_off, col_off, m_i, n_j), n, row_off, col_off, m_i, n_j)
            == matrix,
{
    let tk = taken_rows(scratch, matrix, n, row_off, col_off, m_i, n_j);
    let pl = placed_rows(matrix, tk, n, row_off, col_off, m_i, n_j);
    lemma_rows_fit(matrix.len(), scratch.len(), m, n, row_off, col_off, m_i, n_j);
    lemma_copy_slabs_len(scratch, matrix, m_i, n_j, n, n_j, row_off * n + col_off, 0);
    lemma_copy_slabs_len(matrix, tk, m_i, n_j, n_j, n, 0, row_off * n + col_off);
    assert forall|p: int| 0 <= p < matrix.len() implies #[trigger] pl[p] == matrix[p] by {
        if p < m * n {
            lemma_split_index(p, m as int, n as int);
            let (r, c) = (p / n as int, p % n as int);
            if row_off <= r < row_off + m_i && col_off <= c < col_off + n_j {
                lemma_placed_rows_inside(matrix, tk, m, n, row_off, col_off, m_i, n_j, r, c);
                lemma_taken_rows_inside(scratch, matrix, m, n, row_off, col_off, m_i, n_j, r - row_off, c - col_off);
            } else {
                lemma_placed_rows_outside(matrix, tk, m, n, row_off, col_off, m_i, n_j, r, c);
            }
        } else {
            lemma_placed_rows_beyond(matrix, tk, m, n, row_off, col_off, m_i, n_j, p);
        }
    }
    assert(pl =~= matrix);
}

/// Reading a block back from where it was written gives the block: after
/// the `m_i × n_j` block `block` is written into the `m × n` matrix at row
/// `row_off`, column `col_off`, reading that sub-block yields `block`
/// again, in either memory order.
pub proof fn law_take_undoes_place<T>(
    matrix: Seq<T>,
    block: Seq<T>,
    scratch: Seq<T>,
    order: MemoryOrder,
    m: nat,
    n: nat,
    row_off: nat,
    col_off: nat,
    m_i: nat,
    n_j: nat,
)
    requires
        sub_block_fits(m, n, row_off, col_off, m_i, n_j),
        m * n <= matrix.len(),
        block.len() == m_i * n_j,
        scratch.len() == m_i * n_j,
    ensures
        taken(scratch, placed(matrix, block, order, m, n, row_off, col_off, m_i, n_j), order, m, n, row_off, col_off, m_i, n_j)
            == block,
{
    match order {
        MemoryOrder::RowMajor => {
            lemma_take_undoes_place_rows(matrix, block, scratch, m, n, row_off, col_off, m_i, n_j);
        },
        MemoryOrder::ColumnMajor => {
            assert(n * m == m * n && n_j * m_i == m_i * n_j) by (nonlinear_arith);
            lemma_take_undoes_place_rows(matrix, block, scratch, n, m, col_off, row_off, n_j, m_i);
        },
    }
}

/// Writing back a block just read from a matrix leaves the matrix as it
/// was: reading the `m_i × n_j` sub-block at row `row_off`, column
/// `col_off` of the `m × n` matrix and writing it back to the same place
/// gives the matrix unchanged, in either memory order.
pub proof fn law_place_undoes_take<T>(
    matrix: Seq<T>,
    scratch: Seq<T>,
    order: MemoryOrder,
    m: nat,
    n: nat,
    row_off: nat,
    col_off: nat,
    m_i: nat,
    n_j: nat,
)
    requires
        sub_block_fits(m, n, row_off, col_off, m_i, n_j),
        m * n <= matrix.len(),
        m_i * n_j <= scratch.len(),
    ensures
        placed(matrix, taken(scratch, matrix, order, m, n, row_off, col_off, m_i, n_j), order, m, n, row_off, col_off, m_i, n_j)
            == matrix,
{
    match order {
        MemoryOrder::RowMajor => {
            lemma_place_undoes_take_rows(matrix, scratch, m, n, row_off, col_off, m_i, n_j);
        },
        MemoryOrder::ColumnMajor => {
            assert(n * m == m * n && n_j * m_i == m_i * n_j) by (nonlinear_arith);
            lemma_place_undoes_take_rows(matrix, scratch, n, m, col_off, row_off, n_j, m_i);
        },
    }
}

/// What `placed` leaves at each entry: the block's entries inside the
/// written sub-block, the matrix's own entries everywhere else.
proof fn lemma_placed_entries<T>(
    matrix: Seq<T>,
    block: Seq<T>,
    order: MemoryOrder,
    m: nat,
    n: nat,
    row_off: nat,
    col_off: nat,
    m_i: nat,
    n_j: nat,
)
    requires
        sub_block_fits(m, n, row_off, col_off, m_i, n_j),
        m * n <= matrix.len(),
        m_i * n_j <= block.len(),
    ensures
        placed(matrix, block, order, m, n, row_off, col_off, m_i, n_j).len() == matrix.len(),
        forall|r: int, c: int|
            row_off <= r < row_off + m_i && col_off <= c < col_off + n_j ==> #[trigger] placed(
                matrix,
                block,
                order,
                m,
                n,
                row_off,
                col_off,
                m_i,
                n_j,
            )[grid_offset(order, m as int, n as int, r, c)] == block[grid_offset(
                order,
                m_i as int,
                n_j as int,
                r - row_off,
                c - col_off,
            )],
        forall|r: int, c: int|
            0 <= r < m && 0 <= c < n && !(row_off <= r < row_off + m_i && col_off <= c < col_off + n_j)
                ==> #[trigger] placed(matrix, block, order, m, n, row_off, col_off, m_i, n_j)[grid_offset(
                order,
                m as int,
                n as int,
                r,
                c,
            )] == matrix[grid_offset(order, m as int, n as int, r, c)],
        forall|p: int|
            m * n <= p < matrix.len() ==> #[trigger] placed(matrix, block, order, m, n, row_off, col_off, m_i, n_j)[p]
                == matrix[p],
{
    assert(n * m == m * n && n_j * m_i == m_i * n_j) by (nonlinear_arith);
    let pl = placed(matrix, block, order, m, n, row_off, col_off, m_i, n_j);
    match order {
        MemoryOrder::RowMajor => {
            lemma_rows_fit(matrix.len(), block.len(), m, n, row_off, col_off, m_i, n_j);
            lemma_copy_slabs_len(matrix, block, m_i, n_j, n_j, n, 0, row_off * n + col_off);
        },
        MemoryOrder::ColumnMajor => {
            lemma_rows_fit(matrix.len(), block.len(), n, m, col_off, row_off, n_j, m_i);
            lemma_copy_slabs_len(matrix, block, n_j, m_i, m_i, m, 0, col_off * m + row_off);
        },
    }
    assert forall|r: int, c: int| row_off <= r < row_off + m_i && col_off <= c < col_off + n_j implies #[trigger] pl[grid_offset(
        order,
        m as int,
        n as int,
        r,
        c,
    )] == block[grid_offset(order, m_i as int, n_j as int, r - row_off, c - col_off)] by {
        match order {
            MemoryOrder::RowMajor => {
                lemma_placed_rows_inside(matrix, block, m, n, row_off, col_off, m_i, n_j, r, c);
            },
            MemoryOrder::ColumnMajor => {
                lemma_placed_rows_inside(matrix, block, n, m, col_off, row_off, n_j, m_i, c, r);
            },
        }
    }
    assert forall|r: int, c: int|
        0 <= r < m && 0 <= c < n && !(row_off <= r < row_off + m_i && col_off <= c < col_off + n_j) implies #[trigger] pl[grid_offset(
        order,
        m as int,
        n as int,
        r,
        c,
    )] == matrix[grid_offset(order, m as int, n as int, r, c)] by {
        match order {
            MemoryOrder::RowMajor => {
                lemma_placed_rows_outside(matrix, block, m, n, row_off, col_off, m_i, n_j, r, c);
            },
            MemoryOrder::ColumnMajor => {
                lemma_placed_rows_outside(matrix, block, n, m, col_off, row_off, n_j, m_i, c, r);
            },
        }
    }
    assert forall|p: int| m * n <= p < matrix.len() implies #[trigger] pl[p] == matrix[p] by {
        match order {
            MemoryOrder::RowMajor => {
                lemma_placed_rows_beyond(matrix, block, m, n, row_off, col_off, m_i, n_j, p);
            },
            MemoryOrder::ColumnMajor => {
                lemma_placed_rows_beyond(matrix, block, n, m, col_off, row_off, n_j, m_i, p);
            },
        }
    }
}

/// What `taken` leaves at each entry: the matrix's entries of the read
/// sub-block, then the scratch's own entries.
proof fn lemma_taken_entries<T>(
    scratch: Seq<T>,
    matrix: Seq<T>,
    order: MemoryOrder,
    m: nat,
    n: nat,
    row_off: nat,
    col_off: nat,
    m_i: nat,
    n_j: nat,
)
    requires
        sub_block_fits(m, n, row_off, col_off, m_i, n_j),
        m * n <= matrix.len(),
        m_i * n_j <= scratch.len(),
    ensures
        taken(scratch, matrix, order, m, n, row_off, col_off, m_i, n_j).len() == scratch.len(),
        forall|r: int, c: int|
            0 <= r < m_i && 0 <= c < n_j ==> #[trigger] taken(scratch, matrix, order, m, n, row_off, col_off, m_i, n_j)[grid_offset(
                order,
                m_i as int,
                n_j as int,
                r,
                c,
            )] == matrix[grid_offset(order, m as int, n as int, row_off + r, col_off + c)],
        forall|p: int|
            m_i * n_j <= p < scratch.len() ==> #[trigger] taken(scratch, matrix, order, m, n, row_off, col_off, m_i, n_j)[p]
                == scratch[p],
{
    assert(n * m == m * n && n_j * m_i == m_i * n_j) by (nonlinear_arith);
    let tk = taken(scratch, matrix, order, m, n, row_off, col_off, m_i, n_j);
    match order {
        MemoryOrder::RowMajor => {
            lemma_rows_fit(matrix.len(), scratch.len(), m, n, row_off, col_off, m_i, n_j);
            lemma_copy_slabs_len(scratch, matrix, m_i, n_j, n, n_j, row_off * n + col_off, 0);
        },
        MemoryOrder::ColumnMajor => {
            lemma_rows_fit(matrix.len(), scratch.len(), n, m, col_off, row_off, n_j, m_i);
            lemma_copy_slabs_len(scratch, matrix, n_j, m_i, m, m_i, col_off * m + row_off, 0);
        },
    }
    assert forall|r: int, c: int| 0 <= r < m_i && 0 <= c < n_j implies #[trigger] tk[grid_offset(
        order,
        m_i as int,
        n_j as int,
        r,
        c,
    )] == matrix[grid_offset(order, m as int, n as int, row_off + r, col_off + c)] by {
        match order {
            MemoryOrder::RowMajor => {
                lemma_taken_rows_inside(scratch, matrix, m, n, row_off, col_off, m_i, n_j, r, c);
            },
            MemoryOrder::ColumnMajor => {
                lemma_taken_rows_inside(scratch, matrix, n, m, col_off, row_off, n_j, m_i, c, r);
            },
        }
    }
    assert forall|p: int| m_i * n_j <= p < scratch.len() implies #[trigger] tk[p] == scratch[p] by {
        match order {
            MemoryOrder::RowMajor => {
                lemma_taken_rows_beyond(scratch, matrix, m, n, row_off, col_off, m_i, n_j, p);
            },
            MemoryOrder::ColumnMajor => {
                lemma_taken_rows_beyond(scratch, matrix, n, m, col_off, row_off, n_j, m_i, p);
            },
        }
    }
}

/// Writes the `m_i × n_j` block `block` into the `m × n` matrix `matrix` at
/// row `row_off` and column `col_off`, both stored in `order`: one slab per
/// block row in row-major order, one per block column in column-major.
/// Every other entry of `matrix` keeps its value.
pub fn place_block<T: Copy>(
    matrix: &mut [T],
    block: &[T],
    m: usize,
    n: usize,
    row_off: usize,
    col_off: usize,
    m_i: usize,
    n_j: usize,
    order: MemoryOrder,
)
    requires
        row_off + m_i <= m,
        col_off + n_j <= n,
        m * n <= old(matrix)@.len(),
        m_i * n_j <= block@.len(),
    ensures
        final(matrix)@ == placed(
            old(matrix)@,
            block@,
            order,
            m as nat,
            n as nat,
            row_off as nat,
            col_off as nat,
            m_i as nat,
            n_j as nat,
        ),
        final(matrix)@.len() == old(matrix)@.len(),
        forall|r: int, c: int|
            row_off <= r < row_off + m_i && col_off <= c < col_off + n_j ==> #[trigger] final(matrix)@[grid_offset(
                order,
                m as int,
                n as int,
                r,
                c,
            )] == block@[grid_offset(order, m_i as int, n_j as int, r - row_off, c - col_off)],
        forall|r: int, c: int|
            0 <= r < m && 0 <= c < n && !(row_off <= r < row_off + m_i && col_off <= c < col_off + n_j)
                ==> #[trigger] final(matrix)@[grid_offset(order, m as int, n as int, r, c)] == old(
                matrix,
            )@[grid_offset(order, m as int, n as int, r, c)],
        forall|p: int| m * n <= p < old(matrix)@.len() ==> #[trigger] final(matrix)@[p] == old(matrix)@[p],
{
    let _total = matrix.len();
    let _block_total = block.len();
    proof {
        lemma_placed_entries(
            matrix@,
            block@,
            order,
            m as nat,
            n as nat,
            row_off as nat,
            col_off as nat,
            m_i as nat,
            n_j as nat,
        );
    }
    let ghost (mm, nn, r, c, a, b) = (m as nat, n as nat, row_off as nat, col_off as nat, m_i as nat, n_j as nat);
    match order {
        MemoryOrder::RowMajor => {
            if m_i == 0 {
                return;
            }
            proof {
                lemma_rows_fit(matrix@.len(), block@.len(), mm, nn, r, c, a, b);
                assert(r * nn + c <= mm * nn) by (nonlinear_arith)
                    requires
                        r + a <= mm,
                        c + b <= nn,
                        a >= 1,
                ;
            }
            copy_strided_slabs(block, matrix, m_i, n_j, n_j, n, 0, row_off * n + col_off);
        },
        MemoryOrder::ColumnMajor => {
            if n_j == 0 {
                return;
            }
            proof {
                assert(nn * mm == mm * nn && b * a == a * b) by (nonlinear_arith);
                lemma_rows_fit(matrix@.len(), block@.len(), nn, mm, c, r, b, a);
                assert(c * mm + r <= nn * mm) by (nonlinear_arith)
                    requires
                        c + b <= nn,
                        r + a <= mm,
                        b >= 1,
                ;
            }
            copy_strided_slabs(block, matrix, n_j, m_i, m_i, m, 0, col_off * m + row_off);
        },
    }
}

/// Reads the `m_i × n_j` sub-block at row `row_off` and column `col_off` of
/// the `m × n` matrix `matrix` into the first `m_i · n_j` entries of
/// `block`, both stored in `order`. The rest of `block` keeps its values.
pub fn take_block<T: Copy>(
    matrix: &[T],
    block: &mut [T],
    m: usize,
    n: usize,
    row_off: usize,
    col_off: usize,
    m_i: usize,
    n_j: usize,
    order: MemoryOrder,
)
    requires
        row_off + m_i <= m,
        col_off + n_j <= n,
        m * n <= matrix@.len(),
        m_i * n_j <= old(block)@.len(),
    ensures
        final(block)@ == taken(
            old(block)@,
            matrix@,
            order,
            m as nat,
            n as nat,
            row_off as nat,
            col_off as nat,
            m_i as nat,
            n_j as nat,
        ),
        final(block)@.len() == old(block)@.len(),
        forall|r: int, c: int|
            0 <= r < m_i && 0 <= c < n_j ==> #[trigger] final(block)@[grid_offset(order, m_i as int, n_j as int, r, c)]
                == matrix@[grid_offset(order, m as int, n as int, row_off + r, col_off + c)],
        forall|p: int| m_i * n_j <= p < old(block)@.len() ==> #[trigger] final(block)@[p] == old(block)@[p],
{
    let _total = matrix.len();
    let _block_total = block.len();
    proof {
        lemma_taken_entries(
            block@,
            matrix@,
            order,
            m as nat,
            n as nat,
            row_off as nat,
            col_off as nat,
            m_i as nat,
            n_j as nat,
        );
    }
    let ghost (mm, nn, r, c, a, b) = (m as nat, n as nat, row_off as nat, col_off as nat, m_i as nat, n_j as nat);
    match order {
        MemoryOrder::RowMajor => {
            if m_i == 0 {
                return;
            }
            proof {
                lemma_rows_fit(matrix@.len(), block@.len(), mm, nn, r, c, a, b);
                assert(r * nn + c <= mm * nn) by (nonlinear_arith)
                    requires
                        r + a <= mm,
                        c + b <= nn,
                        a >= 1,
                ;
            }
            copy_strided_slabs(matrix, block, m_i, n_j, n, n_j, row_off * n + col_off, 0);
        },
        MemoryOrder::ColumnMajor => {
            if n_j == 0 {
                return;
            }
            proof {
                assert(nn * mm == mm * nn && b * a == a * b) by (nonlinear_arith);
                lemma_rows_fit(matrix@.len(), block@.len(), nn, mm, c, r, b, a);
                assert(c * mm + r <= nn * mm) by (nonlinear_arith)
                    requires
                        c + b <= nn,
                        r + a <= mm,
                        b >= 1,
                ;
            }
            copy_strided_slabs(matrix, block, n_j, m_i, m, m_i, col_off * m + row_off, 0);
        },
    }
}

/// Where entry `(i0, i1, i2)` of a `d0 × d1 × d2` array stored in `order`
/// sits.
pub open spec fn offset3(order: MemoryOrder, d0: int, d1: int, d2: int, i0: int, i1: int, i2: int) -> int {
    match order {
        MemoryOrder::RowMajor => (i0 * d1 + i1) * d2 + i2,
        MemoryOrder::ColumnMajor => (i2 * d1 + i1) * d0 + i0,
    }
}

/// Copies the `leading × fused × trailing` block `src` into its slot of the
/// `leading × fused_total × trailing` block `dst`, at offset `fused_offset`
/// along the middle axis, both stored in `order`: entry `(a, b, c)` of
/// `src` lands at `(a, fused_offset + b, c)`, and every other entry of
/// `dst` keeps its value. Row-major copies one contiguous
/// `fused × trailing` slab per leading index; column-major one
/// `leading × fused` slab per trailing index.
pub fn copy_fused_block<T: Copy>(
    src: &[T],
    dst: &mut [T],
    leading: usize,
    fused: usize,
    fused_total: usize,
    trailing: usize,
    fused_offset: usize,
    order: MemoryOrder,
)
    requires
        fused_offset + fused <= fused_total,
        leading * fused * trailing <= src@.len(),
        leading * fused_total * trailing <= old(dst)@.len(),
    ensures
        final(dst)@.len() == old(dst)@.len(),
        forall|a: int, b: int, c: int|
            0 <= a < leading && fused_offset <= b < fused_offset + fused && 0 <= c < trailing
                ==> #[trigger] final(dst)@[offset3(
                order,
                leading as int,
                fused_total as int,
                trailing as int,
                a,
                b,
                c,
            )] == src@[offset3(order, leading as int, fused as int, trailing as int, a, b - fused_offset, c)],
        forall|a: int, b: int, c: int|
            0 <= a < leading && 0 <= b < fused_total && 0 <= c < trailing && !(fused_offset <= b < fused_offset
                + fused) ==> #[trigger] final(dst)@[offset3(
                order,
                leading as int,
                fused_total as int,
                trailing as int,
                a,
                b,
                c,
            )] == old(dst)@[offset3(order, leading as int, fused_total as int, trailing as int, a, b, c)],
        forall|p: int|
            leading * fused_total * trailing <= p < old(dst)@.len() ==> #[trigger] final(dst)@[p] == old(
                dst,
            )@[p],
{
    let _src_total = src.len();
    let _dst_total = dst.len();
    if leading == 0 || trailing == 0 {
        return;
    }
    let ghost (l, f, t, ft, o) = (leading as int, fused as int, trailing as int, fused_total as int, fused_offset as int);
    let ghost old_dst = dst@;
    proof {
        assert(f * t <= l * f * t && ft * t <= l * ft * t && l * f <= l * f * t && l * ft <= l * ft * t)
            by (nonlinear_arith)
            requires
                l >= 1,
                t >= 1,
                f >= 0,
                ft >= 0,
        ;
        assert(o * t + f * t <= ft * t && o * l + l * f <= l * ft) by (nonlinear_arith)
            requires
                o + f <= ft,
                l >= 1,
                t >= 1,
        ;
        assert(l * (ft * t) == l * ft * t && l * (f * t) == l * f * t) by (nonlinear_arith);
    }
    match order {
        MemoryOrder::RowMajor => {
            // An l × (ft · t) matrix receiving an l × (f · t) block at column o · t.
            let width = fused_total * trailing;
            let block_width = fused * trailing;
            let col_off = fused_offset * trailing;
            place_block(dst, src, leading, width, 0, col_off, leading, block_width, order);
            assert forall|a: int, b: int, c: int|
                0 <= a < l && 0 <= b < ft && 0 <= c < t implies #[trigger] dst@[offset3(order, l, ft, t, a, b, c)]
                == (if o <= b < o + f {
                src@[offset3(order, l, f, t, a, b - o, c)]
            } else {
                old_dst[offset3(order, l, ft, t, a, b, c)]
            }) by {
                let col = b * t + c;
                assert(offset3(order, l, ft, t, a, b, c) == grid_offset(order, l, ft * t, a, col))
                    by (nonlinear_arith)
                    requires
                        order == MemoryOrder::RowMajor,
                        col == b * t + c,
                ;
                assert(0 <= col < ft * t) by (nonlinear_arith)
                    requires
                        col == b * t + c,
                        0 <= b < ft,
                        0 <= c < t,
                ;
                if o <= b < o + f {
                    assert(o * t <= col < o * t + f * t) by (nonlinear_arith)
                        requires
                            col == b * t + c,
                            o <= b < o + f,
                            0 <= c < t,
                    ;
                    assert(offset3(order, l, f, t, a, b - o, c) == grid_offset(order, l, f * t, a, col - o * t))
                        by (nonlinear_arith)
                        requires
                            order == MemoryOrder::RowMajor,
                            col == b * t + c,
                    ;
                } else {
                    assert(col < o * t || o * t + f * t <= col) by (nonlinear_arith)
                        requires
                            col == b * t + c,
                            b < o || o + f <= b,
                            0 <= c < t,
                    ;
                }
            }
        },
        MemoryOrder::ColumnMajor => {
            // An (l · ft) × t matrix receiving an (l · f) × t block at row o · l.
            let height = leading * fused_total;
            let block_height = leading * fused;
            let row_off = fused_offset * leading;
            place_block(dst, src, height, trailing, row_off, 0, block_height, trailing, order);
            assert forall|a: int, b: int, c: int|
                0 <= a < l && 0 <= b < ft && 0 <= c < t implies #[trigger] dst@[offset3(order, l, ft, t, a, b, c)]
                == (if o <= b < o + f {
                src@[offset3(order, l, f, t, a, b - o, c)]
            } else {
                old_dst[offset3(order, l, ft, t, a, b, c)]
            }) by {
                let row = b * l + a;
                assert(offset3(order, l, ft, t, a, b, c) == grid_offset(order, l * ft, t, row, c))
                    by (nonlinear_arith)
                    requires
                        order == MemoryOrder::ColumnMajor,
                        row == b * l + a,
                ;
                assert(0 <= row < l * ft) by (nonlinear_arith)
                    requires
                        row == b * l + a,
                        0 <= b < ft,
                        0 <= a < l,
                ;
                if o <= b < o + f {
                    assert(o * l <= row < o * l + l * f) by (nonlinear_arith)
                        requires
                            row == b * l + a,
                            o <= b < o + f,
                            0 <= a < l,
                    ;
                    assert(offset3(order, l, f, t, a, b - o, c) == grid_offset(order, l * f, t, row - o * l, c))
                        by (nonlinear_arith)
                        requires
                            order == MemoryOrder::ColumnMajor,
                            row == b * l + a,
                    ;
                } else {
                    assert(row < o * l || o * l + l * f <= row) by (nonlinear_arith)
                        requires
                            row == b * l + a,
                            b < o || o + f <= b,
                            0 <= a < l,
                    ;
                }
            }
        },
    }
}

} // verus!
