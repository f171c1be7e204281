//! Strides of a dense block and the permutation of a block's axes.
//!
//! A block of shape `s` stores the element at multi-index `x` at offset
//! `sum_i x[i] * stride[i]`. Row-major strides are the products of the
//! extents after each axis; column-major strides the products of those
//! before it.

use vstd::prelude::*;

use crate::backend::MemoryOrder;
use crate::seqs::{first_pos, lemma_first_pos};

verus! {

// ---------------------------------------------------------------------------
// Products, strides and offsets
// ---------------------------------------------------------------------------

/// Product of the extents `s`.
pub open spec fn prod(s: Seq<usize>) -> nat
    decreases s.len(),
{
    if s.len() == 0 {
        1
    } else {
        prod(s.drop_last()) * (s.last() as nat)
    }
}

/// Row-major strides of shape `s`: the product of the extents after each
/// axis.
pub open spec fn row_major_strides(s: Seq<usize>) -> Seq<int> {
    Seq::new(s.len(), |i: int| prod(s.skip(i + 1)) as int)
}

/// Column-major strides of shape `s`: the product of the extents before
/// each axis.
pub open spec fn column_major_strides(s: Seq<usize>) -> Seq<int> {
    Seq::new(s.len(), |i: int| prod(s.take(i)) as int)
}

/// Strides of shape `s` in memory order `order`.
pub open spec fn strides_of(s: Seq<usize>, order: MemoryOrder) -> Seq<int> {
    match order {
        MemoryOrder::RowMajor => row_major_strides(s),
        MemoryOrder::ColumnMajor => column_major_strides(s),
    }
}

/// Every stride of shape `s` in `order` fits in a `usize`.
pub open spec fn strides_fit(s: Seq<usize>, order: MemoryOrder) -> bool {
    forall|i: int| 0 <= i < s.len() ==> #[trigger] strides_of(s, order)[i] <= usize::MAX
}

/// `sum_{i < n} x[i] * w[i]`.
pub open spec fn weighted_sum(x: Seq<int>, w: Seq<int>, n: nat) -> int
    decreases n,
{
    if n == 0 {
        0
    } else {
        weighted_sum(x, w, (n - 1) as nat) + x[n - 1] * w[n - 1]
    }
}

/// `x` is a multi-index of shape `s`.
pub open spec fn within(x: Seq<int>, s: Seq<usize>) -> bool {
    &&& x.len() == s.len()
    &&& forall|i: int| 0 <= i < x.len() ==> 0 <= #[trigger] x[i] < s[i]
}

/// `p` lists each of `0..n` exactly once.
pub open spec fn is_permutation(p: Seq<usize>, n: nat) -> bool {
    &&& p.len() == n
    &&& forall|i: int| 0 <= i < p.len() ==> #[trigger] p[i] < n
    &&& p.no_duplicates()
    &&& forall|j: usize| j < n ==> #[trigger] p.contains(j)
}

/// The shape after permuting axes: new axis `i` is old axis `perm[i]`.
pub open spec fn permuted(s: Seq<usize>, perm: Seq<usize>) -> Seq<usize> {
    Seq::new(perm.len(), |i: int| s[perm[i] as int])
}

/// The old strides, listed in the order of the new axes.
pub open spec fn permuted_strides(s: Seq<usize>, perm: Seq<usize>, order: MemoryOrder) -> Seq<int> {
    Seq::new(perm.len(), |i: int| strides_of(s, order)[perm[i] as int])
}

/// Offset `f` of `r` is the offset of the multi-index `x` of the permuted
/// shape, and holds the element of `data` at the old position of `x`.
pub open spec fn moved_from<T>(
    r: Seq<T>,
    data: Seq<T>,
    shape: Seq<usize>,
    perm: Seq<usize>,
    order: MemoryOrder,
    f: int,
    x: Seq<int>,
) -> bool {
    &&& within(x, permuted(shape, perm))
    &&& weighted_sum(x, strides_of(permuted(shape, perm), order), x.len()) == f
    &&& r[f] == data[weighted_sum(x, permuted_strides(shape, perm, order), x.len())]
}

/// Offset `f` of `r` holds the element of `data` that permuting the axes
/// moves there.
pub open spec fn has_source<T>(
    r: Seq<T>,
    data: Seq<T>,
    shape: Seq<usize>,
    perm: Seq<usize>,
    order: MemoryOrder,
    f: int,
) -> bool {
    exists|x: Seq<int>| #[trigger] moved_from(r, data, shape, perm, order, f, x)
}

/// `r` is `data` with its axes permuted by `perm`: every offset of `r`
/// holds the element that the permutation moves there.
pub open spec fn is_axis_permutation<T>(
    r: Seq<T>,
    data: Seq<T>,
    shape: Seq<usize>,
    perm: Seq<usize>,
    order: MemoryOrder,
) -> bool {
    &&& r.len() == data.len()
    &&& forall|f: int| 0 <= f < r.len() ==> #[trigger] has_source(r, data, shape, perm, order, f)
}

// ---------------------------------------------------------------------------
// Lemmas on products
// ---------------------------------------------------------------------------

/// The product splits at any point.
pub proof fn lemma_prod_split(s: Seq<usize>, k: int)
    requires
        0 <= k <= s.len(),
    ensures
        prod(s) == prod(s.take(k)) * prod(s.skip(k)),
    decreases s.len(),
{
    if k == s.len() {
        assert(s.take(k) =~= s);
        assert(s.skip(k) =~= Seq::<usize>::empty());
        assert(prod(s.skip(k)) == 1);
    } else {
        lemma_prod_split(s.drop_last(), k);
        assert(s.drop_last().take(k) =~= s.take(k));
        assert(s.drop_last().skip(k) =~= s.skip(k).drop_last());
        assert(s.skip(k).last() == s.last());
        assert(prod(s.skip(k)) == prod(s.skip(k).drop_last()) * (s.skip(k).last() as nat));
        assert(prod(s) == prod(s.drop_last()) * (s.last() as nat));
        let a = prod(s.take(k));
        let b = prod(s.skip(k).drop_last());
        let c = s.last() as nat;
        assert(a * b * c == a * (b * c)) by (nonlinear_arith);
        assert(prod(s.drop_last()) == a * b);
        assert(prod(s.skip(k)) == b * c);
    }
}

/// The first extent times the product of the rest.
pub proof fn lemma_prod_front(s: Seq<usize>)
    requires
        s.len() > 0,
    ensures
        prod(s) == (s[0] as nat) * prod(s.skip(1)),
{
    lemma_prod_split(s, 1);
    assert(s.take(1).drop_last() =~= Seq::<usize>::empty());
    assert(s.take(1).last() == s[0]);
    assert(prod(s.take(1)) == prod(s.take(1).drop_last()) * (s.take(1).last() as nat));
    assert(prod(Seq::<usize>::empty()) == 1);
    let a = prod(s.take(1));
    let b = prod(s.skip(1));
    let c = s[0] as nat;
    let e = prod(s.take(1).drop_last());
    assert(e == 1);
    assert(a == e * c);
    assert(a == c) by (nonlinear_arith)
        requires
            a == e * c,
            e == 1,
    ;
    assert(a * b == c * b) by (nonlinear_arith)
        requires
            a == c,
    ;
}

/// A nonzero product has no zero extent, and every partial product is at
/// most the whole.
pub proof fn lemma_prod_positive(s: Seq<usize>)
    requires
        prod(s) > 0,
    ensures
        forall|i: int| 0 <= i < s.len() ==> #[trigger] s[i] > 0,
        forall|k: int| 0 <= k <= s.len() ==> #[trigger] prod(s.take(k)) <= prod(s),
        forall|k: int| 0 <= k <= s.len() ==> #[trigger] prod(s.skip(k)) <= prod(s),
    decreases s.len(),
{
    if s.len() > 0 {
        let d = s.drop_last();
        let c = s.last() as nat;
        assert(prod(s) == prod(d) * c);
        assert(prod(d) > 0 && c > 0) by (nonlinear_arith)
            requires
                prod(d) * c > 0,
        ;
        lemma_prod_positive(d);
        assert forall|i: int| 0 <= i < s.len() implies #[trigger] s[i] > 0 by {
            if i < d.len() {
                assert(d[i] == s[i]);
            }
        }
        assert forall|k: int| 0 <= k <= s.len() implies #[trigger] prod(s.take(k)) <= prod(s) by {
            lemma_prod_split(s, k);
            assert(prod(s.skip(k)) >= 1) by {
                lemma_prod_split(s, k);
                let a = prod(s.take(k));
                let b = prod(s.skip(k));
                assert(a * b > 0);
                assert(b >= 1) by (nonlinear_arith)
                    requires
                        a * b > 0,
                        a >= 0,
                        b >= 0,
                ;
            }
            let a = prod(s.take(k));
            let b = prod(s.skip(k));
            assert(a <= a * b) by (nonlinear_arith)
                requires
                    b >= 1,
            ;
        }
        assert forall|k: int| 0 <= k <= s.len() implies #[trigger] prod(s.skip(k)) <= prod(s) by {
            lemma_prod_split(s, k);
            let a = prod(s.take(k));
            let b = prod(s.skip(k));
            assert(a >= 1) by (nonlinear_arith)
                requires
                    a * b > 0,
                    a >= 0,
                    b >= 0,
            ;
            assert(b <= a * b) by (nonlinear_arith)
                requires
                    a >= 1,
                    b >= 0,
            ;
        }
    }
}

/// Removing one entry of a product divides it out.
proof fn lemma_prod_remove(s: Seq<usize>, k: int)
    requires
        0 <= k < s.len(),
    ensures
        prod(s) == prod(s.remove(k)) * (s[k] as nat),
    decreases s.len(),
{
    if k == s.len() - 1 {
        assert(s.remove(k) =~= s.drop_last());
    } else {
        let d = s.drop_last();
        lemma_prod_remove(d, k);
        assert(s.remove(k).drop_last() =~= d.remove(k));
        assert(s.remove(k).last() == s.last());
        let a = prod(d.remove(k));
        let b = s[k] as nat;
        let c = s.last() as nat;
        assert(a * b * c == a * c * b) by (nonlinear_arith);
    }
}

/// Permuting the axes keeps the product of the extents.
pub proof fn lemma_prod_permuted(s: Seq<usize>, p: Seq<usize>)
    requires
        is_permutation(p, s.len()),
        s.len() <= usize::MAX,
    ensures
        prod(permuted(s, p)) == prod(s),
    decreases s.len(),
{
    if s.len() > 0 {
        let n = s.len();
        let last = (n - 1) as usize;
        assert(p.contains(last));
        let k = choose|k: int| 0 <= k < p.len() && p[k] == last;
        let q = p.remove(k);
        assert forall|i: int| 0 <= i < q.len() implies #[trigger] q[i] < n - 1 by {
            let src = if i < k { i } else { i + 1 };
            assert(q[i] == p[src]);
            assert(p[src] != p[k]);
        }
        assert forall|j: usize| j < n - 1 implies #[trigger] q.contains(j) by {
            assert(p.contains(j));
            let t = choose|t: int| 0 <= t < p.len() && p[t] == j;
            assert(t != k);
            if t < k {
                assert(q[t] == j);
            } else {
                assert(q[t - 1] == j);
            }
        }
        assert(q.no_duplicates()) by {
            assert forall|a: int, b: int| 0 <= a < q.len() && 0 <= b < q.len() && a != b implies q[a]
                != q[b] by {
                let sa = if a < k { a } else { a + 1 };
                let sb = if b < k { b } else { b + 1 };
                assert(q[a] == p[sa] && q[b] == p[sb]);
            }
        }
        let d = s.drop_last();
        assert(is_permutation(q, d.len()));
        lemma_prod_permuted(d, q);
        assert(permuted(s, p).remove(k) =~= permuted(d, q)) by {
            assert forall|i: int| 0 <= i < q.len() implies #[trigger] permuted(s, p).remove(k)[i]
                == permuted(d, q)[i] by {
                let src = if i < k { i } else { i + 1 };
                assert(q[i] == p[src]);
            }
        }
        lemma_prod_remove(permuted(s, p), k);
    }
}

/// Every stride of a shape whose product fits in a `usize` fits too.
pub proof fn lemma_strides_fit(s: Seq<usize>, order: MemoryOrder)
    requires
        0 < prod(s) <= usize::MAX,
    ensures
        strides_fit(s, order),
{
    lemma_prod_positive(s);
    assert forall|i: int| 0 <= i < s.len() implies #[trigger] strides_of(s, order)[i] <= usize::MAX by {
        assert(prod(s.skip(i + 1)) <= prod(s));
        assert(prod(s.take(i)) <= prod(s));
    }
}

// ---------------------------------------------------------------------------
// Lemmas on offsets
// ---------------------------------------------------------------------------

/// The weighted sum reads only the first `n` entries.
proof fn lemma_weighted_sum_prefix(x: Seq<int>, y: Seq<int>, w: Seq<int>, n: nat)
    requires
        n <= x.len(),
        n <= y.len(),
        forall|i: int| 0 <= i < n ==> x[i] == y[i],
    ensures
        weighted_sum(x, w, n) == weighted_sum(y, w, n),
    decreases n,
{
    if n > 0 {
        lemma_weighted_sum_prefix(x, y, w, (n - 1) as nat);
    }
}

/// Partial weighted sums of nonnegative terms grow.
proof fn lemma_weighted_sum_monotone(x: Seq<int>, w: Seq<int>, k: nat, n: nat)
    requires
        k <= n <= x.len(),
        n <= w.len(),
        forall|i: int| 0 <= i < n ==> 0 <= #[trigger] x[i] && 0 <= w[i],
    ensures
        0 <= weighted_sum(x, w, k) <= weighted_sum(x, w, n),
    decreases n,
{
    if k < n {
        lemma_weighted_sum_monotone(x, w, k, (n - 1) as nat);
        let a = x[n - 1];
        let b = w[n - 1];
        assert(0 <= a * b) by (nonlinear_arith)
            requires
                0 <= a,
                0 <= b,
        ;
    } else if n > 0 {
        lemma_weighted_sum_monotone(x, w, (n - 1) as nat, (n - 1) as nat);
        let a = x[n - 1];
        let b = w[n - 1];
        assert(0 <= a * b) by (nonlinear_arith)
            requires
                0 <= a,
                0 <= b,
        ;
    }
}

/// In row-major order the offset of a multi-index stays below the number
/// of elements.
proof fn lemma_row_major_bound(x: Seq<int>, s: Seq<usize>, k: nat)
    requires
        within(x, s),
        k <= s.len(),
    ensures
        weighted_sum(x, row_major_strides(s), k) <= prod(s) - prod(s.skip(k as int)),
    decreases k,
{
    if k == 0 {
        assert(s.skip(0) =~= s);
    } else {
        let j = (k - 1) as int;
        lemma_row_major_bound(x, s, j as nat);
        lemma_prod_front(s.skip(j));
        assert(s.skip(j).skip(1) =~= s.skip(j + 1));
        assert(s.skip(j)[0] == s[j]);
        assert(row_major_strides(s)[j] == prod(s.skip(j + 1)) as int);
        let p = prod(s.skip(j + 1)) as int;
        let e = s[j] as int;
        let v = x[j];
        assert(v * p <= (e - 1) * p) by (nonlinear_arith)
            requires
                0 <= v < e,
                0 <= p,
        ;
        assert((e - 1) * p == e * p - p) by (nonlinear_arith);
    }
}

/// In column-major order the offset of a multi-index stays below the
/// number of elements.
proof fn lemma_column_major_bound(x: Seq<int>, s: Seq<usize>, k: nat)
    requires
        within(x, s),
        k <= s.len(),
    ensures
        weighted_sum(x, column_major_strides(s), k) <= prod(s.take(k as int)) - 1,
    decreases k,
{
    if k == 0 {
        assert(s.take(0) =~= Seq::<usize>::empty());
    } else {
        let j = (k - 1) as int;
        lemma_column_major_bound(x, s, j as nat);
        assert(s.take(k as int).drop_last() =~= s.take(j));
        assert(s.take(k as int).last() == s[j]);
        assert(column_major_strides(s)[j] == prod(s.take(j)) as int);
        let p = prod(s.take(j)) as int;
        let e = s[j] as int;
        let v = x[j];
        assert(v * p <= (e - 1) * p) by (nonlinear_arith)
            requires
                0 <= v < e,
                0 <= p,
        ;
        assert((e - 1) * p == p * e - p) by (nonlinear_arith);
    }
}

/// The offset of a multi-index of `s` lies below the number of elements.
pub proof fn lemma_offset_bound(x: Seq<int>, s: Seq<usize>, order: MemoryOrder)
    requires
        within(x, s),
    ensures
        0 <= weighted_sum(x, strides_of(s, order), x.len()) < prod(s),
{
    lemma_weighted_sum_monotone(x, strides_of(s, order), 0, x.len());
    match order {
        MemoryOrder::RowMajor => {
            lemma_row_major_bound(x, s, x.len());
            assert(s.skip(s.len() as int) =~= Seq::<usize>::empty());
        },
        MemoryOrder::ColumnMajor => {
            lemma_column_major_bound(x, s, x.len());
            assert(s.take(s.len() as int) =~= s);
        },
    }
}

/// `sum_{i < p.len()} h(p[i])`.
pub open spec fn sum_over(p: Seq<usize>, h: spec_fn(int) -> int) -> int
    decreases p.len(),
{
    if p.len() == 0 {
        0
    } else {
        sum_over(p.drop_last(), h) + h(p.last() as int)
    }
}

/// `sum_{j < n} h(j)`.
pub open spec fn sum_range(h: spec_fn(int) -> int, n: nat) -> int
    decreases n,
{
    if n == 0 {
        0
    } else {
        sum_range(h, (n - 1) as nat) + h(n - 1)
    }
}

proof fn lemma_sum_over_remove(p: Seq<usize>, h: spec_fn(int) -> int, k: int)
    requires
        0 <= k < p.len(),
    ensures
        sum_over(p, h) == sum_over(p.remove(k), h) + h(p[k] as int),
    decreases p.len(),
{
    if k == p.len() - 1 {
        assert(p.remove(k) =~= p.drop_last());
    } else {
        lemma_sum_over_remove(p.drop_last(), h, k);
        assert(p.remove(k).drop_last() =~= p.drop_last().remove(k));
        assert(p.remove(k).last() == p.last());
    }
}

/// A sum over a permutation of `0..n` is the sum over `0..n`.
pub proof fn lemma_sum_over_permutation(p: Seq<usize>, h: spec_fn(int) -> int, n: nat)
    requires
        is_permutation(p, n),
        n <= usize::MAX,
    ensures
        sum_over(p, h) == sum_range(h, n),
    decreases n,
{
    if n > 0 {
        let last = (n - 1) as usize;
        assert(p.contains(last));
        let k = choose|k: int| 0 <= k < p.len() && p[k] == last;
        let q = p.remove(k);
        assert forall|i: int| 0 <= i < q.len() implies #[trigger] q[i] < n - 1 by {
            let src = if i < k { i } else { i + 1 };
            assert(q[i] == p[src]);
            assert(p[src] != p[k]);
        }
        assert forall|j: usize| j < n - 1 implies #[trigger] q.contains(j) by {
            assert(p.contains(j));
            let t = choose|t: int| 0 <= t < p.len() && p[t] == j;
            assert(t != k);
            if t < k {
                assert(q[t] == j);
            } else {
                assert(q[t - 1] == j);
            }
        }
        assert(q.no_duplicates()) by {
            assert forall|a: int, b: int| 0 <= a < q.len() && 0 <= b < q.len() && a != b implies q[a]
                != q[b] by {
                let sa = if a < k { a } else { a + 1 };
                let sb = if b < k { b } else { b + 1 };
                assert(q[a] == p[sa] && q[b] == p[sb]);
            }
        }
        lemma_sum_over_remove(p, h, k);
        lemma_sum_over_permutation(q, h, (n - 1) as nat);
    }
}

/// The old offset of a permuted multi-index is the offset, in the old
/// strides, of the multi-index it came from; in particular it lies below
/// the number of elements.
pub proof fn lemma_permuted_offset_bound(x: Seq<int>, s: Seq<usize>, p: Seq<usize>, order: MemoryOrder)
    requires
        is_permutation(p, s.len()),
        s.len() <= usize::MAX,
        within(x, permuted(s, p)),
    ensures
        0 <= weighted_sum(x, permuted_strides(s, p, order), x.len()) < prod(s),
{
    let n = s.len();
    let os = strides_of(s, order);
    let y = Seq::new(n, |j: int| x[first_pos(p, j as usize)]);
    let h = |j: int| y[j] * os[j];
    assert forall|i: int| 0 <= i < n implies first_pos(p, #[trigger] p[i]) == i by {
        lemma_first_pos(p, p[i]);
        let f = first_pos(p, p[i]);
        assert(p.contains(p[i]));
        if f != i {
            assert(p[f] == p[i]);
        }
    }
    assert(within(y, s)) by {
        assert forall|j: int| 0 <= j < y.len() implies 0 <= #[trigger] y[j] < s[j] by {
            assert(p.contains(j as usize));
            lemma_first_pos(p, j as usize);
            let f = first_pos(p, j as usize);
            assert(0 <= f < n && p[f] == j as usize);
            assert(permuted(s, p)[f] == s[j]);
        }
    }
    // The old offset, as a sum over the permutation.
    assert forall|k: nat| k <= n implies weighted_sum(x, permuted_strides(s, p, order), k) == #[trigger] sum_over(
        p.take(k as int),
        h,
    ) by {
        lemma_offset_as_sum(x, s, p, order, h, y, k);
    }
    assert(p.take(n as int) =~= p);
    lemma_sum_over_permutation(p, h, n);
    // The sum over 0..n is the offset of `y` in the old strides.
    lemma_sum_range_is_offset(y, os, h, n);
    lemma_offset_bound(y, s, order);
}

proof fn lemma_offset_as_sum(
    x: Seq<int>,
    s: Seq<usize>,
    p: Seq<usize>,
    order: MemoryOrder,
    h: spec_fn(int) -> int,
    y: Seq<int>,
    k: nat,
)
    requires
        is_permutation(p, s.len()),
        within(x, permuted(s, p)),
        k <= s.len(),
        y.len() == s.len(),
        forall|i: int| 0 <= i < s.len() ==> first_pos(p, #[trigger] p[i]) == i,
        forall|j: int| 0 <= j < s.len() ==> y[j] == x[first_pos(p, j as usize)],
        forall|j: int| #[trigger] h(j) == y[j] * strides_of(s, order)[j],
    ensures
        weighted_sum(x, permuted_strides(s, p, order), k) == sum_over(p.take(k as int), h),
    decreases k,
{
    if k > 0 {
        let i = k - 1;
        lemma_offset_as_sum(x, s, p, order, h, y, i as nat);
        assert(p.take(k as int).drop_last() =~= p.take(i));
        assert(p.take(k as int).last() == p[i]);
        assert(y[p[i] as int] == x[i]);
    }
}

proof fn lemma_sum_range_is_offset(y: Seq<int>, w: Seq<int>, h: spec_fn(int) -> int, n: nat)
    requires
        forall|j: int| #[trigger] h(j) == y[j] * w[j],
    ensures
        sum_range(h, n) == weighted_sum(y, w, n),
    decreases n,
{
    if n > 0 {
        lemma_sum_range_is_offset(y, w, h, (n - 1) as nat);
    }
}

// ---------------------------------------------------------------------------
// Executable code
// ---------------------------------------------------------------------------

/// The strides of `shape` in memory order `order`.
pub fn compute_strides(shape: &[usize], order: MemoryOrder) -> (r: Vec<usize>)
    requires
        strides_fit(shape@, order),
    ensures
        r@.len() == shape@.len(),
        forall|i: int| 0 <= i < shape@.len() ==> r@[i] == #[trigger] strides_of(shape@, order)[i],
{
    let rank = shape.len();
    let mut strides: Vec<usize> = Vec::new();
    let mut t: usize = 0;
    while t < rank
        invariant
            t <= rank == shape@.len(),
            strides@.len() == t,
            forall|i: int| 0 <= i < t ==> strides@[i] == 1,
        decreases rank - t,
    {
        strides.push(1);
        t = t + 1;
    }
    match order {
        MemoryOrder::RowMajor => {
            if rank > 0 {
                let mut i: usize = rank - 1;
                assert(shape@.skip(rank as int) =~= Seq::<usize>::empty());
                while i > 0
                    invariant
                        i < rank == shape@.len(),
                        strides@.len() == rank,
                        strides_fit(shape@, order),
                        order == MemoryOrder::RowMajor,
                        forall|j: int| i <= j < rank ==> strides@[j] == prod(shape@.skip(j + 1)),
                    decreases i,
                {
                    let ghost next = shape@.skip(i as int);
                    proof {
                        lemma_prod_front(next);
                        assert(next.skip(1) =~= shape@.skip(i + 1));
                        assert(next[0] == shape@[i as int]);
                        assert(strides_of(shape@, order)[i - 1] == prod(next));
                        let a = strides@[i as int] as int;
                        let b = shape@[i as int] as int;
                        assert(a * b == b * a) by (nonlinear_arith);
                    }
                    let v = strides[i] * shape[i];
                    strides.set(i - 1, v);
                    i = i - 1;
                }
            }
        },
        MemoryOrder::ColumnMajor => {
            let mut i: usize = 1;
            if rank > 0 {
                assert(shape@.take(0) =~= Seq::<usize>::empty());
            }
            while i < rank
                invariant
                    1 <= i,
                    rank == shape@.len(),
                    strides@.len() == rank,
                    strides_fit(shape@, order),
                    order == MemoryOrder::ColumnMajor,
                    rank > 0 ==> forall|j: int| 0 <= j < i && j < rank ==> strides@[j] == prod(shape@.take(j)),
                decreases rank - i,
            {
                proof {
                    assert(shape@.take(i as int).drop_last() =~= shape@.take(i - 1));
                    assert(shape@.take(i as int).last() == shape@[i - 1]);
                    assert(strides_of(shape@, order)[i as int] == prod(shape@.take(i as int)));
                }
                let v = strides[i - 1] * shape[i - 1];
                strides.set(i, v);
                i = i + 1;
            }
        },
    }
    strides
}

/// The entries of `v` as integers.
pub open spec fn as_ints(v: Seq<usize>) -> Seq<int> {
    v.map_values(|a: usize| a as int)
}

/// Writes into `idx` the multi-index, in the permuted shape `new_shape`
/// with strides `new_strides`, of offset `flat`: one division per axis,
/// from the largest stride to the smallest.
fn decompose(
    flat: usize,
    idx: &mut Vec<usize>,
    new_shape: &Vec<usize>,
    new_strides: &Vec<usize>,
    order: MemoryOrder,
)
    requires
        old(idx)@.len() == new_shape@.len(),
        new_strides@.len() == new_shape@.len(),
        forall|i: int| 0 <= i < new_shape@.len() ==> new_strides@[i] == #[trigger] strides_of(
            new_shape@,
            order,
        )[i],
        flat < prod(new_shape@),
    ensures
        final(idx)@.len() == new_shape@.len(),
        within(as_ints(final(idx)@), new_shape@),
        weighted_sum(as_ints(final(idx)@), strides_of(new_shape@, order), new_shape@.len()) == flat,
{
    let rank = new_shape.len();
    let ghost ns = new_shape@;
    let ghost st = strides_of(ns, order);
    match order {
        MemoryOrder::RowMajor => {
            let mut rem = flat;
            let mut ax: usize = 0;
            proof {
                assert(ns.skip(0) =~= ns);
            }
            while ax < rank
                invariant
                    ax <= rank == ns.len(),
                    idx@.len() == rank,
                    st == strides_of(ns, order),
                    order == MemoryOrder::RowMajor,
                    forall|i: int| 0 <= i < rank ==> new_strides@[i] == #[trigger] st[i],
                    new_strides@.len() == rank,
                    flat == weighted_sum(as_ints(idx@), st, ax as nat) + rem,
                    rem < prod(ns.skip(ax as int)),
                    forall|i: int| 0 <= i < ax ==> 0 <= #[trigger] idx@[i] < ns[i],
                decreases rank - ax,
            {
                let ghost before = idx@;
                proof {
                    lemma_prod_front(ns.skip(ax as int));
                    assert(ns.skip(ax as int).skip(1) =~= ns.skip(ax + 1));
                    assert(st[ax as int] == prod(ns.skip(ax + 1)));
                    assert(prod(ns.skip(ax + 1)) > 0) by {
                        let a = ns[ax as int] as nat;
                        let b = prod(ns.skip(ax + 1));
                        assert(b > 0) by (nonlinear_arith)
                            requires
                                rem < a * b,
                                0 <= rem,
                                0 <= a,
                                0 <= b,
                        ;
                    }
                }
                let s = new_strides[ax];
                let q = rem / s;
                let r = rem % s;
                proof {
                    let a = ns[ax as int] as int;
                    let b = s as int;
                    vstd::arithmetic::div_mod::lemma_fundamental_div_mod(rem as int, b);
                    vstd::arithmetic::div_mod::lemma_multiply_divide_lt(rem as int, b, a);
                    assert(b * a == a * b) by (nonlinear_arith);
                    let qq = q as int;
                    assert(qq * b == b * qq) by (nonlinear_arith);
                }
                idx.set(ax, q);
                proof {
                    lemma_weighted_sum_prefix(as_ints(idx@), as_ints(before), st, ax as nat);
                    assert(as_ints(idx@)[ax as int] == q as int);
                    assert(weighted_sum(as_ints(idx@), st, (ax + 1) as nat) == weighted_sum(
                        as_ints(idx@),
                        st,
                        ax as nat,
                    ) + as_ints(idx@)[ax as int] * st[ax as int]);
                }
                rem = r;
                ax = ax + 1;
            }
            proof {
                assert(ns.skip(rank as int) =~= Seq::<usize>::empty());
            }
        },
        MemoryOrder::ColumnMajor => {
            let mut rem = flat;
            let mut t: usize = rank;
            proof {
                assert(ns.take(rank as int) =~= ns);
            }
            while t > 0
                invariant
                    t <= rank == ns.len(),
                    idx@.len() == rank,
                    st == strides_of(ns, order),
                    order == MemoryOrder::ColumnMajor,
                    forall|i: int| 0 <= i < rank ==> new_strides@[i] == #[trigger] st[i],
                    new_strides@.len() == rank,
                    flat == tail_sum(as_ints(idx@), st, t as nat, rank as nat) + rem,
                    rem < prod(ns.take(t as int)),
                    forall|i: int| t <= i < rank ==> 0 <= #[trigger] idx@[i] < ns[i],
                decreases t,
            {
                let ax = t - 1;
                let ghost before = idx@;
                proof {
                    assert(ns.take(t as int).drop_last() =~= ns.take(ax as int));
                    assert(st[ax as int] == prod(ns.take(ax as int)));
                    assert(prod(ns.take(ax as int)) > 0) by {
                        let a = ns[ax as int] as nat;
                        let b = prod(ns.take(ax as int));
                        assert(b > 0) by (nonlinear_arith)
                            requires
                                rem < b * a,
                                0 <= rem,
                                0 <= a,
                                0 <= b,
                        ;
                    }
                }
                let s = new_strides[ax];
                let q = rem / s;
                let r = rem % s;
                proof {
                    let a = ns[ax as int] as int;
                    let b = s as int;
                    vstd::arithmetic::div_mod::lemma_fundamental_div_mod(rem as int, b);
                    vstd::arithmetic::div_mod::lemma_multiply_divide_lt(rem as int, b, a);
                    let qq = q as int;
                    assert(qq * b == b * qq) by (nonlinear_arith);
                }
                idx.set(ax, q);
                proof {
                    lemma_tail_sum_suffix(as_ints(idx@), as_ints(before), st, t as nat, rank as nat);
                    assert(as_ints(idx@)[ax as int] == q as int);
                    assert(tail_sum(as_ints(idx@), st, ax as nat, rank as nat) == as_ints(idx@)[ax as int]
                        * st[ax as int] + tail_sum(as_ints(idx@), st, t as nat, rank as nat));
                }
                rem = r;
                t = ax;
            }
            proof {
                assert(ns.take(0) =~= Seq::<usize>::empty());
                lemma_tail_sum_is_weighted_sum(as_ints(idx@), st, rank as nat);
            }
        },
    }
}

/// `sum_{t <= i < n} x[i] * w[i]`.
pub open spec fn tail_sum(x: Seq<int>, w: Seq<int>, t: nat, n: nat) -> int
    decreases n - t,
{
    if t >= n {
        0
    } else {
        x[t as int] * w[t as int] + tail_sum(x, w, t + 1, n)
    }
}

proof fn lemma_tail_sum_suffix(x: Seq<int>, y: Seq<int>, w: Seq<int>, t: nat, n: nat)
    requires
        n <= x.len(),
        n <= y.len(),
        forall|i: int| t <= i < n ==> x[i] == y[i],
    ensures
        tail_sum(x, w, t, n) == tail_sum(y, w, t, n),
    decreases n - t,
{
    if t < n {
        lemma_tail_sum_suffix(x, y, w, t + 1, n);
    }
}

proof fn lemma_tail_sum_split(x: Seq<int>, w: Seq<int>, t: nat, n: nat)
    requires
        t < n,
    ensures
        tail_sum(x, w, t, n) == tail_sum(x, w, t, (n - 1) as nat) + x[n - 1] * w[n - 1],
    decreases n - t,
{
    if t + 1 < n {
        lemma_tail_sum_split(x, w, t + 1, n);
        assert(tail_sum(x, w, t, (n - 1) as nat) == x[t as int] * w[t as int] + tail_sum(
            x,
            w,
            t + 1,
            (n - 1) as nat,
        ));
    } else {
        assert(tail_sum(x, w, t + 1, n) == 0);
        assert(tail_sum(x, w, t, (n - 1) as nat) == 0);
    }
}

proof fn lemma_tail_sum_is_weighted_sum(x: Seq<int>, w: Seq<int>, n: nat)
    ensures
        tail_sum(x, w, 0, n) == weighted_sum(x, w, n),
    decreases n,
{
    if n > 0 {
        lemma_tail_sum_split(x, w, 0, n);
        lemma_tail_sum_is_weighted_sum(x, w, (n - 1) as nat);
    }
}

/// `data`, a block of shape `shape` laid out in `order`, with its axes
/// permuted: new axis `i` is old axis `perm[i]`, and the result is laid out
/// in `order` for the permuted shape.
pub fn transpose_block_data<T: Copy>(data: &[T], shape: &[usize], perm: &[usize], order: MemoryOrder) -> (r: Vec<T>)
    requires
        data@.len() == prod(shape@),
        is_permutation(perm@, shape@.len()),
    ensures
        is_axis_permutation(r@, data@, shape@, perm@, order),
{
    let rank = shape.len();
    if rank <= 1 || data.len() == 0 {
        let mut out: Vec<T> = Vec::new();
        let mut i: usize = 0;
        while i < data.len()
            invariant
                i <= data@.len(),
                out@ == data@.take(i as int),
            decreases data.len() - i,
        {
            out.push(data[i]);
            assert(data@.take(i + 1) =~= data@.take(i as int).push(data@[i as int]));
            i = i + 1;
        }
        assert(data@.take(i as int) =~= data@);
        proof {
            lemma_small_rank_identity(data@, shape@, perm@, order);
        }
        return out;
    }
    let total = data.len();
    proof {
        lemma_strides_fit(shape@, order);
    }
    let old_strides = compute_strides(shape, order);
    let mut perm_strides: Vec<usize> = Vec::new();
    let mut new_shape: Vec<usize> = Vec::new();
    let mut i: usize = 0;
    while i < rank
        invariant
            i <= rank == shape@.len() == perm@.len(),
            is_permutation(perm@, rank as nat),
            old_strides@.len() == rank,
            forall|j: int| 0 <= j < rank ==> old_strides@[j] == #[trigger] strides_of(shape@, order)[j],
            perm_strides@ == permuted_strides(shape@, perm@, order).take(i as int).map_values(|v: int| v as usize),
            new_shape@ == permuted(shape@, perm@).take(i as int),
        decreases rank - i,
    {
        let p = perm[i];
        perm_strides.push(old_strides[p]);
        new_shape.push(shape[p]);
        proof {
            assert(perm_strides@ =~= permuted_strides(shape@, perm@, order).take(i + 1).map_values(
                |v: int| v as usize,
            ));
            assert(new_shape@ =~= permuted(shape@, perm@).take(i + 1));
        }
        i = i + 1;
    }
    let ghost ns = permuted(shape@, perm@);
    let ghost ps = permuted_strides(shape@, perm@, order);
    proof {
        assert(new_shape@ =~= ns);
        lemma_prod_permuted(shape@, perm@);
        lemma_strides_fit(ns, order);
        assert forall|j: int| 0 <= j < rank implies #[trigger] perm_strides@[j] == ps[j] by {
            assert(0 <= ps[j] <= usize::MAX) by {
                assert(strides_of(shape@, order)[perm@[j] as int] == ps[j]);
                assert(old_strides@[perm@[j] as int] == strides_of(shape@, order)[perm@[j] as int]);
            }
        }
    }
    let new_strides = compute_strides(&new_shape, order);
    let mut result: Vec<T> = Vec::new();
    let mut idx: Vec<usize> = Vec::new();
    let mut t: usize = 0;
    while t < rank
        invariant
            t <= rank,
            idx@.len() == t,
        decreases rank - t,
    {
        idx.push(0);
        t = t + 1;
    }
    let mut flat: usize = 0;
    while flat < total
        invariant
            flat <= total == data@.len() == prod(shape@) == prod(ns),
            rank == shape@.len() == perm@.len() == ns.len(),
            is_permutation(perm@, rank as nat),
            new_shape@ == ns,
            ns == permuted(shape@, perm@),
            ps == permuted_strides(shape@, perm@, order),
            idx@.len() == rank,
            new_strides@.len() == rank,
            perm_strides@.len() == rank,
            forall|j: int| 0 <= j < rank ==> new_strides@[j] == #[trigger] strides_of(ns, order)[j],
            forall|j: int| 0 <= j < rank ==> #[trigger] perm_strides@[j] == ps[j],
            result@.len() == flat,
            forall|f: int|
                0 <= f < flat ==> #[trigger] has_source(result@, data@, shape@, perm@, order, f),
        decreases total - flat,
    {
        decompose(flat, &mut idx, &new_shape, &new_strides, order);
        let ghost x = as_ints(idx@);
        proof {
            lemma_permuted_offset_bound(x, shape@, perm@, order);
        }
        let mut old_flat: usize = 0;
        let mut a: usize = 0;
        while a < rank
            invariant
                a <= rank == idx@.len() == perm_strides@.len(),
                x == as_ints(idx@),
                within(x, ns),
                forall|j: int| 0 <= j < rank ==> #[trigger] perm_strides@[j] == ps[j],
                0 <= weighted_sum(x, ps, rank as nat) < total,
                ps.len() == rank,
                forall|j: int| 0 <= j < rank ==> 0 <= #[trigger] ps[j],
                old_flat == weighted_sum(x, ps, a as nat),
            decreases rank - a,
        {
            proof {
                lemma_weighted_sum_monotone(x, ps, (a + 1) as nat, rank as nat);
                assert(x[a as int] == idx@[a as int]);
            }
            old_flat = old_flat + idx[a] * perm_strides[a];
            a = a + 1;
        }
        let ghost prev = result@;
        result.push(data[old_flat]);
        proof {
            assert(x.len() == rank);
            assert(moved_from(result@, data@, shape@, perm@, order, flat as int, x));
            assert forall|f: int| 0 <= f < flat implies #[trigger] has_source(
                result@,
                data@,
                shape@,
                perm@,
                order,
                f,
            ) by {
                assert(has_source(prev, data@, shape@, perm@, order, f));
                let y = choose|y: Seq<int>| moved_from(prev, data@, shape@, perm@, order, f, y);
                assert(result@[f] == prev[f]);
                assert(moved_from(result@, data@, shape@, perm@, order, f, y));
            }
        }
        flat = flat + 1;
    }
    result
}

/// With at most one axis, permuting the axes leaves the data as it is.
proof fn lemma_small_rank_identity<T>(data: Seq<T>, shape: Seq<usize>, perm: Seq<usize>, order: MemoryOrder)
    requires
        data.len() == prod(shape),
        is_permutation(perm, shape.len()),
        shape.len() <= 1 || data.len() == 0,
    ensures
        is_axis_permutation(data, data, shape, perm, order),
{
    assert forall|f: int| 0 <= f < data.len() implies #[trigger] has_source(data, data, shape, perm, order, f) by {
        let ns = permuted(shape, perm);
        if shape.len() == 0 {
            let x = Seq::<int>::empty();
            assert(prod(shape) == 1);
            assert(moved_from(data, data, shape, perm, order, f, x));
        } else {
            assert(perm[0] < 1);
            assert(perm[0] == 0usize);
            let x = seq![f];
            assert(shape.drop_last() =~= Seq::<usize>::empty());
            assert(prod(shape) == prod(shape.drop_last()) * (shape.last() as nat));
            let e = prod(shape.drop_last());
            assert(e == 1);
            let c = shape.last() as nat;
            assert(prod(shape) == shape[0] as nat) by (nonlinear_arith)
                requires
                    prod(shape) == e * c,
                    e == 1,
                    c == shape[0] as nat,
            ;
            assert(shape.skip(1) =~= Seq::<usize>::empty());
            assert(shape.take(0) =~= Seq::<usize>::empty());
            assert(ns.skip(1) =~= Seq::<usize>::empty());
            assert(ns.take(0) =~= Seq::<usize>::empty());
            assert(ns[0] == shape[0]);
            assert(strides_of(ns, order)[0] == 1);
            assert(strides_of(shape, order)[0] == 1);
            assert(permuted_strides(shape, perm, order)[0] == 1);
            assert(within(x, ns));
            assert(weighted_sum(x, strides_of(ns, order), 1) == weighted_sum(x, strides_of(ns, order), 0)
                + x[0] * strides_of(ns, order)[0]);
            assert(weighted_sum(x, permuted_strides(shape, perm, order), 1) == weighted_sum(
                x,
                permuted_strides(shape, perm, order),
                0,
            ) + x[0] * permuted_strides(shape, perm, order)[0]);
            assert(moved_from(data, data, shape, perm, order, f, x));
        }
    }
}

// ---------------------------------------------------------------------------
// Position along one axis
// ---------------------------------------------------------------------------

/// A weighted sum splits into its first `t` terms and the rest.
proof fn lemma_weighted_sum_split(x: Seq<int>, w: Seq<int>, t: nat, n: nat)
    requires
        t <= n,
    ensures
        weighted_sum(x, w, n) == weighted_sum(x, w, t) + tail_sum(x, w, t, n),
    decreases n,
{
    if t < n {
        lemma_weighted_sum_split(x, w, t, (n - 1) as nat);
        lemma_tail_sum_split(x, w, t, n);
    }
}

/// A product of positive extents is positive; one zero extent makes it 0.
proof fn lemma_prod_zero(s: Seq<usize>)
    ensures
        prod(s) == 0 <==> exists|i: int| 0 <= i < s.len() && #[trigger] s[i] == 0,
    decreases s.len(),
{
    if s.len() > 0 {
        let d = s.drop_last();
        lemma_prod_zero(d);
        let a = prod(d);
        let c = s.last() as nat;
        assert(a * c == 0 <==> a == 0 || c == 0) by (nonlinear_arith);
        if a == 0 {
            let i = choose|i: int| 0 <= i < d.len() && #[trigger] d[i] == 0;
            assert(s[i] == 0);
        }
        if exists|i: int| 0 <= i < s.len() && #[trigger] s[i] == 0 {
            let i = choose|i: int| 0 <= i < s.len() && #[trigger] s[i] == 0;
            if i < d.len() {
                assert(d[i] == 0);
            }
        }
    }
}

/// `sum_{k < m} x[k] * prod(s[k + 1 .. a])`: the row-major offset of the
/// first `m` coordinates, counted in units of `prod(s[a ..])`.
pub open spec fn head_units(x: Seq<int>, s: Seq<usize>, a: int, m: nat) -> int
    decreases m,
{
    if m == 0 {
        0
    } else {
        head_units(x, s, a, (m - 1) as nat) + x[m - 1] * prod(s.subrange(m as int, a))
    }
}

/// `sum_{t <= k < n} x[k] * prod(s[a + 1 .. k])`: the column-major offset
/// of the coordinates from `t` on, counted in units of `prod(s[.. a + 1])`.
pub open spec fn tail_units(x: Seq<int>, s: Seq<usize>, a: int, t: nat, n: nat) -> int
    decreases n - t,
{
    if t >= n {
        0
    } else {
        x[t as int] * prod(s.subrange(a + 1, t as int)) + tail_units(x, s, a, t + 1, n)
    }
}

/// In row-major order the coordinates before axis `a` contribute a
/// multiple of `prod(s[a ..])`.
proof fn lemma_row_major_head(x: Seq<int>, s: Seq<usize>, a: int, m: nat)
    requires
        within(x, s),
        m <= a < s.len(),
    ensures
        weighted_sum(x, row_major_strides(s), m) == prod(s.skip(a)) * head_units(x, s, a, m),
        head_units(x, s, a, m) >= 0,
    decreases m,
{
    if m > 0 {
        let k = m - 1;
        lemma_row_major_head(x, s, a, k as nat);
        lemma_prod_split(s.skip(m as int), a - m);
        assert(s.skip(m as int).take(a - m) =~= s.subrange(m as int, a));
        assert(s.skip(m as int).skip(a - m) =~= s.skip(a));
        assert(row_major_strides(s)[k] == prod(s.skip(m as int)));
        let big = prod(s.skip(a)) as int;
        let c = prod(s.subrange(m as int, a)) as int;
        let h = head_units(x, s, a, k as nat);
        let v = x[k];
        assert(big * h + v * (c * big) == big * (h + v * c)) by (nonlinear_arith);
        assert(0 <= v * c) by (nonlinear_arith)
            requires
                0 <= v,
                0 <= c,
        ;
    }
}

/// In row-major order the coordinates from `t` on contribute less than
/// `prod(s[t ..])`.
proof fn lemma_row_major_tail(x: Seq<int>, s: Seq<usize>, t: nat)
    requires
        within(x, s),
        t <= s.len(),
    ensures
        0 <= tail_sum(x, row_major_strides(s), t, s.len()) < prod(s.skip(t as int)),
    decreases s.len() - t,
{
    if t == s.len() {
        assert(s.skip(t as int) =~= Seq::<usize>::empty());
    } else {
        lemma_row_major_tail(x, s, t + 1);
        lemma_prod_front(s.skip(t as int));
        assert(s.skip(t as int).skip(1) =~= s.skip(t + 1int));
        assert(s.skip(t as int)[0] == s[t as int]);
        assert(row_major_strides(s)[t as int] == prod(s.skip(t + 1int)));
        let p = prod(s.skip(t + 1int)) as int;
        let e = s[t as int] as int;
        let v = x[t as int];
        assert(0 <= v * p <= (e - 1) * p && (e - 1) * p + p == e * p) by (nonlinear_arith)
            requires
                0 <= v < e,
                0 <= p,
        ;
    }
}

/// In column-major order the coordinates from `t` on, past axis `a`,
/// contribute a multiple of `prod(s[.. a + 1])`.
proof fn lemma_column_major_tail(x: Seq<int>, s: Seq<usize>, a: int, t: nat)
    requires
        within(x, s),
        a < t <= s.len(),
        0 <= a,
    ensures
        tail_sum(x, column_major_strides(s), t, s.len()) == prod(s.take(a + 1)) * tail_units(
            x,
            s,
            a,
            t,
            s.len(),
        ),
        tail_units(x, s, a, t, s.len()) >= 0,
    decreases s.len() - t,
{
    if t < s.len() {
        lemma_column_major_tail(x, s, a, t + 1);
        lemma_prod_split(s.take(t as int), a + 1);
        assert(s.take(t as int).take(a + 1) =~= s.take(a + 1));
        assert(s.take(t as int).skip(a + 1) =~= s.subrange(a + 1, t as int));
        assert(column_major_strides(s)[t as int] == prod(s.take(t as int)));
        let big = prod(s.take(a + 1)) as int;
        let c = prod(s.subrange(a + 1, t as int)) as int;
        let u = tail_units(x, s, a, t + 1, s.len());
        let v = x[t as int];
        assert(v * (big * c) + big * u == big * (v * c + u)) by (nonlinear_arith);
        assert(0 <= v * c) by (nonlinear_arith)
            requires
                0 <= v,
                0 <= c,
        ;
    }
}

/// The stride of axis `a` is positive when no extent is 0.
proof fn lemma_stride_positive(s: Seq<usize>, a: int, order: MemoryOrder)
    requires
        0 <= a < s.len(),
        prod(s) > 0,
    ensures
        strides_of(s, order)[a] > 0,
{
    lemma_prod_positive(s);
    lemma_prod_split(s, a);
    lemma_prod_split(s, a + 1);
    let (l, r) = (prod(s.take(a)), prod(s.skip(a)));
    let (l2, r2) = (prod(s.take(a + 1)), prod(s.skip(a + 1)));
    assert(l > 0 && r2 > 0) by (nonlinear_arith)
        requires
            l * r > 0,
            l2 * r2 > 0,
            l == prod(s.take(a)),
            r2 == prod(s.skip(a + 1)),
            prod(s) == l * r,
            prod(s) == l2 * r2,
            l >= 0,
            r >= 0,
            l2 >= 0,
            r2 >= 0,
    ;
}

/// Entry `offset(x)` of a block of shape `s` stored in `order` lies at
/// coordinate `x[a]` along axis `a`: dividing the offset by the stride of
/// `a` and reducing modulo the extent of `a` gives that coordinate back.
pub proof fn lemma_axis_coordinate(x: Seq<int>, s: Seq<usize>, a: int, order: MemoryOrder)
    requires
        within(x, s),
        0 <= a < s.len(),
    ensures
        strides_of(s, order)[a] > 0,
        (weighted_sum(x, strides_of(s, order), x.len()) / strides_of(s, order)[a]) % (s[a] as int) == x[a],
{
    let n = s.len();
    let st = strides_of(s, order);
    let f = weighted_sum(x, st, n);
    let e = s[a] as int;
    let v = x[a];
    lemma_offset_bound(x, s, order);
    lemma_stride_positive(s, a, order);
    lemma_weighted_sum_split(x, st, (a + 1) as nat, n);
    let p = st[a];
    let q: int;
    let lo: int;
    match order {
        MemoryOrder::RowMajor => {
            lemma_row_major_head(x, s, a, a as nat);
            lemma_row_major_tail(x, s, (a + 1) as nat);
            lemma_prod_front(s.skip(a));
            assert(s.skip(a).skip(1) =~= s.skip(a + 1));
            assert(s.skip(a)[0] == s[a]);
            let h = head_units(x, s, a, a as nat);
            lo = tail_sum(x, st, (a + 1) as nat, n);
            q = e * h + v;
            assert(prod(s.skip(a)) * h == p * (e * h)) by (nonlinear_arith)
                requires
                    prod(s.skip(a)) == e * p,
            ;
            assert(weighted_sum(x, st, (a + 1) as nat) == weighted_sum(x, st, a as nat) + v * p);
            assert(p * (e * h) + v * p == p * q) by (nonlinear_arith)
                requires
                    q == e * h + v,
            ;
            assert(f == p * q + lo);
            vstd::arithmetic::div_mod::lemma_fundamental_div_mod_converse(q, e, h, v);
        },
        MemoryOrder::ColumnMajor => {
            lemma_weighted_sum_monotone(x, st, 0, a as nat);
            lemma_column_major_bound(x, s, a as nat);
            lemma_column_major_tail(x, s, a, (a + 1) as nat);
            assert(s.take(a + 1).drop_last() =~= s.take(a));
            assert(s.take(a + 1).last() == s[a]);
            let u = tail_units(x, s, a, (a + 1) as nat, n);
            lo = weighted_sum(x, st, a as nat);
            q = v + e * u;
            assert(prod(s.take(a + 1)) * u == p * (e * u)) by (nonlinear_arith)
                requires
                    prod(s.take(a + 1)) == p * e,
            ;
            assert(weighted_sum(x, st, (a + 1) as nat) == lo + v * p);
            assert(v * p + p * (e * u) == p * q) by (nonlinear_arith)
                requires
                    q == v + e * u,
            ;
            assert(f == p * q + lo);
            assert(q == u * e + v) by (nonlinear_arith)
                requires
                    q == v + e * u,
            ;
            vstd::arithmetic::div_mod::lemma_fundamental_div_mod_converse(q, e, u, v);
        },
    }
    assert(p * q == q * p) by (nonlinear_arith);
    vstd::arithmetic::div_mod::lemma_fundamental_div_mod_converse(f, p, q, lo);
}

/// The position along `axis` of each entry of a block of shape `shape`
/// stored in `order`, as scaling the block along that axis reads it: entry
/// `i` is at `(i / stride) % shape[axis]`, `stride` being the distance
/// between neighbours along `axis`. That is the coordinate along `axis` of
/// the multi-index whose offset is `i`.
pub fn axis_positions(shape: &[usize], axis: usize, order: MemoryOrder) -> (r: Vec<usize>)
    requires
        axis < shape@.len(),
        prod(shape@) <= usize::MAX,
    ensures
        r@.len() == prod(shape@),
        forall|i: int|
            0 <= i < r@.len() ==> #[trigger] r@[i] == (i / strides_of(shape@, order)[axis as int]) % (
            shape@[axis as int] as int),
        forall|x: Seq<int>|
            within(x, shape@) ==> #[trigger] r@[weighted_sum(x, strides_of(shape@, order), x.len())]
                == x[axis as int],
{
    let rank = shape.len();
    let mut k: usize = 0;
    while k < rank
        invariant
            k <= rank == shape@.len(),
            forall|j: int| 0 <= j < k ==> #[trigger] shape@[j] > 0,
        decreases rank - k,
    {
        if shape[k] == 0 {
            proof {
                lemma_prod_zero(shape@);
                assert forall|x: Seq<int>| within(x, shape@) implies false by {
                    lemma_offset_bound(x, shape@, order);
                }
            }
            return Vec::new();
        }
        k = k + 1;
    }
    proof {
        lemma_prod_zero(shape@);
        lemma_strides_fit(shape@, order);
        lemma_stride_positive(shape@, axis as int, order);
        lemma_prod_positive(shape@);
    }
    let strides = compute_strides(shape, order);
    let stride = strides[axis];
    let extent = shape[axis];
    let mut total: usize = 1;
    let mut t: usize = 0;
    assert(shape@.take(0) =~= Seq::<usize>::empty());
    while t < rank
        invariant
            t <= rank == shape@.len(),
            total == prod(shape@.take(t as int)),
            forall|j: int| 0 <= j <= rank ==> #[trigger] prod(shape@.take(j)) <= prod(shape@),
            prod(shape@) <= usize::MAX,
        decreases rank - t,
    {
        assert(shape@.take(t + 1).drop_last() =~= shape@.take(t as int));
        assert(prod(shape@.take(t + 1)) <= prod(shape@));
        total = total * shape[t];
        t = t + 1;
    }
    assert(shape@.take(rank as int) =~= shape@);
    let mut r: Vec<usize> = Vec::new();
    let mut i: usize = 0;
    while i < total
        invariant
            i <= total,
            stride > 0,
            extent > 0,
            r@.len() == i,
            forall|j: int| 0 <= j < i ==> #[trigger] r@[j] == (j / (stride as int)) % (extent as int),
        decreases total - i,
    {
        r.push((i / stride) % extent);
        i = i + 1;
    }
    proof {
        assert forall|x: Seq<int>| within(x, shape@) implies #[trigger] r@[weighted_sum(
            x,
            strides_of(shape@, order),
            x.len(),
        )] == x[axis as int] by {
            lemma_axis_coordinate(x, shape@, axis as int, order);
            lemma_offset_bound(x, shape@, order);
        }
    }
    r
}

// ---------------------------------------------------------------------------
// Composing axis permutations
// ---------------------------------------------------------------------------

/// The weights `w` listed in the order `p`: entry `i` is `w[p[i]]`.
pub open spec fn reordered(w: Seq<int>, p: Seq<usize>) -> Seq<int> {
    Seq::new(p.len(), |i: int| w[p[i] as int])
}

/// A multi-index `x` of a shape permuted by `p`, read in the original axis
/// order: entry `j` is the coordinate along the new axis that old axis `j`
/// became.
pub open spec fn unpermuted(x: Seq<int>, p: Seq<usize>) -> Seq<int> {
    Seq::new(p.len(), |j: int| x[first_pos(p, j as usize)])
}

/// The permutation of `0..n` that leaves every axis in place.
pub open spec fn identity_permutation(n: nat) -> Seq<usize> {
    Seq::new(n, |i: int| i as usize)
}

/// Where each entry of a permutation sits, and what sits at each place.
proof fn lemma_permutation_positions(p: Seq<usize>, n: nat)
    requires
        is_permutation(p, n),
        n <= usize::MAX,
    ensures
        forall|i: int| 0 <= i < n ==> first_pos(p, #[trigger] p[i]) == i,
        forall|j: int|
            0 <= j < n ==> 0 <= #[trigger] first_pos(p, j as usize) < n && p[first_pos(p, j as usize)] == j,
{
    assert forall|i: int| 0 <= i < n implies first_pos(p, #[trigger] p[i]) == i by {
        lemma_first_pos(p, p[i]);
        let f = first_pos(p, p[i]);
        assert(p.contains(p[i]));
        if f != i {
            assert(p[f] == p[i]);
        }
    }
    assert forall|j: int| 0 <= j < n implies 0 <= #[trigger] first_pos(p, j as usize) < n && p[first_pos(
        p,
        j as usize,
    )] == j by {
        assert(p.contains(j as usize));
        lemma_first_pos(p, j as usize);
    }
}

proof fn lemma_reindex_as_sum(x: Seq<int>, w: Seq<int>, p: Seq<usize>, h: spec_fn(int) -> int, k: nat)
    requires
        is_permutation(p, w.len()),
        x.len() == p.len(),
        p.len() <= usize::MAX,
        k <= p.len(),
        forall|j: int| #[trigger] h(j) == unpermuted(x, p)[j] * w[j],
    ensures
        weighted_sum(x, reordered(w, p), k) == sum_over(p.take(k as int), h),
    decreases k,
{
    if k > 0 {
        let i = k - 1;
        lemma_reindex_as_sum(x, w, p, h, i as nat);
        lemma_permutation_positions(p, w.len());
        assert(p.take(k as int).drop_last() =~= p.take(i));
        assert(p.take(k as int).last() == p[i]);
        assert(unpermuted(x, p)[p[i] as int] == x[i]);
    }
}

/// Reading a weighted sum in another order of its terms: the sum of
/// `x[i] * w[p[i]]` is the sum of `unpermuted(x, p)[j] * w[j]`.
proof fn lemma_weighted_sum_reindex(x: Seq<int>, w: Seq<int>, p: Seq<usize>)
    requires
        is_permutation(p, w.len()),
        x.len() == p.len(),
        p.len() <= usize::MAX,
    ensures
        weighted_sum(x, reordered(w, p), p.len()) == weighted_sum(unpermuted(x, p), w, p.len()),
{
    let n = p.len();
    let y = unpermuted(x, p);
    let h = |j: int| y[j] * w[j];
    lemma_reindex_as_sum(x, w, p, h, n);
    assert(p.take(n as int) =~= p);
    lemma_sum_over_permutation(p, h, n);
    lemma_sum_range_is_offset(y, w, h, n);
}

/// A multi-index of the permuted shape, read in the original axis order,
/// is a multi-index of the original shape.
proof fn lemma_unpermuted_within(x: Seq<int>, s: Seq<usize>, p: Seq<usize>)
    requires
        is_permutation(p, s.len()),
        s.len() <= usize::MAX,
        within(x, permuted(s, p)),
    ensures
        within(unpermuted(x, p), s),
{
    lemma_permutation_positions(p, s.len());
    assert forall|j: int| 0 <= j < s.len() implies 0 <= #[trigger] unpermuted(x, p)[j] < s[j] by {
        let f = first_pos(p, j as usize);
        assert(permuted(s, p)[f] == s[j]);
    }
}

/// Two multi-indices of one shape with the same offset are the same.
pub proof fn lemma_offset_injective(x: Seq<int>, y: Seq<int>, s: Seq<usize>, order: MemoryOrder)
    requires
        within(x, s),
        within(y, s),
        weighted_sum(x, strides_of(s, order), x.len()) == weighted_sum(y, strides_of(s, order), y.len()),
    ensures
        x == y,
{
    assert forall|a: int| 0 <= a < x.len() implies x[a] == y[a] by {
        lemma_axis_coordinate(x, s, a, order);
        lemma_axis_coordinate(y, s, a, order);
    }
    assert(x =~= y);
}

/// Permuting axes twice is permuting them once: permuting the axes of
/// `data` (shape `s`) by `p`, then those of the result by `q`, permutes the
/// axes of `data` by `p` read in the order `q` (new axis `i` is old axis
/// `p[q[i]]`).
pub proof fn law_transpose_compose<T>(
    data: Seq<T>,
    r: Seq<T>,
    r2: Seq<T>,
    s: Seq<usize>,
    p: Seq<usize>,
    q: Seq<usize>,
    order: MemoryOrder,
)
    requires
        s.len() <= usize::MAX,
        data.len() == prod(s),
        is_permutation(p, s.len()),
        is_permutation(q, s.len()),
        is_axis_permutation(r, data, s, p, order),
        is_axis_permutation(r2, r, permuted(s, p), q, order),
    ensures
        is_axis_permutation(r2, data, s, permuted(p, q), order),
{
    let n = s.len();
    let s1 = permuted(s, p);
    let pq = permuted(p, q);
    assert(permuted(s1, q) =~= permuted(s, pq));
    lemma_prod_permuted(s, p);
    assert forall|f: int| 0 <= f < r2.len() implies #[trigger] has_source(r2, data, s, pq, order, f) by {
        assert(has_source(r2, r, s1, q, order, f));
        let z = choose|z: Seq<int>| #[trigger] moved_from(r2, r, s1, q, order, f, z);
        let w = unpermuted(z, q);
        lemma_unpermuted_within(z, s1, q);
        // Where `z` reads `r`: the offset of `w` in the permuted shape.
        assert(permuted_strides(s1, q, order) =~= reordered(strides_of(s1, order), q));
        lemma_weighted_sum_reindex(z, strides_of(s1, order), q);
        let g = weighted_sum(w, strides_of(s1, order), n);
        lemma_offset_bound(w, s1, order);
        assert(has_source(r, data, s, p, order, g));
        let y = choose|y: Seq<int>| #[trigger] moved_from(r, data, s, p, order, g, y);
        lemma_offset_injective(y, w, s1, order);
        // Where `y` reads `data`: reindex by `q` once more.
        assert(permuted_strides(s, p, order) =~= reordered(strides_of(s, order), p));
        assert(permuted_strides(s, pq, order) =~= reordered(permuted_strides(s, p, order), q));
        lemma_weighted_sum_reindex(z, permuted_strides(s, p, order), q);
        assert(moved_from(r2, data, s, pq, order, f, z));
    }
}

/// Permuting axes by the identity leaves the data as it is.
pub proof fn law_transpose_identity<T>(data: Seq<T>, r: Seq<T>, s: Seq<usize>, order: MemoryOrder)
    requires
        s.len() <= usize::MAX,
        data.len() == prod(s),
        is_axis_permutation(r, data, s, identity_permutation(s.len()), order),
    ensures
        r == data,
{
    let id = identity_permutation(s.len());
    assert(permuted(s, id) =~= s);
    assert(permuted_strides(s, id, order) =~= strides_of(s, order));
    assert forall|f: int| 0 <= f < r.len() implies r[f] == data[f] by {
        assert(has_source(r, data, s, id, order, f));
        let x = choose|x: Seq<int>| #[trigger] moved_from(r, data, s, id, order, f, x);
    }
    assert(r =~= data);
}

/// The axis permutation of a block is determined: two results that both
/// permute the axes of `data` by `perm` are equal.
pub proof fn law_transpose_unique<T>(
    data: Seq<T>,
    r: Seq<T>,
    r2: Seq<T>,
    s: Seq<usize>,
    perm: Seq<usize>,
    order: MemoryOrder,
)
    requires
        is_axis_permutation(r, data, s, perm, order),
        is_axis_permutation(r2, data, s, perm, order),
    ensures
        r == r2,
{
    assert forall|f: int| 0 <= f < r.len() implies r[f] == r2[f] by {
        assert(has_source(r, data, s, perm, order, f));
        assert(has_source(r2, data, s, perm, order, f));
        let x = choose|x: Seq<int>| #[trigger] moved_from(r, data, s, perm, order, f, x);
        let y = choose|y: Seq<int>| #[trigger] moved_from(r2, data, s, perm, order, f, y);
        lemma_offset_injective(x, y, permuted(s, perm), order);
    }
    assert(r =~= r2);
}

/// Offset `f` of `r` is the offset in `to` order of the multi-index `x`,
/// and holds the entry of `data` at the offset of `x` in `from` order.
pub open spec fn relaid_from<T>(
    r: Seq<T>,
    data: Seq<T>,
    shape: Seq<usize>,
    from: MemoryOrder,
    to: MemoryOrder,
    f: int,
    x: Seq<int>,
) -> bool {
    &&& within(x, shape)
    &&& weighted_sum(x, strides_of(shape, to), x.len()) == f
    &&& r[f] == data[weighted_sum(x, strides_of(shape, from), x.len())]
}

/// `r` holds the block `data` of shape `shape`, stored in `from` order, in
/// `to` order: the entry at every multi-index keeps its value.
pub open spec fn is_reordering<T>(r: Seq<T>, data: Seq<T>, shape: Seq<usize>, from: MemoryOrder, to: MemoryOrder) -> bool {
    &&& r.len() == data.len()
    &&& forall|x: Seq<int>|
        within(x, shape) ==> #[trigger] r[weighted_sum(x, strides_of(shape, to), x.len())]
            == data[weighted_sum(x, strides_of(shape, from), x.len())]
}

/// Offset `f` of `r` holds the entry of `data` at the multi-index whose
/// offset in `to` order is `f`.
pub open spec fn has_origin<T>(r: Seq<T>, data: Seq<T>, shape: Seq<usize>, from: MemoryOrder, to: MemoryOrder, f: int) -> bool {
    exists|x: Seq<int>| #[trigger] relaid_from(r, data, shape, from, to, f, x)
}

/// `data`, a block of shape `shape` stored in `from` order, stored in `to`
/// order instead: the entry at every multi-index keeps its value.
pub fn reorder_block<T: Copy>(data: &[T], shape: &[usize], from: MemoryOrder, to: MemoryOrder) -> (r: Vec<T>)
    requires
        data@.len() == prod(shape@),
    ensures
        is_reordering(r@, data@, shape@, from, to),
{
    let total = data.len();
    let rank = shape.len();
    if total == 0 {
        proof {
            assert forall|x: Seq<int>| within(x, shape@) implies false by {
                lemma_offset_bound(x, shape@, to);
            }
        }
        return Vec::new();
    }
    proof {
        lemma_strides_fit(shape@, from);
        lemma_strides_fit(shape@, to);
    }
    let from_strides = compute_strides(shape, from);
    let to_strides = compute_strides(shape, to);
    let mut shape_vec: Vec<usize> = Vec::new();
    let mut t: usize = 0;
    while t < rank
        invariant
            t <= rank == shape@.len(),
            shape_vec@ == shape@.take(t as int),
        decreases rank - t,
    {
        shape_vec.push(shape[t]);
        assert(shape@.take(t + 1) =~= shape@.take(t as int).push(shape@[t as int]));
        t = t + 1;
    }
    assert(shape@.take(rank as int) =~= shape@);
    let mut idx: Vec<usize> = Vec::new();
    let mut u: usize = 0;
    while u < rank
        invariant
            u <= rank,
            idx@.len() == u,
        decreases rank - u,
    {
        idx.push(0);
        u = u + 1;
    }
    let ghost fs = strides_of(shape@, from);
    let mut result: Vec<T> = Vec::new();
    let mut flat: usize = 0;
    while flat < total
        invariant
            flat <= total == data@.len() == prod(shape@),
            rank == shape@.len(),
            shape_vec@ == shape@,
            fs == strides_of(shape@, from),
            idx@.len() == rank,
            from_strides@.len() == rank,
            to_strides@.len() == rank,
            forall|j: int| 0 <= j < rank ==> from_strides@[j] == #[trigger] fs[j],
            forall|j: int| 0 <= j < rank ==> to_strides@[j] == #[trigger] strides_of(shape@, to)[j],
            result@.len() == flat,
            forall|f: int| 0 <= f < flat ==> #[trigger] has_origin(result@, data@, shape@, from, to, f),
        decreases total - flat,
    {
        decompose(flat, &mut idx, &shape_vec, &to_strides, to);
        let ghost x = as_ints(idx@);
        proof {
            lemma_offset_bound(x, shape@, from);
            lemma_weighted_sum_monotone(x, fs, 0, rank as nat);
        }
        let mut old_flat: usize = 0;
        let mut a: usize = 0;
        while a < rank
            invariant
                a <= rank == idx@.len() == from_strides@.len() == fs.len(),
                x == as_ints(idx@),
                within(x, shape@),
                forall|j: int| 0 <= j < rank ==> from_strides@[j] == #[trigger] fs[j],
                0 <= weighted_sum(x, fs, rank as nat) < total,
                forall|j: int| 0 <= j < rank ==> 0 <= #[trigger] fs[j],
                old_flat == weighted_sum(x, fs, a as nat),
            decreases rank - a,
        {
            proof {
                lemma_weighted_sum_monotone(x, fs, (a + 1) as nat, rank as nat);
                assert(x[a as int] == idx@[a as int]);
            }
            old_flat = old_flat + idx[a] * from_strides[a];
            a = a + 1;
        }
        let ghost prev = result@;
        result.push(data[old_flat]);
        proof {
            assert(relaid_from(result@, data@, shape@, from, to, flat as int, x));
            assert forall|f: int| 0 <= f < flat implies #[trigger] has_origin(result@, data@, shape@, from, to, f) by {
                assert(has_origin(prev, data@, shape@, from, to, f));
                let y = choose|y: Seq<int>| #[trigger] relaid_from(prev, data@, shape@, from, to, f, y);
                assert(result@[f] == prev[f]);
                assert(relaid_from(result@, data@, shape@, from, to, f, y));
            }
        }
        flat = flat + 1;
    }
    proof {
        assert forall|x: Seq<int>| within(x, shape@) implies #[trigger] result@[weighted_sum(
            x,
            strides_of(shape@, to),
            x.len(),
        )] == data@[weighted_sum(x, strides_of(shape@, from), x.len())] by {
            lemma_offset_bound(x, shape@, to);
            let f = weighted_sum(x, strides_of(shape@, to), x.len());
            assert(has_origin(result@, data@, shape@, from, to, f));
            let y = choose|y: Seq<int>| #[trigger] relaid_from(result@, data@, shape@, from, to, f, y);
            lemma_offset_injective(x, y, shape@, to);
        }
    }
    result
}

/// The weighted sum over the first `n` terms reads only the first `n`
/// weights.
proof fn lemma_weighted_sum_weights(x: Seq<int>, w: Seq<int>, v: Seq<int>, n: nat)
    requires
        forall|i: int| 0 <= i < n ==> w[i] == v[i],
    ensures
        weighted_sum(x, w, n) == weighted_sum(x, v, n),
    decreases n,
{
    if n > 0 {
        lemma_weighted_sum_weights(x, w, v, (n - 1) as nat);
    }
}

/// Dropping the first term of a weighted sum.
proof fn lemma_weighted_sum_front(x: Seq<int>, w: Seq<int>, n: nat)
    requires
        0 < n <= x.len(),
        n <= w.len(),
    ensures
        weighted_sum(x, w, n) == x[0] * w[0] + weighted_sum(x.skip(1), w.skip(1), (n - 1) as nat),
    decreases n,
{
    let (xs, ws) = (x.skip(1), w.skip(1));
    let m = (n - 1) as nat;
    if n > 1 {
        lemma_weighted_sum_front(x, w, m);
        assert(xs[n - 2] == x[n - 1]);
        assert(ws[n - 2] == w[n - 1]);
        assert(weighted_sum(xs, ws, m) == weighted_sum(xs, ws, (m - 1) as nat) + xs[m - 1] * ws[m - 1]);
        assert(weighted_sum(x, w, n) == weighted_sum(x, w, m) + x[n - 1] * w[n - 1]);
    } else {
        assert(weighted_sum(xs, ws, 0) == 0);
        assert(weighted_sum(x, w, 0) == 0);
        assert(weighted_sum(x, w, 1) == weighted_sum(x, w, 0) + x[0] * w[0]);
    }
}

/// The row-major multi-index of offset `f` in shape `s`.
pub open spec fn row_major_index(f: int, s: Seq<usize>) -> Seq<int>
    decreases s.len(),
{
    if s.len() == 0 {
        Seq::empty()
    } else {
        let p = prod(s.skip(1)) as int;
        seq![f / p] + row_major_index(f % p, s.skip(1))
    }
}

/// The column-major multi-index of offset `f` in shape `s`.
pub open spec fn column_major_index(f: int, s: Seq<usize>) -> Seq<int>
    decreases s.len(),
{
    if s.len() == 0 {
        Seq::empty()
    } else {
        let p = prod(s.drop_last()) as int;
        column_major_index(f % p, s.drop_last()).push(f / p)
    }
}

/// Below the number of elements, `q * p + r` with `r < p` names a first
/// coordinate `q` below the first extent.
proof fn lemma_split_offset(f: int, e: int, p: int)
    requires
        0 <= f < e * p,
        0 <= e,
        0 <= p,
    ensures
        p > 0,
        0 <= f / p < e,
        0 <= f % p < p,
        f == (f / p) * p + f % p,
{
    assert(p > 0) by (nonlinear_arith)
        requires
            0 <= f < e * p,
            0 <= e,
            0 <= p,
    ;
    vstd::arithmetic::div_mod::lemma_fundamental_div_mod(f, p);
    vstd::arithmetic::div_mod::lemma_mod_pos_bound(f, p);
    vstd::arithmetic::div_mod::lemma_div_pos_is_pos(f, p);
    let q = f / p;
    assert(p * q == q * p) by (nonlinear_arith);
    assert(q < e) by (nonlinear_arith)
        requires
            f == q * p + f % p,
            0 <= f % p,
            f < e * p,
            p > 0,
    ;
}

proof fn lemma_row_major_index(f: int, s: Seq<usize>)
    requires
        0 <= f < prod(s),
    ensures
        within(row_major_index(f, s), s),
        weighted_sum(row_major_index(f, s), row_major_strides(s), s.len()) == f,
    decreases s.len(),
{
    if s.len() == 0 {
        assert(f == 0);
    } else {
        let t = s.skip(1);
        let p = prod(t) as int;
        lemma_prod_front(s);
        lemma_split_offset(f, s[0] as int, p);
        let (q, r) = (f / p, f % p);
        lemma_row_major_index(r, t);
        let y = row_major_index(r, t);
        let x = row_major_index(f, s);
        assert(x == seq![q] + y);
        assert(x.skip(1) =~= y);
        assert forall|i: int| 0 <= i < x.len() implies 0 <= #[trigger] x[i] < s[i] by {
            if i > 0 {
                assert(x[i] == y[i - 1]);
                assert(t[i - 1] == s[i]);
            }
        }
        lemma_weighted_sum_front(x, row_major_strides(s), s.len());
        assert(row_major_strides(s).skip(1) =~= row_major_strides(t)) by {
            assert forall|i: int| 0 <= i < t.len() implies row_major_strides(s).skip(1)[i] == row_major_strides(t)[i] by {
                assert(s.skip(i + 2) =~= t.skip(i + 1));
            }
        }
        assert(row_major_strides(s)[0] == p);
    }
}

proof fn lemma_column_major_index(f: int, s: Seq<usize>)
    requires
        0 <= f < prod(s),
    ensures
        within(column_major_index(f, s), s),
        weighted_sum(column_major_index(f, s), column_major_strides(s), s.len()) == f,
    decreases s.len(),
{
    if s.len() == 0 {
        assert(f == 0);
    } else {
        let d = s.drop_last();
        let p = prod(d) as int;
        let n = s.len();
        assert(prod(s) == p * (s.last() as int));
        assert(p * (s.last() as int) == (s.last() as int) * p) by (nonlinear_arith);
        lemma_split_offset(f, s.last() as int, p);
        let (q, r) = (f / p, f % p);
        lemma_column_major_index(r, d);
        let y = column_major_index(r, d);
        let x = column_major_index(f, s);
        assert(x == y.push(q));
        assert forall|i: int| 0 <= i < x.len() implies 0 <= #[trigger] x[i] < s[i] by {
            if i < n - 1 {
                assert(x[i] == y[i]);
                assert(d[i] == s[i]);
            }
        }
        lemma_weighted_sum_prefix(x, y, column_major_strides(s), (n - 1) as nat);
        assert forall|i: int| 0 <= i < n - 1 implies column_major_strides(s)[i] == column_major_strides(d)[i] by {
            assert(s.take(i) =~= d.take(i));
        }
        lemma_weighted_sum_weights(y, column_major_strides(s), column_major_strides(d), (n - 1) as nat);
        assert(s.take(n - 1) =~= d);
    }
}

/// Every offset below the number of elements is the offset of some
/// multi-index.
pub proof fn lemma_offset_onto(f: int, s: Seq<usize>, order: MemoryOrder)
    requires
        0 <= f < prod(s),
    ensures
        exists|x: Seq<int>| within(x, s) && #[trigger] weighted_sum(x, strides_of(s, order), x.len()) == f,
{
    match order {
        MemoryOrder::RowMajor => {
            lemma_row_major_index(f, s);
            let x = row_major_index(f, s);
            assert(weighted_sum(x, strides_of(s, order), x.len()) == f);
        },
        MemoryOrder::ColumnMajor => {
            lemma_column_major_index(f, s);
            let x = column_major_index(f, s);
            assert(weighted_sum(x, strides_of(s, order), x.len()) == f);
        },
    }
}

/// Storing a block in another memory order and back gives the block back.
pub proof fn law_reorder_round_trip<T>(
    data: Seq<T>,
    r: Seq<T>,
    r2: Seq<T>,
    s: Seq<usize>,
    a: MemoryOrder,
    b: MemoryOrder,
)
    requires
        data.len() == prod(s),
        is_reordering(r, data, s, a, b),
        is_reordering(r2, r, s, b, a),
    ensures
        r2 == data,
{
    assert forall|f: int| 0 <= f < data.len() implies r2[f] == data[f] by {
        lemma_offset_onto(f, s, a);
        let x = choose|x: Seq<int>| within(x, s) && #[trigger] weighted_sum(x, strides_of(s, a), x.len()) == f;
        assert(r2[weighted_sum(x, strides_of(s, a), x.len())] == r[weighted_sum(x, strides_of(s, b), x.len())]);
    }
    assert(r2 =~= data);
}

} // verus!
