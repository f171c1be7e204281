//! Block-index tuples of a group of legs, as fused into one leg: every tuple
//! of block indices, in lexicographic order, and the extent of the block
//! each tuple names; and the offsets and total extent of the tuples that
//! fuse into one sector.

use vstd::prelude::*;

use crate::block_ops::{cumulative_offsets, sum_of};
use crate::seqs::concat_all;
use crate::strided::prod;

verus! {

/// `t` extended by each block index below `n`, in order.
pub open spec fn extensions(t: Seq<usize>, n: nat) -> Seq<Seq<usize>> {
    Seq::new(n, |k: int| t.push(k as usize))
}

/// Every tuple of block indices below the block counts `nb`, in
/// lexicographic order (the last leg varies fastest).
pub open spec fn lex_tuples(nb: Seq<usize>) -> Seq<Seq<usize>>
    decreases nb.len(),
{
    if nb.len() == 0 {
        seq![Seq::<usize>::empty()]
    } else {
        concat_all(lex_tuples(nb.drop_last()).map_values(|t: Seq<usize>| extensions(t, nb.last() as nat)))
    }
}

/// The tuples as sequences.
pub open spec fn tuples_view(v: Seq<Vec<usize>>) -> Seq<Seq<usize>> {
    v.map_values(|t: Vec<usize>| t@)
}

/// Every tuple of block indices below the block counts `num_blocks`, in
/// lexicographic order: the first leg varies slowest, the last fastest. A
/// leg without blocks leaves no tuple; no legs leave the one empty tuple.
pub fn enumerate_block_tuples(num_blocks: &[usize]) -> (r: Vec<Vec<usize>>)
    ensures
        tuples_view(r@) == lex_tuples(num_blocks@),
{
    let mut cur: Vec<Vec<usize>> = Vec::new();
    cur.push(Vec::new());
    proof {
        assert(num_blocks@.take(0) =~= Seq::<usize>::empty());
        assert(tuples_view(cur@) =~= seq![Seq::<usize>::empty()]);
    }
    let mut i: usize = 0;
    while i < num_blocks.len()
        invariant
            i <= num_blocks@.len(),
            tuples_view(cur@) == lex_tuples(num_blocks@.take(i as int)),
        decreases num_blocks.len() - i,
    {
        let n = num_blocks[i];
        let ghost prev = tuples_view(cur@);
        let ghost rows = prev.map_values(|t: Seq<usize>| extensions(t, n as nat));
        let mut next: Vec<Vec<usize>> = Vec::new();
        let mut u: usize = 0;
        assert(rows.take(0) =~= Seq::<Seq<Seq<usize>>>::empty());
        while u < cur.len()
            invariant
                u <= cur@.len(),
                prev == tuples_view(cur@),
                rows == prev.map_values(|t: Seq<usize>| extensions(t, n as nat)),
                tuples_view(next@) == concat_all(rows.take(u as int)),
            decreases cur.len() - u,
        {
            let ghost head = tuples_view(next@);
            let mut k: usize = 0;
            while k < n
                invariant
                    k <= n,
                    u < cur@.len(),
                    prev == tuples_view(cur@),
                    tuples_view(next@) == head + extensions(prev[u as int], n as nat).take(k as int),
                decreases n - k,
            {
                let mut t = cur[u].clone();
                proof {
                    assert(t@ == cur@[u as int]@);
                }
                t.push(k);
                let ghost before = tuples_view(next@);
                next.push(t);
                proof {
                    assert(tuples_view(next@) =~= before.push(prev[u as int].push(k)));
                    assert(extensions(prev[u as int], n as nat).take(k + 1) =~= extensions(
                        prev[u as int],
                        n as nat,
                    ).take(k as int).push(prev[u as int].push(k)));
                }
                k = k + 1;
            }
            proof {
                assert(extensions(prev[u as int], n as nat).take(k as int) =~= extensions(
                    prev[u as int],
                    n as nat,
                ));
                assert(rows.take(u + 1).drop_last() =~= rows.take(u as int));
                assert(rows.take(u + 1).last() == rows[u as int]);
            }
            u = u + 1;
        }
        proof {
            assert(rows.take(u as int) =~= rows);
            let nb = num_blocks@.take(i + 1);
            assert(nb.drop_last() =~= num_blocks@.take(i as int));
            assert(nb.last() == n);
        }
        cur = next;
        i = i + 1;
    }
    proof {
        assert(num_blocks@.take(i as int) =~= num_blocks@);
    }
    cur
}

/// The extents of the blocks a tuple names, leg by leg.
pub open spec fn tuple_extents(block_dims: Seq<Seq<usize>>, tuple: Seq<usize>) -> Seq<usize> {
    Seq::new(tuple.len(), |i: int| block_dims[i][tuple[i] as int])
}

/// The extent of the block named by `tuple`: the product of the extents of
/// its blocks, leg by leg, where `block_dims[i]` lists the extents of the
/// blocks of leg `i`.
pub fn tuple_extent(block_dims: &Vec<Vec<usize>>, tuple: &[usize]) -> (r: usize)
    requires
        tuple@.len() <= block_dims@.len(),
        forall|i: int| 0 <= i < tuple@.len() ==> #[trigger] tuple@[i] < block_dims@[i]@.len(),
        forall|k: int|
            0 <= k <= tuple@.len() ==> #[trigger] prod(
                tuple_extents(tuples_view(block_dims@), tuple@).take(k),
            ) <= usize::MAX,
    ensures
        r == prod(tuple_extents(tuples_view(block_dims@), tuple@)),
{
    let ghost ext = tuple_extents(tuples_view(block_dims@), tuple@);
    let mut acc: usize = 1;
    let mut i: usize = 0;
    assert(ext.take(0) =~= Seq::<usize>::empty());
    while i < tuple.len()
        invariant
            i <= tuple@.len() <= block_dims@.len(),
            ext == tuple_extents(tuples_view(block_dims@), tuple@),
            forall|t: int| 0 <= t < tuple@.len() ==> #[trigger] tuple@[t] < block_dims@[t]@.len(),
            forall|k: int| 0 <= k <= tuple@.len() ==> #[trigger] prod(ext.take(k)) <= usize::MAX,
            acc == prod(ext.take(i as int)),
        decreases tuple.len() - i,
    {
        let d = block_dims[i][tuple[i]];
        proof {
            assert(ext.take(i + 1).drop_last() =~= ext.take(i as int));
            assert(ext.take(i + 1).last() == d);
            assert(prod(ext.take(i + 1)) <= usize::MAX);
        }
        acc = acc * d;
        i = i + 1;
    }
    assert(ext.take(i as int) =~= ext);
    acc
}

/// The offsets and total extent of the tuples fused into one sector, whose
/// extents are `dims` in order: where each tuple begins along the fused
/// leg, and the sum of all extents.
pub fn fused_extents(dims: &[usize]) -> (r: (Vec<usize>, usize))
    requires
        sum_of(dims@) <= usize::MAX,
    ensures
        r.0@.len() == dims@.len(),
        forall|i: int| 0 <= i < dims@.len() ==> r.0@[i] == sum_of(#[trigger] dims@.take(i)),
        r.1 == sum_of(dims@),
{
    let offsets = cumulative_offsets(dims);
    let mut total: usize = 0;
    let mut i: usize = 0;
    while i < dims.len()
        invariant
            i <= dims@.len(),
            sum_of(dims@) <= usize::MAX,
            total == sum_of(dims@.take(i as int)),
        decreases dims.len() - i,
    {
        proof {
            assert(dims@.take(i + 1).drop_last() =~= dims@.take(i as int));
            lemma_sum_prefix_le(dims@, i + 1);
        }
        total = total + dims[i];
        i = i + 1;
    }
    assert(dims@.take(i as int) =~= dims@);
    (offsets, total)
}

/// A prefix sum is at most the whole sum.
proof fn lemma_sum_prefix_le(s: Seq<usize>, k: int)
    requires
        0 <= k <= s.len(),
    ensures
        sum_of(s.take(k)) <= sum_of(s),
    decreases s.len() - k,
{
    if k < s.len() {
        assert(s.take(k + 1).drop_last() =~= s.take(k));
        lemma_sum_prefix_le(s, k + 1);
    } else {
        assert(s.take(k) =~= s);
    }
}

/// `a` comes before `b` in lexicographic order, a proper prefix first: the
/// order of `Vec<usize>`.
pub open spec fn lex_lt(a: Seq<usize>, b: Seq<usize>) -> bool
    decreases a.len(),
{
    if b.len() == 0 {
        false
    } else if a.len() == 0 {
        true
    } else if a[0] != b[0] {
        a[0] < b[0]
    } else {
        lex_lt(a.skip(1), b.skip(1))
    }
}

/// Each tuple of `s` comes strictly before every later one.
pub open spec fn strictly_lex_sorted(s: Seq<Seq<usize>>) -> bool {
    forall|i: int, j: int| 0 <= i < j < s.len() ==> lex_lt(#[trigger] s[i], #[trigger] s[j])
}

proof fn lemma_lex_irreflexive(a: Seq<usize>)
    ensures
        !lex_lt(a, a),
    decreases a.len(),
{
    if a.len() > 0 {
        lemma_lex_irreflexive(a.skip(1));
    }
}

proof fn lemma_lex_transitive(a: Seq<usize>, b: Seq<usize>, c: Seq<usize>)
    requires
        lex_lt(a, b),
        lex_lt(b, c),
    ensures
        lex_lt(a, c),
    decreases a.len(),
{
    if a.len() > 0 && a[0] == b[0] && b[0] == c[0] {
        lemma_lex_transitive(a.skip(1), b.skip(1), c.skip(1));
    }
}

proof fn lemma_lex_total(a: Seq<usize>, b: Seq<usize>)
    requires
        a != b,
    ensures
        lex_lt(a, b) || lex_lt(b, a),
    decreases a.len(),
{
    if a.len() > 0 && b.len() > 0 && a[0] == b[0] {
        if a.skip(1) == b.skip(1) {
            assert(a =~= seq![a[0]] + a.skip(1));
            assert(b =~= seq![b[0]] + b.skip(1));
        }
        lemma_lex_total(a.skip(1), b.skip(1));
    } else if a.len() == 0 && b.len() == 0 {
        assert(a =~= b);
    }
}

/// Compares two tuples in lexicographic order.
pub fn lex_less(a: &Vec<usize>, b: &Vec<usize>) -> (r: bool)
    ensures
        r == lex_lt(a@, b@),
{
    let mut i: usize = 0;
    assert(a@.skip(0) =~= a@ && b@.skip(0) =~= b@);
    while i < a.len() && i < b.len()
        invariant
            i <= a@.len(),
            i <= b@.len(),
            lex_lt(a@, b@) == lex_lt(a@.skip(i as int), b@.skip(i as int)),
        decreases a.len() - i,
    {
        assert(a@.skip(i as int)[0] == a@[i as int]);
        assert(b@.skip(i as int)[0] == b@[i as int]);
        if a[i] != b[i] {
            return a[i] < b[i];
        }
        assert(a@.skip(i as int).skip(1) =~= a@.skip(i + 1));
        assert(b@.skip(i as int).skip(1) =~= b@.skip(i + 1));
        i = i + 1;
    }
    i < b.len()
}

/// Tests two tuples for equality.
fn same_tuple(a: &Vec<usize>, b: &Vec<usize>) -> (r: bool)
    ensures
        r == (a@ == b@),
{
    if a.len() != b.len() {
        return false;
    }
    let mut i: usize = 0;
    while i < a.len()
        invariant
            i <= a@.len() == b@.len(),
            forall|j: int| 0 <= j < i ==> a@[j] == b@[j],
        decreases a.len() - i,
    {
        if a[i] != b[i] {
            return false;
        }
        i = i + 1;
    }
    assert(a@ =~= b@);
    true
}

/// A copy of the tuple `t`.
fn copy_tuple(t: &Vec<usize>) -> (r: Vec<usize>)
    ensures
        r@ == t@,
{
    let mut r: Vec<usize> = Vec::new();
    let mut i: usize = 0;
    while i < t.len()
        invariant
            i <= t@.len(),
            r@ == t@.take(i as int),
        decreases t.len() - i,
    {
        r.push(t[i]);
        assert(t@.take(i + 1) =~= t@.take(i as int).push(t@[i as int]));
        i = i + 1;
    }
    assert(t@.take(i as int) =~= t@);
    r
}

/// The distinct tuples of `tuples`, in lexicographic order: the canonical
/// order in which the tuples of one fused sector are laid out along the
/// fused leg, whatever order the blocks were met in.
pub fn canonical_tuples(tuples: &[Vec<usize>]) -> (r: Vec<Vec<usize>>)
    ensures
        strictly_lex_sorted(tuples_view(r@)),
        forall|t: Seq<usize>| tuples_view(r@).contains(t) <==> tuples_view(tuples@).contains(t),
{
    let mut out: Vec<Vec<usize>> = Vec::new();
    let mut k: usize = 0;
    while k < tuples.len()
        invariant
            k <= tuples@.len(),
            strictly_lex_sorted(tuples_view(out@)),
            forall|t: Seq<usize>|
                tuples_view(out@).contains(t) <==> tuples_view(tuples@).take(k as int).contains(t),
        decreases tuples.len() - k,
    {
        let ghost x = tuples@[k as int]@;
        let ghost before = tuples_view(out@);
        assert(tuples_view(tuples@).take(k + 1) =~= tuples_view(tuples@).take(k as int).push(x));
        let mut p: usize = 0;
        while p < out.len() && lex_less(&out[p], &tuples[k])
            invariant
                p <= out@.len(),
                k < tuples@.len(),
                before == tuples_view(out@),
                x == tuples@[k as int]@,
                forall|i: int| 0 <= i < p ==> lex_lt(#[trigger] before[i], x),
            decreases out.len() - p,
        {
            p = p + 1;
        }
        if p < out.len() && same_tuple(&out[p], &tuples[k]) {
            assert(before[p as int] == x);
            assert forall|t: Seq<usize>| before.contains(t) <==> tuples_view(tuples@).take(k + 1).contains(t) by {
                if t == x {
                    assert(before[p as int] == t);
                }
            }
        } else {
            if p < out.len() {
                proof {
                    assert(before[p as int] != x);
                    assert(!lex_lt(before[p as int], x));
                    lemma_lex_total(before[p as int], x);
                }
            }
            let t = copy_tuple(&tuples[k]);
            out.insert(p, t);
            proof {
                before.insert_ensures(p as int, x);
                let after = tuples_view(out@);
                assert(after =~= before.insert(p as int, x));
                assert forall|i: int, j: int| 0 <= i < j < after.len() implies lex_lt(
                    #[trigger] after[i],
                    #[trigger] after[j],
                ) by {
                    if j < p {
                    } else if j == p {
                    } else if i < p {
                        assert(after[j] == before[j - 1]);
                    } else if i == p {
                        assert(after[j] == before[j - 1]);
                        if j - 1 > p {
                            lemma_lex_transitive(x, before[p as int], before[j - 1]);
                        }
                    } else {
                        assert(after[i] == before[i - 1]);
                        assert(after[j] == before[j - 1]);
                    }
                }
                assert forall|t: Seq<usize>| after.contains(t) <==> tuples_view(tuples@).take(k + 1).contains(
                    t,
                ) by {
                    if after.contains(t) {
                        let i = choose|i: int| 0 <= i < after.len() && after[i] == t;
                        if i != p {
                            let src = if i < p { i } else { i - 1 };
                            assert(before[src] == t);
                        }
                    }
                    if before.contains(t) {
                        let i = choose|i: int| 0 <= i < before.len() && before[i] == t;
                        let dst = if i < p { i } else { i + 1 };
                        assert(after[dst] == t);
                    }
                    if t == x {
                        assert(after[p as int] == t);
                    }
                    let pre = tuples_view(tuples@).take(k as int);
                    let pre1 = tuples_view(tuples@).take(k + 1);
                    assert(pre1 == pre.push(x));
                    if pre1.contains(t) {
                        let i = choose|i: int| 0 <= i < pre1.len() && pre1[i] == t;
                        if i < pre.len() {
                            assert(pre[i] == t);
                        }
                    }
                    if pre.contains(t) {
                        let i = choose|i: int| 0 <= i < pre.len() && pre[i] == t;
                        assert(pre1[i] == t);
                    }
                    if t == x {
                        assert(pre1[k as int] == t);
                    }
                }
            }
        }
        k = k + 1;
    }
    assert(tuples_view(tuples@).take(k as int) =~= tuples_view(tuples@));
    out
}

/// The first tuple of a strictly sorted list comes before every other one
/// it holds.
proof fn lemma_sorted_head(a: Seq<Seq<usize>>, t: Seq<usize>)
    requires
        strictly_lex_sorted(a),
        a.len() > 0,
        a.contains(t),
        t != a[0],
    ensures
        lex_lt(a[0], t),
{
    let j = choose|j: int| 0 <= j < a.len() && a[j] == t;
    assert(j != 0);
    assert(lex_lt(a[0], a[j]));
}

/// The tuples of a fused sector have one canonical order: two strictly
/// sorted lists of the same tuples are the same list. So the layout of a
/// fused leg does not depend on the order in which the blocks were met.
pub proof fn law_canonical_order_unique(a: Seq<Seq<usize>>, b: Seq<Seq<usize>>)
    requires
        strictly_lex_sorted(a),
        strictly_lex_sorted(b),
        forall|t: Seq<usize>| a.contains(t) <==> b.contains(t),
    ensures
        a == b,
    decreases a.len(),
{
    if a.len() == 0 {
        if b.len() > 0 {
            assert(b.contains(b[0]));
        }
        assert(a =~= b);
    } else {
        assert(a.contains(a[0]));
        assert(b.len() > 0);
        assert(b.contains(b[0]));
        if a[0] != b[0] {
            lemma_sorted_head(a, b[0]);
            lemma_sorted_head(b, a[0]);
            lemma_lex_transitive(a[0], b[0], a[0]);
            lemma_lex_irreflexive(a[0]);
        }
        let (a1, b1) = (a.skip(1), b.skip(1));
        assert forall|t: Seq<usize>| a1.contains(t) <==> b1.contains(t) by {
            if a1.contains(t) {
                let i = choose|i: int| 0 <= i < a1.len() && a1[i] == t;
                assert(a[i + 1] == t);
                assert(lex_lt(a[0], a[i + 1]));
                lemma_lex_irreflexive(t);
                assert(b.contains(t));
                let j = choose|j: int| 0 <= j < b.len() && b[j] == t;
                assert(j != 0);
                assert(b1[j - 1] == t);
            }
            if b1.contains(t) {
                let i = choose|i: int| 0 <= i < b1.len() && b1[i] == t;
                assert(b[i + 1] == t);
                assert(lex_lt(b[0], b[i + 1]));
                lemma_lex_irreflexive(t);
                assert(a.contains(t));
                let j = choose|j: int| 0 <= j < a.len() && a[j] == t;
                assert(j != 0);
                assert(a1[j - 1] == t);
            }
        }
        assert(strictly_lex_sorted(a1)) by {
            assert forall|i: int, j: int| 0 <= i < j < a1.len() implies lex_lt(#[trigger] a1[i], #[trigger] a1[j]) by {
                assert(lex_lt(a[i + 1], a[j + 1]));
            }
        }
        assert(strictly_lex_sorted(b1)) by {
            assert forall|i: int, j: int| 0 <= i < j < b1.len() implies lex_lt(#[trigger] b1[i], #[trigger] b1[j]) by {
                assert(lex_lt(b[i + 1], b[j + 1]));
            }
        }
        law_canonical_order_unique(a1, b1);
        assert(a =~= seq![a[0]] + a1);
        assert(b =~= seq![b[0]] + b1);
    }
}

} // verus!
