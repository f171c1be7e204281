//! The decisions of a dense two-operand contraction: the checks on the
//! notation and the operand ranks, the permutations that bring each operand
//! to `(free, contracted)` / `(contracted, free)` order, the GEMM extents
//! `(m, n, k)`, the output shape, and the permutation that brings the GEMM
//! result `[free left, free right]` to the requested output order.

use vstd::prelude::*;

use crate::contract_spec::{
    contract_notation_check, first_outside, first_repeat, first_shared, is_invalid_argument,
    parse_failure_message, validate_contract_notation, LinalgError,
};
use crate::einsum::{
    append_contracted, compute_permutation, first_unbound, member_pred, occurs_in, parse_notation,
    perm_view, permutation_of, position_of, ContractionPlan, EinsumExpr,
};
use crate::seqs::{first_occurrences, first_pos, lemma_first_pos};
use crate::strided::prod;
use crate::text::{decimal, push_str, push_usize};

verus! {

broadcast use vstd::seq_lib::group_filter_ensures;

// ---------------------------------------------------------------------------
// Facts about sequences of labels
// ---------------------------------------------------------------------------

/// Membership in a filtered sequence.
pub(crate) proof fn lemma_filter_members<A>(s: Seq<A>, p: spec_fn(A) -> bool)
    ensures
        forall|x: A| #[trigger] s.filter(p).contains(x) <==> s.contains(x) && p(x),
{
    assert forall|x: A| #[trigger] s.filter(p).contains(x) <==> s.contains(x) && p(x) by {
        if s.filter(p).contains(x) {
            s.lemma_filter_contains_rev(p, x);
            let i = choose|i: int| 0 <= i < s.filter(p).len() && s.filter(p)[i] == x;
            s.lemma_filter_pred(p, i);
        }
        if s.contains(x) && p(x) {
            let i = choose|i: int| 0 <= i < s.len() && s[i] == x;
            s.lemma_filter_contains(p, i);
        }
    }
}

/// A sequence without repeats stays without repeats when filtered.
pub(crate) proof fn lemma_filter_unique<A>(s: Seq<A>, p: spec_fn(A) -> bool)
    requires
        s.no_duplicates(),
    ensures
        s.filter(p).no_duplicates(),
    decreases s.len(),
{
    if s.len() > 0 {
        let d = s.drop_last();
        let e = s.last();
        assert(d.no_duplicates()) by {
            assert forall|i: int, j: int| 0 <= i < d.len() && 0 <= j < d.len() && i != j implies d[i]
                != d[j] by {
                assert(d[i] == s[i] && d[j] == s[j]);
            }
        }
        lemma_filter_unique(d, p);
        assert(s =~= d.push(e));
        d.lemma_filter_push(e, p);
        if p(e) {
            assert(!d.filter(p).contains(e)) by {
                if d.filter(p).contains(e) {
                    d.lemma_filter_contains_rev(p, e);
                    let i = choose|i: int| 0 <= i < d.len() && d[i] == e;
                    assert(s[i] == s[s.len() - 1]);
                }
            }
            let f = d.filter(p);
            assert forall|i: int, j: int| 0 <= i < f.push(e).len() && 0 <= j < f.push(e).len() && i
                != j implies f.push(e)[i] != f.push(e)[j] by {
                if i == f.len() {
                    assert(f[j] == f.push(e)[j]);
                } else if j == f.len() {
                    assert(f[i] == f.push(e)[i]);
                }
            }
        }
    }
}

/// Without repeats, the first occurrences are the whole sequence.
proof fn lemma_first_occurrences_unique<A>(s: Seq<A>)
    requires
        s.no_duplicates(),
    ensures
        first_occurrences(s) == s,
    decreases s.len(),
{
    if s.len() > 0 {
        let d = s.drop_last();
        assert(d.no_duplicates()) by {
            assert forall|i: int, j: int| 0 <= i < d.len() && 0 <= j < d.len() && i != j implies d[i]
                != d[j] by {
                assert(d[i] == s[i] && d[j] == s[j]);
            }
        }
        lemma_first_occurrences_unique(d);
        assert(!d.contains(s.last())) by {
            if d.contains(s.last()) {
                let i = choose|i: int| 0 <= i < d.len() && d[i] == s.last();
                assert(s[i] == s[s.len() - 1]);
            }
        }
        assert(d.push(s.last()) =~= s);
    }
}

/// Two sequences without repeats and with the same members have the same
/// length.
pub(crate) proof fn lemma_same_members_len<A>(s: Seq<A>, t: Seq<A>)
    requires
        s.no_duplicates(),
        t.no_duplicates(),
        forall|x: A| s.contains(x) <==> t.contains(x),
    ensures
        s.len() == t.len(),
{
    s.unique_seq_to_set();
    t.unique_seq_to_set();
    assert(s.to_set() =~= t.to_set());
}

/// A sequence without a first repeat has no repeats.
proof fn lemma_no_repeat(s: Seq<u8>)
    requires
        first_repeat(s) is None,
    ensures
        s.no_duplicates(),
    decreases s.len(),
{
    if s.len() > 0 {
        let d = s.drop_last();
        lemma_no_repeat(d);
        assert forall|i: int, j: int| 0 <= i < s.len() && 0 <= j < s.len() && i != j implies s[i]
            != s[j] by {
            if i < d.len() && j < d.len() {
                assert(d[i] == s[i] && d[j] == s[j]);
            } else if i < d.len() {
                assert(d[i] == s[i]);
                assert(d.contains(s[i]));
            } else {
                assert(d[j] == s[j]);
                assert(d.contains(s[j]));
            }
        }
    }
}

/// Without a first entry outside `a` and `b`, every entry is in one of them.
proof fn lemma_no_outside(s: Seq<u8>, a: Seq<u8>, b: Seq<u8>)
    requires
        first_outside(s, a, b) is None,
    ensures
        forall|x: u8| #[trigger] s.contains(x) ==> a.contains(x) || b.contains(x),
    decreases s.len(),
{
    if s.len() > 0 {
        let d = s.drop_last();
        lemma_no_outside(d, a, b);
        assert forall|x: u8| #[trigger] s.contains(x) implies a.contains(x) || b.contains(x) by {
            let i = choose|i: int| 0 <= i < s.len() && s[i] == x;
            if i < d.len() {
                assert(d[i] == x);
                assert(d.contains(x));
            }
        }
    }
}

/// Without a first entry in both `a` and `b`, no entry is in both.
proof fn lemma_no_shared(s: Seq<u8>, a: Seq<u8>, b: Seq<u8>)
    requires
        first_shared(s, a, b) is None,
    ensures
        forall|x: u8| #[trigger] s.contains(x) ==> !(a.contains(x) && b.contains(x)),
    decreases s.len(),
{
    if s.len() > 0 {
        let d = s.drop_last();
        lemma_no_shared(d, a, b);
        assert forall|x: u8| #[trigger] s.contains(x) implies !(a.contains(x) && b.contains(x)) by {
            let i = choose|i: int| 0 <= i < s.len() && s[i] == x;
            if i < d.len() {
                assert(d[i] == x);
                assert(d.contains(x));
            }
        }
    }
}

/// Without a first unbound output index, every output index is an index of
/// some input.
proof fn lemma_no_unbound(inputs: Seq<Seq<u8>>, out: Seq<u8>)
    requires
        first_unbound(inputs, out) is None,
    ensures
        forall|x: u8| #[trigger] out.contains(x) ==> occurs_in(inputs, x),
    decreases out.len(),
{
    if out.len() > 0 {
        let d = out.drop_last();
        lemma_no_unbound(inputs, d);
        assert forall|x: u8| #[trigger] out.contains(x) implies occurs_in(inputs, x) by {
            let i = choose|i: int| 0 <= i < out.len() && out[i] == x;
            if i < d.len() {
                assert(d[i] == x);
                assert(d.contains(x));
            }
        }
    }
}

// ---------------------------------------------------------------------------
// The plan of a checked contraction
// ---------------------------------------------------------------------------

/// Output labels of the left operand alone, in output order.
pub open spec fn free_left(l: Seq<u8>, r: Seq<u8>, o: Seq<u8>) -> Seq<u8> {
    o.filter(member_pred(l, r, false))
}

/// Output labels of the right operand alone, in output order.
pub open spec fn free_right(l: Seq<u8>, r: Seq<u8>, o: Seq<u8>) -> Seq<u8> {
    o.filter(member_pred(r, l, false))
}

/// Labels shared by both operands and absent from the output, in left order.
pub open spec fn contracted_labels(l: Seq<u8>, r: Seq<u8>, o: Seq<u8>) -> Seq<u8> {
    l.filter(member_pred(r, o, false))
}

/// Labels of both operands kept in the output, in output order.
pub open spec fn batch_labels(l: Seq<u8>, r: Seq<u8>, o: Seq<u8>) -> Seq<u8> {
    o.filter(member_pred(l, r, true))
}

/// The label order the left operand is brought to: batch, free, then the
/// contracted labels in right-operand order.
pub open spec fn left_order(l: Seq<u8>, r: Seq<u8>, o: Seq<u8>) -> Seq<u8> {
    append_contracted(batch_labels(l, r, o) + free_left(l, r, o), contracted_labels(l, r, o), r)
}

/// The label order the right operand is brought to: batch, the contracted
/// labels in right-operand order, then free.
pub open spec fn right_order(l: Seq<u8>, r: Seq<u8>, o: Seq<u8>) -> Seq<u8> {
    append_contracted(batch_labels(l, r, o), contracted_labels(l, r, o), r) + free_right(l, r, o)
}

/// The label order of a GEMM result: free left labels, then free right ones.
pub open spec fn gemm_order(l: Seq<u8>, r: Seq<u8>, o: Seq<u8>) -> Seq<u8> {
    free_left(l, r, o) + free_right(l, r, o)
}

/// `t` lists the members of `s`, each once, and nothing else.
pub open spec fn rearranges(t: Seq<u8>, s: Seq<u8>) -> bool {
    &&& t.len() == s.len()
    &&& t.no_duplicates()
    &&& forall|x: u8| #[trigger] t.contains(x) <==> s.contains(x)
}

/// In a contraction that passes the notation checks, with every output
/// label carried by an operand, the plan partitions the labels: there is no
/// batch label, every label of the left operand is free or contracted, every
/// label of the right operand is contracted or free, and every output label
/// is a free label of exactly one operand. So each operand order is a
/// rearrangement of that operand's labels, and the GEMM result order is a
/// rearrangement of the output labels.
pub proof fn law_plan_partition(l: Seq<u8>, r: Seq<u8>, o: Seq<u8>)
    requires
        contract_notation_check(seq![l, r], o) is Ok,
        first_unbound(seq![l, r], o) is None,
    ensures
        batch_labels(l, r, o).len() == 0,
        rearranges(left_order(l, r, o), l),
        rearranges(right_order(l, r, o), r),
        rearranges(gemm_order(l, r, o), o),
{
    let ins = seq![l, r];
    assert(ins[0] == l && ins[1] == r);
    lemma_no_repeat(l);
    lemma_no_repeat(r);
    lemma_no_repeat(o);
    lemma_no_shared(o, l, r);
    lemma_no_outside(l, r, o);
    lemma_no_outside(r, l, o);
    lemma_no_unbound(ins, o);
    let fl = free_left(l, r, o);
    let fr = free_right(l, r, o);
    let ct = contracted_labels(l, r, o);
    let bt = batch_labels(l, r, o);
    lemma_filter_members(o, member_pred(l, r, false));
    lemma_filter_members(o, member_pred(r, l, false));
    lemma_filter_members(l, member_pred(r, o, false));
    lemma_filter_members(o, member_pred(l, r, true));
    lemma_filter_unique(o, member_pred(l, r, false));
    lemma_filter_unique(o, member_pred(r, l, false));
    // No batch label.
    assert(bt.len() == 0) by {
        if bt.len() > 0 {
            assert(bt.contains(bt[0]));
        }
    }
    assert(bt =~= Seq::<u8>::empty());
    assert(bt + fl =~= fl);
    // Output labels.
    assert forall|x: u8| o.contains(x) implies l.contains(x) || r.contains(x) by {
        assert(occurs_in(ins, x));
        let k = choose|k: int| 0 <= k < ins.len() && #[trigger] ins[k].contains(x);
    }
    assert forall|i: int, j: int| 0 <= i < fl.len() && 0 <= j < fr.len() implies fl[i] != fr[j] by {
        assert(fl.contains(fl[i]));
        assert(fr.contains(fr[j]));
    }
    vstd::seq_lib::lemma_no_dup_in_concat(fl, fr);
    assert forall|x: u8| #[trigger] (fl + fr).contains(x) <==> o.contains(x) by {
        if (fl + fr).contains(x) {
            let i = choose|i: int| 0 <= i < (fl + fr).len() && (fl + fr)[i] == x;
            if i < fl.len() {
                assert(fl.contains(fl[i]));
            } else {
                assert(fr.contains(fr[i - fl.len()]));
            }
        }
        if o.contains(x) {
            if l.contains(x) && !r.contains(x) {
                assert(fl.contains(x));
                let i = choose|i: int| 0 <= i < fl.len() && fl[i] == x;
                assert((fl + fr)[i] == x);
            } else {
                assert(fr.contains(x));
                let i = choose|i: int| 0 <= i < fr.len() && fr[i] == x;
                assert((fl + fr)[fl.len() + i] == x);
            }
        }
    }
    lemma_same_members_len(fl + fr, o);
    // The contracted labels in right-operand order.
    let pl = member_pred(ct, bt + fl, false);
    let pr = member_pred(ct, bt, false);
    lemma_filter_members(r, pl);
    lemma_filter_members(r, pr);
    lemma_filter_unique(r, pl);
    lemma_filter_unique(r, pr);
    lemma_first_occurrences_unique(r.filter(pl));
    lemma_first_occurrences_unique(r.filter(pr));
    let cl = r.filter(pl);
    let cr = r.filter(pr);
    assert(left_order(l, r, o) == bt + fl + cl);
    assert(right_order(l, r, o) == bt + cr + fr);
    assert(bt + cr =~= cr);
    // Left order.
    assert forall|i: int, j: int| 0 <= i < fl.len() && 0 <= j < cl.len() implies fl[i] != cl[j] by {
        assert(fl.contains(fl[i]));
        assert(cl.contains(cl[j]));
    }
    vstd::seq_lib::lemma_no_dup_in_concat(fl, cl);
    assert forall|x: u8| #[trigger] (fl + cl).contains(x) <==> l.contains(x) by {
        if (fl + cl).contains(x) {
            let i = choose|i: int| 0 <= i < (fl + cl).len() && (fl + cl)[i] == x;
            if i < fl.len() {
                assert(fl.contains(fl[i]));
            } else {
                assert(cl.contains(cl[i - fl.len()]));
                assert(ct.contains(x));
            }
        }
        if l.contains(x) {
            if r.contains(x) {
                assert(ct.contains(x));
                assert(cl.contains(x));
                let i = choose|i: int| 0 <= i < cl.len() && cl[i] == x;
                assert((fl + cl)[fl.len() + i] == x);
            } else {
                assert(fl.contains(x));
                let i = choose|i: int| 0 <= i < fl.len() && fl[i] == x;
                assert((fl + cl)[i] == x);
            }
        }
    }
    assert(bt + fl + cl =~= fl + cl);
    lemma_same_members_len(fl + cl, l);
    // Right order.
    assert forall|i: int, j: int| 0 <= i < cr.len() && 0 <= j < fr.len() implies cr[i] != fr[j] by {
        assert(cr.contains(cr[i]));
        assert(fr.contains(fr[j]));
        assert(ct.contains(cr[i]));
    }
    vstd::seq_lib::lemma_no_dup_in_concat(cr, fr);
    assert forall|x: u8| #[trigger] (cr + fr).contains(x) <==> r.contains(x) by {
        if (cr + fr).contains(x) {
            let i = choose|i: int| 0 <= i < (cr + fr).len() && (cr + fr)[i] == x;
            if i < cr.len() {
                assert(cr.contains(cr[i]));
            } else {
                assert(fr.contains(fr[i - cr.len()]));
            }
        }
        if r.contains(x) {
            if l.contains(x) {
                assert(ct.contains(x));
                assert(cr.contains(x));
                let i = choose|i: int| 0 <= i < cr.len() && cr[i] == x;
                assert((cr + fr)[i] == x);
            } else {
                assert(fr.contains(x));
                let i = choose|i: int| 0 <= i < fr.len() && fr[i] == x;
                assert((cr + fr)[cr.len() + i] == x);
            }
        }
    }
    assert(bt + cr + fr =~= cr + fr);
    lemma_same_members_len(cr + fr, r);
}

// ---------------------------------------------------------------------------
// Extents
// ---------------------------------------------------------------------------

/// The extents, in `shape`, of the axes labelled `labels` of an operand
/// whose axes are labelled `indices`.
pub open spec fn labelled_extents(labels: Seq<u8>, indices: Seq<u8>, shape: Seq<usize>) -> Seq<usize> {
    labels.map_values(|x: u8| shape[first_pos(indices, x)])
}

/// Every running product of `s` fits in a `usize`.
pub open spec fn products_fit(s: Seq<usize>) -> bool {
    forall|k: int| 0 <= k <= s.len() ==> #[trigger] prod(s.take(k)) <= usize::MAX
}

/// A GEMM extent: the product of the extents, or 1 when that is 0.
pub open spec fn gemm_extent(s: Seq<usize>) -> nat {
    if prod(s) == 0 {
        1
    } else {
        prod(s)
    }
}

/// Every label of `labels` is an axis of an operand labelled `indices` with
/// shape `shape`.
pub open spec fn labels_in(labels: Seq<u8>, indices: Seq<u8>, shape: Seq<usize>) -> bool {
    forall|i: int|
        0 <= i < labels.len() ==> indices.contains(#[trigger] labels[i]) && first_pos(indices, labels[i])
            < shape.len()
}

/// The extent of the axis labelled `idx` of an operand whose axes are
/// labelled `indices` and whose shape is `shape`.
pub fn dim_of(idx: u8, indices: &[u8], shape: &[usize]) -> (r: usize)
    requires
        indices@.contains(idx),
        first_pos(indices@, idx) < shape@.len(),
    ensures
        r == shape@[first_pos(indices@, idx)],
{
    let pos = position_of(indices, idx);
    shape[pos]
}

/// The product of the extents of the axes labelled `labels`, or 1 when it
/// is 0.
fn extent_product(labels: &[u8], indices: &[u8], shape: &[usize]) -> (r: usize)
    requires
        labels_in(labels@, indices@, shape@),
        products_fit(labelled_extents(labels@, indices@, shape@)),
    ensures
        r == gemm_extent(labelled_extents(labels@, indices@, shape@)),
{
    let ghost ext = labelled_extents(labels@, indices@, shape@);
    let mut acc: usize = 1;
    let mut i: usize = 0;
    assert(ext.take(0) =~= Seq::<usize>::empty());
    while i < labels.len()
        invariant
            i <= labels@.len() == ext.len(),
            ext == labelled_extents(labels@, indices@, shape@),
            labels_in(labels@, indices@, shape@),
            products_fit(ext),
            acc == prod(ext.take(i as int)),
        decreases labels.len() - i,
    {
        let d = dim_of(labels[i], indices, shape);
        proof {
            assert(ext.take(i + 1).drop_last() =~= ext.take(i as int));
            assert(ext.take(i + 1).last() == d);
            assert(prod(ext.take(i + 1)) <= usize::MAX);
        }
        acc = acc * d;
        i = i + 1;
    }
    assert(ext.take(i as int) =~= ext);
    if acc == 0 {
        1
    } else {
        acc
    }
}

/// The output shape of a dense contraction: the extents of the free left
/// labels, then those of the free right labels.
pub fn compute_output_shape(
    plan: &ContractionPlan,
    expr: &EinsumExpr,
    lhs_shape: &[usize],
    rhs_shape: &[usize],
) -> (r: Vec<usize>)
    requires
        expr.inputs@.len() >= 2,
        labels_in(plan.free_lhs@, expr.inputs_view()[0], lhs_shape@),
        labels_in(plan.free_rhs@, expr.inputs_view()[1], rhs_shape@),
    ensures
        r@ == labelled_extents(plan.free_lhs@, expr.inputs_view()[0], lhs_shape@) + labelled_extents(
            plan.free_rhs@,
            expr.inputs_view()[1],
            rhs_shape@,
        ),
{
    let lhs = expr.lhs_indices();
    let rhs = expr.rhs_indices();
    let mut output_shape: Vec<usize> = Vec::new();
    let mut i: usize = 0;
    while i < plan.free_lhs.len()
        invariant
            i <= plan.free_lhs@.len(),
            lhs@ == expr.inputs_view()[0],
            labels_in(plan.free_lhs@, lhs@, lhs_shape@),
            output_shape@ == labelled_extents(plan.free_lhs@, lhs@, lhs_shape@).take(i as int),
        decreases plan.free_lhs.len() - i,
    {
        let d = dim_of(plan.free_lhs[i], lhs, lhs_shape);
        output_shape.push(d);
        assert(output_shape@ =~= labelled_extents(plan.free_lhs@, lhs@, lhs_shape@).take(i + 1));
        i = i + 1;
    }
    let ghost head = output_shape@;
    assert(head =~= labelled_extents(plan.free_lhs@, lhs@, lhs_shape@));
    let mut j: usize = 0;
    while j < plan.free_rhs.len()
        invariant
            j <= plan.free_rhs@.len(),
            rhs@ == expr.inputs_view()[1],
            labels_in(plan.free_rhs@, rhs@, rhs_shape@),
            output_shape@ == head + labelled_extents(plan.free_rhs@, rhs@, rhs_shape@).take(j as int),
        decreases plan.free_rhs.len() - j,
    {
        let d = dim_of(plan.free_rhs[j], rhs, rhs_shape);
        output_shape.push(d);
        assert(output_shape@ =~= head + labelled_extents(plan.free_rhs@, rhs@, rhs_shape@).take(j + 1));
        j = j + 1;
    }
    assert(labelled_extents(plan.free_rhs@, rhs@, rhs_shape@).take(j as int) =~= labelled_extents(
        plan.free_rhs@,
        rhs@,
        rhs_shape@,
    ));
    output_shape
}

// ---------------------------------------------------------------------------
// The plan of a dense contraction
// ---------------------------------------------------------------------------

/// Message: an operand's rank differs from its label count.
pub open spec fn rank_mismatch_message(side: Seq<char>, rank: nat, labels: nat) -> Seq<char> {
    side + " tensor rank "@ + decimal(rank) + " doesn't match notation "@ + decimal(labels)
}

/// The extents a dense contraction multiplies all fit in a `usize`, when the
/// notation parses and passes the checks and the ranks match it.
pub open spec fn dense_extents_fit(notation: Seq<char>, lhs_shape: Seq<usize>, rhs_shape: Seq<usize>) -> bool {
    match parse_notation(notation) {
        Err(_) => true,
        Ok((ins, o)) => {
            (contract_notation_check(ins, o) is Ok && ins[0].len() == lhs_shape.len() && ins[1].len()
                == rhs_shape.len()) ==> {
                let l = ins[0];
                let r = ins[1];
                &&& products_fit(labelled_extents(free_left(l, r, o), l, lhs_shape))
                &&& products_fit(labelled_extents(free_right(l, r, o), r, rhs_shape))
                &&& products_fit(labelled_extents(contracted_labels(l, r, o), l, lhs_shape))
            }
        },
    }
}

/// The decisions of a dense contraction of operands of shapes `lhs_shape`
/// and `rhs_shape`.
pub struct DenseContraction {
    /// Permutation of the left operand to `(free, contracted)` order;
    /// `None` when it is already in that order.
    pub lhs_perm: Option<Vec<usize>>,
    /// Permutation of the right operand to `(contracted, free)` order;
    /// `None` when it is already in that order.
    pub rhs_perm: Option<Vec<usize>>,
    /// Rows of the GEMM: the product of the free left extents (at least 1).
    pub m: usize,
    /// Columns of the GEMM: the product of the free right extents (at
    /// least 1).
    pub n: usize,
    /// Inner extent of the GEMM: the product of the contracted extents (at
    /// least 1).
    pub k: usize,
    /// Shape of the GEMM result: free left extents, then free right ones.
    pub output_shape: Vec<usize>,
    /// Permutation of the GEMM result to the requested output order;
    /// `None` when no reordering is needed.
    pub output_perm: Option<Vec<usize>>,
}

impl DenseContraction {
    /// `self` holds the decisions for operands labelled `l` and `r`, output
    /// `o`, and shapes `ls` and `rs`.
    pub open spec fn describes(&self, l: Seq<u8>, r: Seq<u8>, o: Seq<u8>, ls: Seq<usize>, rs: Seq<usize>) -> bool {
        &&& perm_view(self.lhs_perm) == permutation_of(l, left_order(l, r, o))
        &&& perm_view(self.rhs_perm) == permutation_of(r, right_order(l, r, o))
        &&& self.m == gemm_extent(labelled_extents(free_left(l, r, o), l, ls))
        &&& self.n == gemm_extent(labelled_extents(free_right(l, r, o), r, rs))
        &&& self.k == gemm_extent(labelled_extents(contracted_labels(l, r, o), l, ls))
        &&& self.output_shape@ == labelled_extents(free_left(l, r, o), l, ls) + labelled_extents(
            free_right(l, r, o),
            r,
            rs,
        )
        &&& perm_view(self.output_perm) == if o.len() == 0 {
            None
        } else {
            permutation_of(gemm_order(l, r, o), o)
        }
    }
}

/// Labels drawn from `s` lie in `indices` at positions below the shape's
/// length when `indices` labels that shape.
proof fn lemma_labels_in(labels: Seq<u8>, indices: Seq<u8>, shape: Seq<usize>)
    requires
        forall|i: int| 0 <= i < labels.len() ==> indices.contains(#[trigger] labels[i]),
        indices.len() == shape.len(),
    ensures
        labels_in(labels, indices, shape),
{
    assert forall|i: int| 0 <= i < labels.len() implies indices.contains(#[trigger] labels[i])
        && first_pos(indices, labels[i]) < shape.len() by {
        lemma_first_pos(indices, labels[i]);
    }
}

/// Plans the dense contraction of operands of shapes `lhs_shape` and
/// `rhs_shape` over `notation`: parses and checks the notation (see
/// [`validate_contract_notation`]), checks each rank against its label
/// count, and derives the operand permutations, the GEMM extents, the GEMM
/// result's shape and the permutation to the requested output order.
pub fn plan_dense_contraction(notation: &str, lhs_shape: &[usize], rhs_shape: &[usize]) -> (r: Result<
    DenseContraction,
    LinalgError,
>)
    requires
        dense_extents_fit(notation@, lhs_shape@, rhs_shape@),
    ensures
        match parse_notation(notation@) {
            Err(e) => is_invalid_argument(r, parse_failure_message(e)),
            Ok((ins, o)) => match contract_notation_check(ins, o) {
                Err(m) => is_invalid_argument(r, m),
                Ok(()) => if lhs_shape@.len() != ins[0].len() {
                    is_invalid_argument(
                        r,
                        rank_mismatch_message("LHS"@, lhs_shape@.len(), ins[0].len()),
                    )
                } else if rhs_shape@.len() != ins[1].len() {
                    is_invalid_argument(
                        r,
                        rank_mismatch_message("RHS"@, rhs_shape@.len(), ins[1].len()),
                    )
                } else {
                    r matches Ok(p) && p.describes(ins[0], ins[1], o, lhs_shape@, rhs_shape@)
                },
            },
        },
{
    let expr = match EinsumExpr::parse(notation) {
        Ok(e) => e,
        Err(e) => {
            let mut m = "Failed to parse einsum: ".to_owned();
            push_str(&mut m, e.as_str());
            return Err(LinalgError::InvalidArgument(m));
        },
    };
    if let Err(e) = validate_contract_notation(&expr) {
        return Err(e);
    }
    let lhs = expr.lhs_indices();
    let rhs = expr.rhs_indices();
    let out = expr.out_indices();
    if lhs_shape.len() != lhs.len() {
        let mut m = "LHS".to_owned();
        push_str(&mut m, " tensor rank ");
        push_usize(&mut m, lhs_shape.len());
        push_str(&mut m, " doesn't match notation ");
        push_usize(&mut m, lhs.len());
        assert(m@ =~= rank_mismatch_message("LHS"@, lhs_shape@.len(), lhs@.len()));
        return Err(LinalgError::InvalidArgument(m));
    }
    if rhs_shape.len() != rhs.len() {
        let mut m = "RHS".to_owned();
        push_str(&mut m, " tensor rank ");
        push_usize(&mut m, rhs_shape.len());
        push_str(&mut m, " doesn't match notation ");
        push_usize(&mut m, rhs.len());
        assert(m@ =~= rank_mismatch_message("RHS"@, rhs_shape@.len(), rhs@.len()));
        return Err(LinalgError::InvalidArgument(m));
    }
    let ghost l = lhs@;
    let ghost rr = rhs@;
    let ghost o = out@;
    proof {
        assert(expr.inputs_view() =~= seq![l, rr]);
        law_plan_partition(l, rr, o);
    }
    let plan = ContractionPlan::from_expr(&expr);
    proof {
        assert(plan.lhs_target(rr) == left_order(l, rr, o));
        assert(plan.rhs_target(rr) == right_order(l, rr, o));
        let lt = left_order(l, rr, o);
        let rt = right_order(l, rr, o);
        assert forall|i: int| 0 <= i < l.len() implies l.contains(#[trigger] lt[i]) by {
            assert(lt.contains(lt[i]));
        }
        assert forall|i: int| 0 <= i < rr.len() implies rr.contains(#[trigger] rt[i]) by {
            assert(rt.contains(rt[i]));
        }
        lemma_filter_members(o, member_pred(l, rr, false));
        lemma_filter_members(o, member_pred(rr, l, false));
        lemma_filter_members(l, member_pred(rr, o, false));
        assert forall|i: int| 0 <= i < plan.free_lhs@.len() implies l.contains(#[trigger] plan.free_lhs@[i]) by {
            assert(plan.free_lhs@.contains(plan.free_lhs@[i]));
        }
        assert forall|i: int| 0 <= i < plan.free_rhs@.len() implies rr.contains(#[trigger] plan.free_rhs@[i]) by {
            assert(plan.free_rhs@.contains(plan.free_rhs@[i]));
        }
        assert forall|i: int| 0 <= i < plan.contracted@.len() implies l.contains(#[trigger] plan.contracted@[i]) by {
            assert(plan.contracted@.contains(plan.contracted@[i]));
        }
        lemma_labels_in(plan.free_lhs@, l, lhs_shape@);
        lemma_labels_in(plan.free_rhs@, rr, rhs_shape@);
        lemma_labels_in(plan.contracted@, l, lhs_shape@);
    }
    let lhs_perm = plan.lhs_permutation(lhs, rhs);
    let rhs_perm = plan.rhs_permutation(rhs);
    let m = extent_product(plan.free_lhs.as_slice(), lhs, lhs_shape);
    let n = extent_product(plan.free_rhs.as_slice(), rhs, rhs_shape);
    let k = extent_product(plan.contracted.as_slice(), lhs, lhs_shape);
    let output_shape = compute_output_shape(&plan, &expr, lhs_shape, rhs_shape);
    let output_perm = if out.len() == 0 {
        None
    } else {
        let mut actual: Vec<u8> = Vec::new();
        let mut i: usize = 0;
        while i < plan.free_lhs.len()
            invariant
                i <= plan.free_lhs@.len(),
                actual@ == plan.free_lhs@.take(i as int),
            decreases plan.free_lhs.len() - i,
        {
            actual.push(plan.free_lhs[i]);
            assert(actual@ =~= plan.free_lhs@.take(i + 1));
            i = i + 1;
        }
        let mut j: usize = 0;
        while j < plan.free_rhs.len()
            invariant
                j <= plan.free_rhs@.len(),
                actual@ == plan.free_lhs@ + plan.free_rhs@.take(j as int),
            decreases plan.free_rhs.len() - j,
        {
            actual.push(plan.free_rhs[j]);
            assert(actual@ =~= plan.free_lhs@ + plan.free_rhs@.take(j + 1));
            j = j + 1;
        }
        proof {
            assert(plan.free_lhs@.take(plan.free_lhs@.len() as int) =~= plan.free_lhs@);
            assert(plan.free_rhs@.take(plan.free_rhs@.len() as int) =~= plan.free_rhs@);
            assert(actual@ == gemm_order(l, rr, o));
            assert forall|i: int| 0 <= i < o.len() implies actual@.contains(#[trigger] o[i]) by {
                assert(o.contains(o[i]));
            }
        }
        compute_permutation(actual.as_slice(), out)
    };
    Ok(DenseContraction { lhs_perm, rhs_perm, m, n, k, output_shape, output_perm })
}

/// Every running product of the extents of the axes labelled `labels`
/// fits in a `usize`.
fn extents_fit_for(labels: &[u8], indices: &[u8], shape: &[usize]) -> (r: bool)
    requires
        labels_in(labels@, indices@, shape@),
    ensures
        r == products_fit(labelled_extents(labels@, indices@, shape@)),
{
    let ghost ext = labelled_extents(labels@, indices@, shape@);
    let mut acc: usize = 1;
    let mut i: usize = 0;
    assert(ext.take(0) =~= Seq::<usize>::empty());
    while i < labels.len()
        invariant
            i <= labels@.len() == ext.len(),
            ext == labelled_extents(labels@, indices@, shape@),
            labels_in(labels@, indices@, shape@),
            acc == prod(ext.take(i as int)),
            forall|k: int| 0 <= k <= i ==> #[trigger] prod(ext.take(k)) <= usize::MAX,
        decreases labels.len() - i,
    {
        let d = dim_of(labels[i], indices, shape);
        proof {
            assert(ext.take(i + 1).drop_last() =~= ext.take(i as int));
            assert(ext.take(i + 1).last() == d);
        }
        match acc.checked_mul(d) {
            Some(v) => {
                acc = v;
            },
            None => {
                assert(prod(ext.take(i + 1)) == prod(ext.take(i as int)) * (d as nat));
                assert(!(prod(ext.take(i + 1)) <= usize::MAX));
                return false;
            },
        }
        i = i + 1;
    }
    assert(ext.take(i as int) =~= ext);
    true
}

/// Whether the extents that [`plan_dense_contraction`] multiplies all fit
/// in a `usize` (see [`dense_extents_fit`]).
pub fn extents_fit(notation: &str, lhs_shape: &[usize], rhs_shape: &[usize]) -> (r: bool)
    ensures
        r == dense_extents_fit(notation@, lhs_shape@, rhs_shape@),
{
    let expr = match EinsumExpr::parse(notation) {
        Ok(e) => e,
        Err(_) => {
            return true;
        },
    };
    if validate_contract_notation(&expr).is_err() {
        return true;
    }
    let lhs = expr.lhs_indices();
    let rhs = expr.rhs_indices();
    if lhs_shape.len() != lhs.len() || rhs_shape.len() != rhs.len() {
        return true;
    }
    let ghost l = lhs@;
    let ghost rr = rhs@;
    let ghost o = expr.out_view();
    proof {
        assert(expr.inputs_view() =~= seq![l, rr]);
    }
    let plan = ContractionPlan::from_expr(&expr);
    proof {
        lemma_filter_members(o, member_pred(l, rr, false));
        lemma_filter_members(o, member_pred(rr, l, false));
        lemma_filter_members(l, member_pred(rr, o, false));
        assert forall|i: int| 0 <= i < plan.free_lhs@.len() implies l.contains(#[trigger] plan.free_lhs@[i]) by {
            assert(plan.free_lhs@.contains(plan.free_lhs@[i]));
        }
        assert forall|i: int| 0 <= i < plan.free_rhs@.len() implies rr.contains(#[trigger] plan.free_rhs@[i]) by {
            assert(plan.free_rhs@.contains(plan.free_rhs@[i]));
        }
        assert forall|i: int| 0 <= i < plan.contracted@.len() implies l.contains(#[trigger] plan.contracted@[i]) by {
            assert(plan.contracted@.contains(plan.contracted@[i]));
        }
        lemma_labels_in(plan.free_lhs@, l, lhs_shape@);
        lemma_labels_in(plan.free_rhs@, rr, rhs_shape@);
        lemma_labels_in(plan.contracted@, l, lhs_shape@);
    }
    extents_fit_for(plan.free_lhs.as_slice(), lhs, lhs_shape) && extents_fit_for(
        plan.free_rhs.as_slice(),
        rhs,
        rhs_shape,
    ) && extents_fit_for(plan.contracted.as_slice(), lhs, lhs_shape)
}

/// The extents behind the GEMM key of a notation are all defined: it has
/// two operands at least, and when it has no batch label and the ranks match
/// it, their running products fit in a `usize`.
pub open spec fn gemm_key_defined(notation: Seq<char>, lhs_shape: Seq<usize>, rhs_shape: Seq<usize>) -> bool {
    match parse_notation(notation) {
        Err(_) => true,
        Ok((ins, o)) => {
            &&& ins.len() >= 2
            &&& (batch_labels(ins[0], ins[1], o).len() == 0 && ins[0].len() == lhs_shape.len()
                && ins[1].len() == rhs_shape.len()) ==> {
                let l = ins[0];
                let r = ins[1];
                &&& products_fit(labelled_extents(free_left(l, r, o), l, lhs_shape))
                &&& products_fit(labelled_extents(free_right(l, r, o), r, rhs_shape))
                &&& products_fit(labelled_extents(contracted_labels(l, r, o), l, lhs_shape))
            }
        },
    }
}

/// The key `(m, n, k)` by which a backend picks the execution policy of a
/// dense contraction: the GEMM extents when the notation has no batch label
/// and the operand ranks match it, else `(0, 0, 0)`. A notation that does
/// not parse is an error.
pub fn gemm_key(notation: &str, lhs_shape: &[usize], rhs_shape: &[usize]) -> (r: Result<
    (usize, usize, usize),
    LinalgError,
>)
    requires
        gemm_key_defined(notation@, lhs_shape@, rhs_shape@),
    ensures
        match parse_notation(notation@) {
            Err(e) => is_invalid_argument(r, parse_failure_message(e)),
            Ok((ins, o)) => r matches Ok((m, n, k)) && if batch_labels(ins[0], ins[1], o).len() == 0
                && ins[0].len() == lhs_shape@.len() && ins[1].len() == rhs_shape@.len() {
                &&& m == gemm_extent(labelled_extents(free_left(ins[0], ins[1], o), ins[0], lhs_shape@))
                &&& n == gemm_extent(labelled_extents(free_right(ins[0], ins[1], o), ins[1], rhs_shape@))
                &&& k == gemm_extent(
                    labelled_extents(contracted_labels(ins[0], ins[1], o), ins[0], lhs_shape@),
                )
            } else {
                m == 0 && n == 0 && k == 0
            },
        },
{
    let expr = match EinsumExpr::parse(notation) {
        Ok(e) => e,
        Err(e) => {
            let mut m = "Failed to parse einsum: ".to_owned();
            push_str(&mut m, e.as_str());
            return Err(LinalgError::InvalidArgument(m));
        },
    };
    let plan = ContractionPlan::from_expr(&expr);
    let lhs = expr.lhs_indices();
    let rhs = expr.rhs_indices();
    if plan.batch.len() == 0 && lhs_shape.len() == lhs.len() && rhs_shape.len() == rhs.len() {
        let ghost l = lhs@;
        let ghost rr = rhs@;
        let ghost o = expr.out_view();
        proof {
            lemma_filter_members(o, member_pred(l, rr, false));
            lemma_filter_members(o, member_pred(rr, l, false));
            lemma_filter_members(l, member_pred(rr, o, false));
            assert forall|i: int| 0 <= i < plan.free_lhs@.len() implies l.contains(#[trigger] plan.free_lhs@[i]) by {
                assert(plan.free_lhs@.contains(plan.free_lhs@[i]));
            }
            assert forall|i: int| 0 <= i < plan.free_rhs@.len() implies rr.contains(#[trigger] plan.free_rhs@[i]) by {
                assert(plan.free_rhs@.contains(plan.free_rhs@[i]));
            }
            assert forall|i: int| 0 <= i < plan.contracted@.len() implies l.contains(#[trigger] plan.contracted@[i]) by {
                assert(plan.contracted@.contains(plan.contracted@[i]));
            }
            lemma_labels_in(plan.free_lhs@, l, lhs_shape@);
            lemma_labels_in(plan.free_rhs@, rr, rhs_shape@);
            lemma_labels_in(plan.contracted@, l, lhs_shape@);
        }
        let m = extent_product(plan.free_lhs.as_slice(), lhs, lhs_shape);
        let n = extent_product(plan.free_rhs.as_slice(), rhs, rhs_shape);
        let k = extent_product(plan.contracted.as_slice(), lhs, lhs_shape);
        Ok((m, n, k))
    } else {
        Ok((0, 0, 0))
    }
}

} // verus!
