//! Parsing and validation of the two-operand `contract` inputs, in both the
//! notation and the axis-pair forms.
//!
//! The supported shape is a two-operand tensordot with free output
//! reordering: every input label is either an output label or a contracted
//! label (shared by both operands and absent from the output). Partial trace
//! (a label repeated within one operand), implicit reduction (a label in one
//! operand only and absent from the output), batch indices (a label in both
//! operands and in the output), and any operand count other than two are
//! rejected with `InvalidArgument`.

use vstd::prelude::*;

use crate::einsum::{contains_byte, filter_members, member_pred, parse_notation, position_of, EinsumExpr};
use crate::seqs::{first_pos, lemma_filter_take_step, lemma_first_pos};
use crate::text::{decimal, push_char, push_str, push_usize};

verus! {

/// Error raised by the linear-algebra layer.
#[derive(Debug, Clone)]
pub enum LinalgError {
    /// An argument violates the operation's contract; the message says how.
    InvalidArgument(String),
}

/// The result is the `InvalidArgument` error with message `m`.
pub open spec fn is_invalid_argument<T>(r: Result<T, LinalgError>, m: Seq<char>) -> bool {
    r matches Err(LinalgError::InvalidArgument(e)) && e@ == m
}

// ---------------------------------------------------------------------------
// The model
// ---------------------------------------------------------------------------

/// The first entry of `s` that repeats an earlier entry.
pub open spec fn first_repeat(s: Seq<u8>) -> Option<u8>
    decreases s.len(),
{
    if s.len() == 0 {
        None
    } else {
        match first_repeat(s.drop_last()) {
            Some(c) => Some(c),
            None => if s.drop_last().contains(s.last()) {
                Some(s.last())
            } else {
                None
            },
        }
    }
}

/// The first entry of `s` that lies in neither `a` nor `b`.
pub open spec fn first_outside(s: Seq<u8>, a: Seq<u8>, b: Seq<u8>) -> Option<u8>
    decreases s.len(),
{
    if s.len() == 0 {
        None
    } else {
        match first_outside(s.drop_last(), a, b) {
            Some(c) => Some(c),
            None => if !a.contains(s.last()) && !b.contains(s.last()) {
                Some(s.last())
            } else {
                None
            },
        }
    }
}

/// The first entry of `s` that lies in both `a` and `b`.
pub open spec fn first_shared(s: Seq<u8>, a: Seq<u8>, b: Seq<u8>) -> Option<u8>
    decreases s.len(),
{
    if s.len() == 0 {
        None
    } else {
        match first_shared(s.drop_last(), a, b) {
            Some(c) => Some(c),
            None => if a.contains(s.last()) && b.contains(s.last()) {
                Some(s.last())
            } else {
                None
            },
        }
    }
}

/// Message: wrong operand count.
pub open spec fn operand_count_message(n: nat) -> Seq<char> {
    "contract requires exactly two operands; notation has "@ + decimal(n)
}

/// Message: a label repeated within one place of the notation.
pub open spec fn repeat_message(c: u8, place: Seq<char>) -> Seq<char> {
    "contract() does not support a repeated index '"@ + seq![c as char] + "' within the "@
        + place + "; use a dedicated trace for partial traces"@
}

/// Message: a batch label.
pub open spec fn batch_message(c: u8) -> Seq<char> {
    "contract() does not support batch index '"@ + seq![c as char] + "'; use einsum() instead"@
}

/// Message: a label that is neither contracted nor an output label.
pub open spec fn reduction_message(c: u8, place: Seq<char>) -> Seq<char> {
    "index '"@ + seq![c as char] + "' in the "@ + place
        + " is neither contracted nor in the output; contract() does not perform implicit reduction"@
}

/// Verdict of the notation checks on parsed index lists, in the order they
/// are made.
pub open spec fn contract_notation_check(inputs: Seq<Seq<u8>>, out: Seq<u8>) -> Result<(), Seq<char>> {
    if inputs.len() != 2 {
        Err(operand_count_message(inputs.len()))
    } else {
        let l = inputs[0];
        let r = inputs[1];
        match (first_repeat(l), first_repeat(r), first_repeat(out)) {
            (Some(c), _, _) => Err(repeat_message(c, "left operand"@)),
            (None, Some(c), _) => Err(repeat_message(c, "right operand"@)),
            (None, None, Some(c)) => Err(repeat_message(c, "output"@)),
            (None, None, None) => match first_shared(out, l, r) {
                Some(c) => Err(batch_message(c)),
                None => match first_outside(l, r, out) {
                    Some(c) => Err(reduction_message(c, "left operand"@)),
                    None => match first_outside(r, l, out) {
                        Some(c) => Err(reduction_message(c, "right operand"@)),
                        None => Ok(()),
                    },
                },
            },
        }
    }
}

// ---------------------------------------------------------------------------
// Lemmas
// ---------------------------------------------------------------------------

proof fn lemma_first_repeat_prefix(s: Seq<u8>, k: int)
    requires
        0 <= k <= s.len(),
        first_repeat(s.take(k)) is Some,
    ensures
        first_repeat(s) == first_repeat(s.take(k)),
    decreases s.len() - k,
{
    if k < s.len() {
        assert(s.take(k + 1).drop_last() =~= s.take(k));
        lemma_first_repeat_prefix(s, k + 1);
    } else {
        assert(s.take(k) =~= s);
    }
}

proof fn lemma_first_outside_prefix(s: Seq<u8>, a: Seq<u8>, b: Seq<u8>, k: int)
    requires
        0 <= k <= s.len(),
        first_outside(s.take(k), a, b) is Some,
    ensures
        first_outside(s, a, b) == first_outside(s.take(k), a, b),
    decreases s.len() - k,
{
    if k < s.len() {
        assert(s.take(k + 1).drop_last() =~= s.take(k));
        lemma_first_outside_prefix(s, a, b, k + 1);
    } else {
        assert(s.take(k) =~= s);
    }
}

proof fn lemma_first_shared_prefix(s: Seq<u8>, a: Seq<u8>, b: Seq<u8>, k: int)
    requires
        0 <= k <= s.len(),
        first_shared(s.take(k), a, b) is Some,
    ensures
        first_shared(s, a, b) == first_shared(s.take(k), a, b),
    decreases s.len() - k,
{
    if k < s.len() {
        assert(s.take(k + 1).drop_last() =~= s.take(k));
        lemma_first_shared_prefix(s, a, b, k + 1);
    } else {
        assert(s.take(k) =~= s);
    }
}

// ---------------------------------------------------------------------------
// Checks
// ---------------------------------------------------------------------------

/// `b` occurs in `v`.
fn has_byte(v: &[u8], b: u8) -> (r: bool)
    ensures
        r == v@.contains(b),
{
    let mut i: usize = 0;
    while i < v.len()
        invariant
            i <= v.len(),
            forall|j: int| 0 <= j < i ==> v@[j] != b,
        decreases v.len() - i,
    {
        if v[i] == b {
            return true;
        }
        i = i + 1;
    }
    false
}

fn reject_repeat(indices: &[u8], place: &str) -> (r: Result<(), LinalgError>)
    ensures
        match first_repeat(indices@) {
            None => r is Ok,
            Some(c) => is_invalid_argument(r, repeat_message(c, place@)),
        },
{
    let mut i: usize = 0;
    while i < indices.len()
        invariant
            i <= indices.len(),
            first_repeat(indices@.take(i as int)) is None,
        decreases indices.len() - i,
    {
        let c = indices[i];
        let ghost pre = indices@.take(i as int);
        assert(indices@.take(i + 1).drop_last() =~= pre);
        let mut j: usize = 0;
        let mut seen = false;
        while j < i
            invariant
                j <= i < indices.len(),
                pre == indices@.take(i as int),
                seen == exists|t: int| 0 <= t < j && #[trigger] indices@[t] == c,
            decreases i - j,
        {
            if indices[j] == c {
                seen = true;
            }
            j = j + 1;
        }
        assert(seen == pre.contains(c)) by {
            if seen {
                let t = choose|t: int| 0 <= t < j && #[trigger] indices@[t] == c;
                assert(pre[t] == c);
            }
            if pre.contains(c) {
                let t = choose|t: int| 0 <= t < pre.len() && pre[t] == c;
                assert(indices@[t] == c);
            }
        }
        if seen {
            let mut m = "contract() does not support a repeated index '".to_owned();
            push_char(&mut m, c as char);
            push_str(&mut m, "' within the ");
            push_str(&mut m, place);
            push_str(&mut m, "; use a dedicated trace for partial traces");
            assert(m@ =~= repeat_message(c, place@));
            proof {
                assert(indices@.take(i + 1).last() == c);
                assert(first_repeat(indices@.take(i + 1)) == Some(c));
                lemma_first_repeat_prefix(indices@, i + 1);
            }
            return Err(LinalgError::InvalidArgument(m));
        }
        i = i + 1;
    }
    assert(indices@.take(i as int) =~= indices@);
    Ok(())
}

fn implicit_reduction_err(c: u8, place: &str) -> (e: LinalgError)
    ensures
        e matches LinalgError::InvalidArgument(m) && m@ == reduction_message(c, place@),
{
    let mut m = "index '".to_owned();
    push_char(&mut m, c as char);
    push_str(&mut m, "' in the ");
    push_str(&mut m, place);
    push_str(
        &mut m,
        " is neither contracted nor in the output; contract() does not perform implicit reduction",
    );
    assert(m@ =~= reduction_message(c, place@));
    LinalgError::InvalidArgument(m)
}

/// The first entry of `s` in neither `a` nor `b`.
fn find_outside(s: &[u8], a: &[u8], b: &[u8]) -> (r: Option<u8>)
    ensures
        r == first_outside(s@, a@, b@),
{
    let mut i: usize = 0;
    while i < s.len()
        invariant
            i <= s.len(),
            first_outside(s@.take(i as int), a@, b@) is None,
        decreases s.len() - i,
    {
        assert(s@.take(i + 1).drop_last() =~= s@.take(i as int));
        let c = s[i];
        if !has_byte(a, c) && !has_byte(b, c) {
            proof {
                assert(s@.take(i + 1).last() == c);
                lemma_first_outside_prefix(s@, a@, b@, i + 1);
            }
            return Some(c);
        }
        i = i + 1;
    }
    assert(s@.take(i as int) =~= s@);
    None
}

/// Checks that `expr` is a well-formed two-operand contraction: exactly two
/// operands; no label repeated within an operand or within the output; no
/// batch label (in both operands and the output); every operand label either
/// contracted or in the output.
pub fn validate_contract_notation(expr: &EinsumExpr) -> (r: Result<(), LinalgError>)
    ensures
        match contract_notation_check(expr.inputs_view(), expr.out_view()) {
            Ok(()) => r is Ok,
            Err(m) => is_invalid_argument(r, m),
        },
{
    if expr.num_inputs() != 2 {
        let mut m = "contract requires exactly two operands; notation has ".to_owned();
        push_usize(&mut m, expr.num_inputs());
        return Err(LinalgError::InvalidArgument(m));
    }
    let lhs = expr.lhs_indices();
    let rhs = expr.rhs_indices();
    let out = expr.out_indices();
    if let Err(e) = reject_repeat(lhs, "left operand") {
        return Err(e);
    }
    if let Err(e) = reject_repeat(rhs, "right operand") {
        return Err(e);
    }
    if let Err(e) = reject_repeat(out, "output") {
        return Err(e);
    }
    // A batch label: shared by both operands and kept in the output.
    let mut i: usize = 0;
    while i < out.len()
        invariant
            i <= out.len(),
            expr.inputs_view().len() == 2,
            lhs@ == expr.inputs_view()[0],
            rhs@ == expr.inputs_view()[1],
            out@ == expr.out_view(),
            first_repeat(lhs@) is None,
            first_repeat(rhs@) is None,
            first_repeat(out@) is None,
            first_shared(out@.take(i as int), lhs@, rhs@) is None,
        decreases out.len() - i,
    {
        assert(out@.take(i + 1).drop_last() =~= out@.take(i as int));
        let c = out[i];
        if has_byte(lhs, c) && has_byte(rhs, c) {
            let mut m = "contract() does not support batch index '".to_owned();
            push_char(&mut m, c as char);
            push_str(&mut m, "'; use einsum() instead");
            assert(m@ =~= batch_message(c));
            proof {
                assert(out@.take(i + 1).last() == c);
                assert(first_shared(out@.take(i + 1), lhs@, rhs@) == Some(c));
                lemma_first_shared_prefix(out@, lhs@, rhs@, i + 1);
            }
            return Err(LinalgError::InvalidArgument(m));
        }
        i = i + 1;
    }
    assert(out@.take(i as int) =~= out@);
    if let Some(c) = find_outside(lhs, rhs, out) {
        return Err(implicit_reduction_err(c, "left operand"));
    }
    if let Some(c) = find_outside(rhs, lhs, out) {
        return Err(implicit_reduction_err(c, "right operand"));
    }
    Ok(())
}

} // verus!

verus! {

// ---------------------------------------------------------------------------
// The parsed contraction
// ---------------------------------------------------------------------------

/// The positions of `l` whose label `r` also carries.
pub open spec fn label_shared(l: Seq<u8>, r: Seq<u8>) -> spec_fn(usize) -> bool {
    |i: usize| r.contains(l[i as int])
}

/// The axis positions below `n`, ascending.
pub open spec fn axes_below(n: nat) -> Seq<usize> {
    Seq::new(n, |i: int| i as usize)
}

/// Left-operand axes of the contracted labels, in left-operand order.
pub open spec fn shared_axes(l: Seq<u8>, r: Seq<u8>) -> Seq<usize> {
    axes_below(l.len()).filter(label_shared(l, r))
}

/// For each of `axes` of the left operand, the right-operand axis of the same
/// label.
pub open spec fn partner_axes(l: Seq<u8>, r: Seq<u8>, axes: Seq<usize>) -> Seq<usize> {
    axes.map_values(|i: usize| first_pos(r, l[i as int]) as usize)
}

/// The output order a plain tensordot produces: the free labels of the left
/// operand, then those of the right, each in operand order.
pub open spec fn natural_order(l: Seq<u8>, r: Seq<u8>) -> Seq<u8> {
    l.filter(member_pred(l, r, false)) + r.filter(member_pred(r, l, false))
}

/// Message: the notation does not parse.
pub open spec fn parse_failure_message(e: Seq<char>) -> Seq<char> {
    "Failed to parse einsum: "@ + e
}

/// A parsed two-operand contraction: the contracted axis pairs, the natural
/// and requested output label orders, and the operand arities.
///
/// `axes_lhs[k]` / `axes_rhs[k]` are the operand axes of the `k`-th
/// contracted label, paired by label in left-operand axis order.
/// `natural_labels` is the order a plain tensordot produces; `out_labels` is
/// the order the notation requests.
pub struct ContractSpec {
    /// Left-operand axes of the contracted labels.
    pub axes_lhs: Vec<usize>,
    /// Right-operand axes of the same labels, pairwise.
    pub axes_rhs: Vec<usize>,
    /// Free left labels, then free right labels, each in operand order.
    pub natural_labels: Vec<u8>,
    /// The output order the notation requests.
    pub out_labels: Vec<u8>,
    /// Number of indices the notation gives the left operand.
    pub lhs_arity: usize,
    /// Number of indices the notation gives the right operand.
    pub rhs_arity: usize,
}

/// The axis pairs of a parsed contraction pair axes of equal label: for
/// every `k`, left axis `axes_lhs[k]` and right axis `axes_rhs[k]` carry the
/// same label; and the left axes are listed in ascending order, each once.
pub proof fn law_axis_pairs_share_labels(l: Seq<u8>, r: Seq<u8>)
    requires
        l.len() <= usize::MAX,
        r.len() <= usize::MAX,
    ensures
        shared_axes(l, r).len() == partner_axes(l, r, shared_axes(l, r)).len(),
        forall|k: int|
            0 <= k < shared_axes(l, r).len() ==> {
                let i = #[trigger] shared_axes(l, r)[k];
                let j = partner_axes(l, r, shared_axes(l, r))[k];
                &&& i < l.len()
                &&& j < r.len()
                &&& l[i as int] == r[j as int]
            },
        forall|a: int, b: int|
            0 <= a < b < shared_axes(l, r).len() ==> shared_axes(l, r)[a] < shared_axes(l, r)[b],
{
    let all = axes_below(l.len());
    let p = label_shared(l, r);
    let sa = shared_axes(l, r);
    crate::dense_plan::lemma_filter_members(all, p);
    assert forall|k: int| 0 <= k < sa.len() implies {
        let i = #[trigger] sa[k];
        let j = partner_axes(l, r, sa)[k];
        &&& i < l.len()
        &&& j < r.len()
        &&& l[i as int] == r[j as int]
    } by {
        let i = sa[k];
        assert(sa.contains(i));
        assert(all.contains(i));
        let t = choose|t: int| 0 <= t < all.len() && all[t] == i;
        assert(i as int == t);
        assert(p(i));
        assert(r.contains(l[i as int]));
        lemma_first_pos(r, l[i as int]);
    }
    lemma_filter_ascending(all, p);
}

/// Filtering keeps a strictly ascending sequence strictly ascending.
proof fn lemma_filter_ascending(s: Seq<usize>, p: spec_fn(usize) -> bool)
    requires
        forall|a: int, b: int| 0 <= a < b < s.len() ==> s[a] < s[b],
    ensures
        forall|a: int, b: int| 0 <= a < b < s.filter(p).len() ==> s.filter(p)[a] < s.filter(p)[b],
    decreases s.len(),
{
    if s.len() > 0 {
        let d = s.drop_last();
        let e = s.last();
        assert forall|a: int, b: int| 0 <= a < b < d.len() implies d[a] < d[b] by {
            assert(d[a] == s[a] && d[b] == s[b]);
        }
        lemma_filter_ascending(d, p);
        assert(s =~= d.push(e));
        d.lemma_filter_push(e, p);
        if p(e) {
            let f = d.filter(p);
            crate::dense_plan::lemma_filter_members(d, p);
            assert forall|a: int| 0 <= a < f.len() implies f[a] < e by {
                assert(f.contains(f[a]));
                assert(d.contains(f[a]));
                let t = choose|t: int| 0 <= t < d.len() && d[t] == f[a];
                assert(s[t] < s[s.len() - 1]);
            }
        }
    }
}

/// Appends `src` to `dst`.
fn append_bytes(dst: &mut Vec<u8>, src: &[u8])
    ensures
        final(dst)@ == old(dst)@ + src@,
{
    let ghost start = dst@;
    let mut i: usize = 0;
    while i < src.len()
        invariant
            i <= src.len(),
            dst@ == start + src@.take(i as int),
        decreases src.len() - i,
    {
        dst.push(src[i]);
        assert(src@.take(i + 1) =~= src@.take(i as int).push(src@[i as int]));
        i = i + 1;
    }
    assert(src@.take(i as int) =~= src@);
}

impl ContractSpec {
    /// `self` is the contraction that the index lists `l`, `r`, `o` describe.
    pub open spec fn describes(&self, l: Seq<u8>, r: Seq<u8>, o: Seq<u8>) -> bool {
        &&& self.axes_lhs@ == shared_axes(l, r)
        &&& self.axes_rhs@ == partner_axes(l, r, shared_axes(l, r))
        &&& self.natural_labels@ == natural_order(l, r)
        &&& self.out_labels@ == o
        &&& self.lhs_arity == l.len()
        &&& self.rhs_arity == r.len()
    }

    /// Parses and checks `notation` (see [`validate_contract_notation`]),
    /// then derives the contracted axis pairs and the natural and requested
    /// output orders.
    pub fn from_notation(notation: &str) -> (r: Result<Self, LinalgError>)
        ensures
            match parse_notation(notation@) {
                Err(e) => is_invalid_argument(r, parse_failure_message(e)),
                Ok((inputs, out)) => match contract_notation_check(inputs, out) {
                    Err(m) => is_invalid_argument(r, m),
                    Ok(()) => r matches Ok(s) && s.describes(inputs[0], inputs[1], out),
                },
            },
    {
        let expr = match EinsumExpr::parse(notation) {
            Ok(e) => e,
            Err(e) => {
                let mut m = "Failed to parse einsum: ".to_owned();
                push_str(&mut m, e.as_str());
                return Err(LinalgError::InvalidArgument(m));
            },
        };
        if let Err(e) = validate_contract_notation(&expr) {
            return Err(e);
        }
        let lhs = expr.lhs_indices();
        let rhs = expr.rhs_indices();
        let ghost l = lhs@;
        let ghost rr = rhs@;
        let ghost all = axes_below(l.len());
        let mut axes_lhs: Vec<usize> = Vec::new();
        let mut axes_rhs: Vec<usize> = Vec::new();
        let mut i: usize = 0;
        assert(all.take(0).filter(label_shared(l, rr)) =~= Seq::<usize>::empty()) by {
            reveal(Seq::filter);
        }
        while i < lhs.len()
            invariant
                i <= lhs.len(),
                l == lhs@,
                rr == rhs@,
                all == axes_below(l.len()),
                axes_lhs@ == all.take(i as int).filter(label_shared(l, rr)),
                axes_rhs@ == partner_axes(l, rr, axes_lhs@),
            decreases lhs.len() - i,
        {
            proof {
                lemma_filter_take_step(all, label_shared(l, rr), i as int);
            }
            let c = lhs[i];
            if contains_byte(rhs, c) {
                let p = position_of(rhs, c);
                let ghost before = axes_lhs@;
                axes_lhs.push(i);
                axes_rhs.push(p);
                assert(axes_rhs@ =~= partner_axes(l, rr, axes_lhs@)) by {
                    assert(axes_lhs@ == before.push(i));
                    assert(partner_axes(l, rr, before.push(i)) =~= partner_axes(l, rr, before).push(
                        p,
                    ));
                }
            }
            i = i + 1;
        }
        assert(all.take(i as int) =~= all);
        let mut natural_labels = filter_members(lhs, lhs, rhs, false);
        let right_free = filter_members(rhs, rhs, lhs, false);
        append_bytes(&mut natural_labels, right_free.as_slice());
        let mut out_labels: Vec<u8> = Vec::new();
        append_bytes(&mut out_labels, expr.out_indices());
        Ok(ContractSpec {
            axes_lhs,
            axes_rhs,
            natural_labels,
            out_labels,
            lhs_arity: lhs.len(),
            rhs_arity: rhs.len(),
        })
    }
}

// ---------------------------------------------------------------------------
// Axis pairs
// ---------------------------------------------------------------------------

/// Message: an axis out of range.
pub open spec fn axis_range_message(which: Seq<char>, i: nat, a: nat, rank: nat) -> Seq<char> {
    which + "["@ + decimal(i) + "] = "@ + decimal(a) + " out of range for rank "@ + decimal(rank)
}

/// Message: an axis listed twice.
pub open spec fn axis_repeat_message(which: Seq<char>, a: nat) -> Seq<char> {
    which + " contains duplicate axis "@ + decimal(a)
}

/// Message: the two axis lists differ in length.
pub open spec fn axes_length_message(a: nat, b: nat) -> Seq<char> {
    "axes_lhs length "@ + decimal(a) + " != axes_rhs length "@ + decimal(b)
}

/// Verdict on one axis list: the first entry, in order, that is out of range
/// or repeats an earlier entry (range is checked first).
pub open spec fn axes_check(axes: Seq<usize>, rank: nat, which: Seq<char>) -> Result<(), Seq<char>>
    decreases axes.len(),
{
    if axes.len() == 0 {
        Ok(())
    } else {
        match axes_check(axes.drop_last(), rank, which) {
            Err(m) => Err(m),
            Ok(()) => {
                let a = axes.last();
                if a >= rank {
                    Err(axis_range_message(which, (axes.len() - 1) as nat, a as nat, rank))
                } else if axes.drop_last().contains(a) {
                    Err(axis_repeat_message(which, a as nat))
                } else {
                    Ok(())
                }
            },
        }
    }
}

/// Verdict on a pair of axis lists.
pub open spec fn axes_pair_check(al: Seq<usize>, lhs_rank: nat, ar: Seq<usize>, rhs_rank: nat) -> Result<(), Seq<char>> {
    if al.len() != ar.len() {
        Err(axes_length_message(al.len(), ar.len()))
    } else {
        match axes_check(al, lhs_rank, "axes_lhs"@) {
            Err(m) => Err(m),
            Ok(()) => axes_check(ar, rhs_rank, "axes_rhs"@),
        }
    }
}

proof fn lemma_axes_check_prefix(axes: Seq<usize>, rank: nat, which: Seq<char>, k: int)
    requires
        0 <= k <= axes.len(),
        axes_check(axes.take(k), rank, which) is Err,
    ensures
        axes_check(axes, rank, which) == axes_check(axes.take(k), rank, which),
    decreases axes.len() - k,
{
    if k < axes.len() {
        assert(axes.take(k + 1).drop_last() =~= axes.take(k));
        lemma_axes_check_prefix(axes, rank, which, k + 1);
    } else {
        assert(axes.take(k) =~= axes);
    }
}

/// `a` occurs in `v`.
fn has_axis(v: &[usize], a: usize) -> (r: bool)
    ensures
        r == v@.contains(a),
{
    let mut i: usize = 0;
    while i < v.len()
        invariant
            i <= v.len(),
            forall|j: int| 0 <= j < i ==> v@[j] != a,
        decreases v.len() - i,
    {
        if v[i] == a {
            return true;
        }
        i = i + 1;
    }
    false
}

fn reject_out_of_range_or_duplicate(axes: &[usize], rank: usize, which: &str) -> (r: Result<(), LinalgError>)
    ensures
        match axes_check(axes@, rank as nat, which@) {
            Ok(()) => r is Ok,
            Err(m) => is_invalid_argument(r, m),
        },
{
    let mut i: usize = 0;
    while i < axes.len()
        invariant
            i <= axes.len(),
            axes_check(axes@.take(i as int), rank as nat, which@) is Ok,
        decreases axes.len() - i,
    {
        let a = axes[i];
        let ghost pre = axes@.take(i as int);
        assert(axes@.take(i + 1).drop_last() =~= pre);
        assert(axes@.take(i + 1).last() == a);
        if a >= rank {
            let mut m = which.to_owned();
            push_str(&mut m, "[");
            push_usize(&mut m, i);
            push_str(&mut m, "] = ");
            push_usize(&mut m, a);
            push_str(&mut m, " out of range for rank ");
            push_usize(&mut m, rank);
            assert(m@ =~= axis_range_message(which@, i as nat, a as nat, rank as nat));
            proof {
                lemma_axes_check_prefix(axes@, rank as nat, which@, i + 1);
            }
            return Err(LinalgError::InvalidArgument(m));
        }
        let mut j: usize = 0;
        let mut seen = false;
        while j < i
            invariant
                j <= i < axes.len(),
                seen == exists|t: int| 0 <= t < j && #[trigger] axes@[t] == a,
            decreases i - j,
        {
            if axes[j] == a {
                seen = true;
            }
            j = j + 1;
        }
        assert(seen == pre.contains(a)) by {
            if seen {
                let t = choose|t: int| 0 <= t < j && #[trigger] axes@[t] == a;
                assert(pre[t] == a);
            }
            if pre.contains(a) {
                let t = choose|t: int| 0 <= t < pre.len() && pre[t] == a;
                assert(axes@[t] == a);
            }
        }
        if seen {
            let mut m = which.to_owned();
            push_str(&mut m, " contains duplicate axis ");
            push_usize(&mut m, a);
            assert(m@ =~= axis_repeat_message(which@, a as nat));
            proof {
                lemma_axes_check_prefix(axes@, rank as nat, which@, i + 1);
            }
            return Err(LinalgError::InvalidArgument(m));
        }
        i = i + 1;
    }
    assert(axes@.take(i as int) =~= axes@);
    Ok(())
}

/// Checks a pair of contraction axis lists: equal lengths, every axis in
/// range for its operand's rank, and no axis repeated within a list.
pub fn validate_contraction_axes_pair(
    axes_lhs: &[usize],
    lhs_rank: usize,
    axes_rhs: &[usize],
    rhs_rank: usize,
) -> (r: Result<(), LinalgError>)
    ensures
        match axes_pair_check(axes_lhs@, lhs_rank as nat, axes_rhs@, rhs_rank as nat) {
            Ok(()) => r is Ok,
            Err(m) => is_invalid_argument(r, m),
        },
{
    if axes_lhs.len() != axes_rhs.len() {
        let mut m = "axes_lhs length ".to_owned();
        push_usize(&mut m, axes_lhs.len());
        push_str(&mut m, " != axes_rhs length ");
        push_usize(&mut m, axes_rhs.len());
        assert(m@ =~= axes_length_message(axes_lhs@.len(), axes_rhs@.len()));
        return Err(LinalgError::InvalidArgument(m));
    }
    if let Err(e) = reject_out_of_range_or_duplicate(axes_lhs, lhs_rank, "axes_lhs") {
        return Err(e);
    }
    reject_out_of_range_or_duplicate(axes_rhs, rhs_rank, "axes_rhs")
}

} // verus!

verus! {

// ---------------------------------------------------------------------------
// Notation for an axis-pair contraction
// ---------------------------------------------------------------------------

/// Largest number of distinct labels a synthesized notation can use
/// (`a`-`z`, then `A`-`Z`).
pub const MAX_LABELS: usize = 52;

/// The label of the `i`-th distinct leg: `a`-`z`, then `A`-`Z`.
pub open spec fn axis_label(i: nat) -> char {
    if i < 26 {
        ((97 + i) as u8) as char
    } else {
        ((65 + (i - 26)) as u8) as char
    }
}

/// The axes below `j` that are not in `axes`, ascending.
pub open spec fn free_axes_below(axes: Seq<usize>, j: nat) -> Seq<usize> {
    axes_below(j).filter(|t: usize| !axes.contains(t))
}

/// Labels of the left operand: one per axis, in axis order.
pub open spec fn td_lhs_labels(lhs_rank: nat) -> Seq<char> {
    Seq::new(lhs_rank, |i: int| axis_label(i as nat))
}

/// Labels of the right operand: a contracted axis takes its partner's
/// label; a free axis takes the next fresh label after the left operand's.
pub open spec fn td_rhs_labels(lhs_rank: nat, rhs_rank: nat, al: Seq<usize>, ar: Seq<usize>) -> Seq<char> {
    Seq::new(
        rhs_rank,
        |j: int|
            if ar.contains(j as usize) {
                axis_label(al[first_pos(ar, j as usize)] as nat)
            } else {
                axis_label(lhs_rank + free_axes_below(ar, j as nat).len())
            },
    )
}

/// Output labels: the free left labels in axis order, then the fresh labels
/// of the free right axes.
pub open spec fn td_out_labels(lhs_rank: nat, rhs_rank: nat, al: Seq<usize>, ar: Seq<usize>) -> Seq<char> {
    free_axes_below(al, lhs_rank).map_values(|i: usize| axis_label(i as nat)) + Seq::new(
        free_axes_below(ar, rhs_rank).len(),
        |t: int| axis_label((lhs_rank + t) as nat),
    )
}

/// The notation `lhs,rhs->out` for an axis-pair contraction.
pub open spec fn td_notation(lhs_rank: nat, rhs_rank: nat, al: Seq<usize>, ar: Seq<usize>) -> Seq<char> {
    td_lhs_labels(lhs_rank) + seq![','] + td_rhs_labels(lhs_rank, rhs_rank, al, ar) + seq![
        '-',
        '>',
    ] + td_out_labels(lhs_rank, rhs_rank, al, ar)
}

/// Message: more distinct legs than labels.
pub open spec fn label_count_message() -> Seq<char> {
    "tensordot notation supports at most 52 distinct labels"@
}

/// Every entry of an accepted axis list is in range, and none repeats.
pub(crate) proof fn lemma_axes_check_ok(axes: Seq<usize>, rank: nat, which: Seq<char>)
    requires
        axes_check(axes, rank, which) is Ok,
    ensures
        forall|k: int| 0 <= k < axes.len() ==> axes[k] < rank,
        axes.no_duplicates(),
    decreases axes.len(),
{
    if axes.len() > 0 {
        let d = axes.drop_last();
        lemma_axes_check_ok(d, rank, which);
        assert forall|k: int| 0 <= k < axes.len() implies axes[k] < rank by {
            if k < d.len() {
                assert(d[k] == axes[k]);
            }
        }
        assert forall|i: int, k: int| 0 <= i < axes.len() && 0 <= k < axes.len() && i != k implies axes[i]
            != axes[k] by {
            if i < d.len() && k < d.len() {
                assert(d[i] == axes[i] && d[k] == axes[k]);
            } else if i < d.len() {
                assert(d[i] == axes[i]);
                assert(d.contains(axes[i]));
            } else {
                assert(d[k] == axes[k]);
                assert(d.contains(axes[k]));
            }
        }
    }
}

/// One more axis extends the free axes below it exactly when it is free.
pub(crate) proof fn lemma_free_axes_step(axes: Seq<usize>, j: nat)
    requires
        j <= usize::MAX,
    ensures
        free_axes_below(axes, j + 1) == if axes.contains(j as usize) {
            free_axes_below(axes, j)
        } else {
            free_axes_below(axes, j).push(j as usize)
        },
{
    let p = |t: usize| !axes.contains(t);
    assert(axes_below(j + 1) =~= axes_below(j).push(j as usize));
    axes_below(j).lemma_filter_push(j as usize, p);
}

/// The number of free axes below a bound grows with the bound.
pub(crate) proof fn lemma_free_axes_monotone(axes: Seq<usize>, j: nat, k: nat)
    requires
        j <= k <= usize::MAX + 1,
    ensures
        free_axes_below(axes, j).len() <= free_axes_below(axes, k).len(),
    decreases k - j,
{
    if j < k {
        lemma_free_axes_step(axes, (k - 1) as nat);
        lemma_free_axes_monotone(axes, j, (k - 1) as nat);
    }
}

/// The label character for leg `i < 52`.
fn label_char(i: usize) -> (c: char)
    requires
        i < 52,
    ensures
        c == axis_label(i as nat),
{
    if i < 26 {
        ((97 + i) as u8) as char
    } else {
        ((65 + (i - 26)) as u8) as char
    }
}

/// Position of `a` in `v`, which holds it.
pub(crate) fn axis_position(v: &[usize], a: usize) -> (r: usize)
    requires
        v@.contains(a),
    ensures
        r as int == first_pos(v@, a),
{
    proof {
        lemma_first_pos(v@, a);
    }
    let ghost fp = first_pos(v@, a);
    let mut i: usize = 0;
    while i < v.len()
        invariant
            i <= v.len(),
            fp == first_pos(v@, a),
            0 <= fp < v@.len(),
            v@[fp] == a,
            forall|j: int| 0 <= j < fp ==> v@[j] != a,
            i <= fp,
        decreases v.len() - i,
    {
        if v[i] == a {
            return i;
        }
        i = i + 1;
    }
    0
}

/// Number of axes below `n` not in `axes`.
fn count_free(axes: &[usize], n: usize) -> (r: usize)
    ensures
        r == free_axes_below(axes@, n as nat).len(),
{
    let ghost p = |t: usize| !axes@.contains(t);
    let ghost all = axes_below(n as nat);
    let mut count: usize = 0;
    let mut j: usize = 0;
    assert(all.take(0).filter(p) =~= Seq::<usize>::empty()) by {
        reveal(Seq::filter);
    }
    while j < n
        invariant
            j <= n,
            p == (|t: usize| !axes@.contains(t)),
            all == axes_below(n as nat),
            count == all.take(j as int).filter(p).len(),
            count <= j,
        decreases n - j,
    {
        proof {
            lemma_filter_take_step(all, p, j as int);
        }
        if !has_axis(axes, j) {
            count = count + 1;
        }
        j = j + 1;
    }
    assert(all.take(j as int) =~= all);
    count
}

/// The notation `lhs,rhs->out` for contracting `axes_lhs` of an operand of
/// rank `lhs_rank` against `axes_rhs` of one of rank `rhs_rank`, with the
/// output in natural order: left axes take the labels `a`, `b`, ... in
/// order; a contracted right axis takes its partner's label; free right axes
/// take the next fresh labels; the output lists the free left labels, then
/// the free right ones. The axis lists are checked as
/// [`validate_contraction_axes_pair`] checks them, and at most 52 distinct
/// labels are available.
pub fn tensordot_notation(
    lhs_rank: usize,
    rhs_rank: usize,
    axes_lhs: &[usize],
    axes_rhs: &[usize],
) -> (r: Result<String, LinalgError>)
    ensures
        match axes_pair_check(axes_lhs@, lhs_rank as nat, axes_rhs@, rhs_rank as nat) {
            Err(m) => is_invalid_argument(r, m),
            Ok(()) => {
                let n = lhs_rank + free_axes_below(axes_rhs@, rhs_rank as nat).len();
                if n > 52 {
                    is_invalid_argument(r, label_count_message())
                } else {
                    r matches Ok(s) && s@ == td_notation(
                        lhs_rank as nat,
                        rhs_rank as nat,
                        axes_lhs@,
                        axes_rhs@,
                    )
                }
            },
        },
{
    if let Err(e) = validate_contraction_axes_pair(axes_lhs, lhs_rank, axes_rhs, rhs_rank) {
        return Err(e);
    }
    let fresh = count_free(axes_rhs, rhs_rank);
    if lhs_rank > MAX_LABELS || fresh > MAX_LABELS - lhs_rank {
        let m = "tensordot notation supports at most 52 distinct labels".to_owned();
        return Err(LinalgError::InvalidArgument(m));
    }
    let ghost al = axes_lhs@;
    let ghost ar = axes_rhs@;
    let ghost lr = lhs_rank as nat;
    let ghost rr = rhs_rank as nat;
    proof {
        lemma_axes_check_ok(al, lr, "axes_lhs"@);
        lemma_axes_check_ok(ar, rr, "axes_rhs"@);
    }
    let mut s = String::new();
    // Left labels.
    let mut i: usize = 0;
    while i < lhs_rank
        invariant
            i <= lhs_rank <= 52,
            s@ == td_lhs_labels(lr).take(i as int),
            lr == lhs_rank,
        decreases lhs_rank - i,
    {
        push_char(&mut s, label_char(i));
        assert(td_lhs_labels(lr).take(i + 1) =~= td_lhs_labels(lr).take(i as int).push(
            axis_label(i as nat),
        ));
        i = i + 1;
    }
    assert(td_lhs_labels(lr).take(i as int) =~= td_lhs_labels(lr));
    push_char(&mut s, ',');
    let ghost head = s@;
    // Right labels.
    let mut j: usize = 0;
    let mut used: usize = 0;
    assert(free_axes_below(ar, 0) =~= Seq::<usize>::empty()) by {
        reveal(Seq::filter);
    }
    while j < rhs_rank
        invariant
            j <= rhs_rank,
            lr == lhs_rank,
            rr == rhs_rank,
            al == axes_lhs@,
            ar == axes_rhs@,
            al.len() == ar.len(),
            forall|k: int| 0 <= k < al.len() ==> al[k] < lhs_rank,
            lhs_rank + fresh <= 52,
            fresh == free_axes_below(ar, rr).len(),
            used == free_axes_below(ar, j as nat).len(),
            s@ == head + td_rhs_labels(lr, rr, al, ar).take(j as int),
        decreases rhs_rank - j,
    {
        proof {
            lemma_free_axes_step(ar, j as nat);
            lemma_free_axes_monotone(ar, (j + 1) as nat, rr);
        }
        let ghost want = td_rhs_labels(lr, rr, al, ar)[j as int];
        let c = if has_axis(axes_rhs, j) {
            let p = axis_position(axes_rhs, j);
            proof {
                lemma_first_pos(ar, j);
            }
            label_char(axes_lhs[p])
        } else {
            let c = label_char(lhs_rank + used);
            used = used + 1;
            c
        };
        assert(c == want);
        push_char(&mut s, c);
        assert(td_rhs_labels(lr, rr, al, ar).take(j + 1) =~= td_rhs_labels(lr, rr, al, ar).take(
            j as int,
        ).push(want));
        j = j + 1;
    }
    assert(td_rhs_labels(lr, rr, al, ar).take(j as int) =~= td_rhs_labels(lr, rr, al, ar));
    push_char(&mut s, '-');
    push_char(&mut s, '>');
    let ghost mid = s@;
    let ghost lab = |t: usize| axis_label(t as nat);
    // Free left labels.
    let mut i: usize = 0;
    assert(free_axes_below(al, 0) =~= Seq::<usize>::empty()) by {
        reveal(Seq::filter);
    }
    while i < lhs_rank
        invariant
            i <= lhs_rank <= 52,
            lr == lhs_rank,
            al == axes_lhs@,
            lab == (|t: usize| axis_label(t as nat)),
            s@ == mid + free_axes_below(al, i as nat).map_values(lab),
        decreases lhs_rank - i,
    {
        proof {
            lemma_free_axes_step(al, i as nat);
        }
        if !has_axis(axes_lhs, i) {
            push_char(&mut s, label_char(i));
            assert(free_axes_below(al, i as nat).push(i).map_values(lab) =~= free_axes_below(
                al,
                i as nat,
            ).map_values(lab).push(axis_label(i as nat)));
        }
        i = i + 1;
    }
    let ghost tail = s@;
    // Fresh right labels.
    let mut t: usize = 0;
    while t < fresh
        invariant
            t <= fresh,
            lhs_rank + fresh <= 52,
            lr == lhs_rank,
            s@ == tail + Seq::new(t as nat, |k: int| axis_label((lr + k) as nat)),
        decreases fresh - t,
    {
        push_char(&mut s, label_char(lhs_rank + t));
        assert(Seq::new((t + 1) as nat, |k: int| axis_label((lr + k) as nat)) =~= Seq::new(
            t as nat,
            |k: int| axis_label((lr + k) as nat),
        ).push(axis_label((lr + t) as nat)));
        t = t + 1;
    }
    assert(s@ =~= td_notation(lr, rr, al, ar));
    Ok(s)
}

} // verus!
