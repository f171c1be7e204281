//! Einstein summation notation: parsing, validation, index analysis and the
//! two-operand contraction plan.

use std::collections::HashSet;

use vstd::prelude::*;

use crate::seqs::{concat_all, count_of, first_occurrences, first_pos, lemma_filter_take_step, lemma_first_occurrences, lemma_first_pos};
use crate::text::{ascii_letter, chars_of, decimal, push_usize, is_ascii_letter, is_white_space, push_char, push_str, white_space};

verus! {

// ---------------------------------------------------------------------------
// The model of the notation
// ---------------------------------------------------------------------------

/// Letter codes of `s`, or the first character of `s` that is not an ASCII
/// letter.
pub open spec fn index_codes(s: Seq<char>) -> Result<Seq<u8>, char>
    decreases s.len(),
{
    if s.len() == 0 {
        Ok(Seq::empty())
    } else {
        match index_codes(s.drop_last()) {
            Err(c) => Err(c),
            Ok(v) => if is_ascii_letter(s.last()) {
                Ok(v.push(s.last() as u8))
            } else {
                Err(s.last())
            },
        }
    }
}

/// Letter codes of every part, or the first offending character in reading
/// order.
pub open spec fn parts_codes(parts: Seq<Seq<char>>) -> Result<Seq<Seq<u8>>, char>
    decreases parts.len(),
{
    if parts.len() == 0 {
        Ok(Seq::empty())
    } else {
        match parts_codes(parts.drop_last()) {
            Err(c) => Err(c),
            Ok(v) => match index_codes(parts.last()) {
                Err(c) => Err(c),
                Ok(w) => Ok(v.push(w)),
            },
        }
    }
}

/// The message for a character that cannot name an index.
pub open spec fn invalid_index_message(c: char) -> Seq<char> {
    "Invalid index '"@ + seq![c] + "': must be A-Z or a-z"@
}

/// The message for an output index that no input carries.
pub open spec fn unbound_output_message(b: u8) -> Seq<char> {
    "Output index '"@ + seq![b as char] + "' does not appear in any input tensor"@
}

/// The characters the parser keeps: all but white space.
pub open spec fn not_white() -> spec_fn(char) -> bool {
    |c: char| !is_white_space(c)
}

/// `s` without its white-space characters.
pub open spec fn strip_white(s: Seq<char>) -> Seq<char> {
    s.filter(not_white())
}

/// `->` starts at position `i` of `s`.
pub open spec fn is_arrow_at(s: Seq<char>, i: int) -> bool {
    0 <= i && i + 1 < s.len() && s[i] == '-' && s[i + 1] == '>'
}

/// The first position at or after `i` where `->` starts.
pub open spec fn find_arrow(s: Seq<char>, i: int) -> Option<int>
    decreases s.len() - i,
{
    if i < 0 || i + 1 >= s.len() {
        None
    } else if is_arrow_at(s, i) {
        Some(i)
    } else {
        find_arrow(s, i + 1)
    }
}

/// The pieces of `s` between commas (one piece more than there are commas).
pub open spec fn split_commas(s: Seq<char>) -> Seq<Seq<char>>
    decreases s.len(),
{
    if s.len() == 0 {
        seq![Seq::<char>::empty()]
    } else {
        let prev = split_commas(s.drop_last());
        if s.last() == ',' {
            prev.push(Seq::<char>::empty())
        } else {
            prev.update(prev.len() - 1, prev.last().push(s.last()))
        }
    }
}

/// `b` names an axis of some input.
pub open spec fn occurs_in(inputs: Seq<Seq<u8>>, b: u8) -> bool {
    exists|k: int| 0 <= k < inputs.len() && #[trigger] inputs[k].contains(b)
}

/// Number of axes, over all inputs, that `b` names.
pub open spec fn count_in(inputs: Seq<Seq<u8>>, b: u8) -> nat
    decreases inputs.len(),
{
    if inputs.len() == 0 {
        0
    } else {
        count_in(inputs.drop_last(), b) + count_of(inputs.last(), b)
    }
}

/// The byte values below `n`, ascending.
pub open spec fn bytes_below(n: nat) -> Seq<u8> {
    Seq::new(n, |i: int| i as u8)
}

/// The indices named exactly once over all of `inputs`.
pub open spec fn named_once_in(inputs: Seq<Seq<u8>>) -> spec_fn(u8) -> bool {
    |b: u8| count_in(inputs, b) == 1
}

/// The implicit output: the indices named exactly once over all inputs, in
/// ascending order.
pub open spec fn free_sorted(inputs: Seq<Seq<u8>>) -> Seq<u8> {
    bytes_below(256).filter(named_once_in(inputs))
}

/// Axis `j` of input `k` is named `b`.
pub open spec fn names_at(inputs: Seq<Seq<u8>>, b: u8, k: int, j: int) -> bool {
    0 <= k < inputs.len() && 0 <= j < inputs[k].len() && inputs[k][j] == b
}

proof fn lemma_count_of_witnesses(s: Seq<u8>, x: u8)
    ensures
        count_of(s, x) >= 1 <==> exists|j: int| 0 <= j < s.len() && #[trigger] s[j] == x,
        count_of(s, x) >= 2 <==> exists|j1: int, j2: int|
            0 <= j1 < j2 < s.len() && #[trigger] s[j1] == x && #[trigger] s[j2] == x,
    decreases s.len(),
{
    if s.len() > 0 {
        let d = s.drop_last();
        let n = s.len() - 1;
        lemma_count_of_witnesses(d, x);
        assert forall|j: int| 0 <= j < n implies #[trigger] s[j] == d[j] by {}
        if count_of(d, x) >= 1 {
            let j = choose|j: int| 0 <= j < d.len() && #[trigger] d[j] == x;
            assert(s[j] == x);
            if s.last() == x {
                assert(s[j] == x && s[n] == x);
            }
        }
        if count_of(d, x) >= 2 {
            let (j1, j2) = choose|j1: int, j2: int| 0 <= j1 < j2 < d.len() && #[trigger] d[j1] == x && #[trigger] d[j2] == x;
            assert(s[j1] == x && s[j2] == x);
        }
        if exists|j: int| 0 <= j < s.len() && #[trigger] s[j] == x {
            let j = choose|j: int| 0 <= j < s.len() && #[trigger] s[j] == x;
            if j < n {
                assert(d[j] == x);
            }
        }
        if exists|j1: int, j2: int| 0 <= j1 < j2 < s.len() && #[trigger] s[j1] == x && #[trigger] s[j2] == x {
            let (j1, j2) = choose|j1: int, j2: int| 0 <= j1 < j2 < s.len() && #[trigger] s[j1] == x && #[trigger] s[j2] == x;
            assert(d[j1] == x);
            if j2 < n {
                assert(d[j2] == x);
            }
        }
    }
}

proof fn lemma_count_in_witnesses(inputs: Seq<Seq<u8>>, b: u8)
    ensures
        count_in(inputs, b) >= 1 <==> exists|k: int, j: int| #[trigger] names_at(inputs, b, k, j),
        count_in(inputs, b) >= 2 <==> exists|k1: int, j1: int, k2: int, j2: int|
            #[trigger] names_at(inputs, b, k1, j1) && #[trigger] names_at(inputs, b, k2, j2) && (k1 != k2 || j1 != j2),
    decreases inputs.len(),
{
    if inputs.len() > 0 {
        let d = inputs.drop_last();
        let n = inputs.len() - 1;
        let last = inputs.last();
        lemma_count_in_witnesses(d, b);
        lemma_count_of_witnesses(last, b);
        assert forall|k: int, j: int| 0 <= k < n implies #[trigger] names_at(inputs, b, k, j) == names_at(d, b, k, j) by {
            assert(inputs[k] == d[k]);
        }
        assert forall|j: int| #[trigger] names_at(inputs, b, n, j) == (0 <= j < last.len() && last[j] == b) by {}
        // From the counts to the positions.
        if count_in(d, b) >= 1 {
            let (k, j) = choose|k: int, j: int| #[trigger] names_at(d, b, k, j);
            assert(names_at(inputs, b, k, j));
            if count_of(last, b) >= 1 {
                let jl = choose|jl: int| 0 <= jl < last.len() && #[trigger] last[jl] == b;
                assert(names_at(inputs, b, n, jl));
            }
        }
        if count_in(d, b) >= 2 {
            let (k1, j1, k2, j2) = choose|k1: int, j1: int, k2: int, j2: int|
                #[trigger] names_at(d, b, k1, j1) && #[trigger] names_at(d, b, k2, j2) && (k1 != k2 || j1 != j2);
            assert(names_at(inputs, b, k1, j1) && names_at(inputs, b, k2, j2));
        }
        if count_of(last, b) >= 1 {
            let jl = choose|jl: int| 0 <= jl < last.len() && #[trigger] last[jl] == b;
            assert(names_at(inputs, b, n, jl));
        }
        if count_of(last, b) >= 2 {
            let (j1, j2) = choose|j1: int, j2: int| 0 <= j1 < j2 < last.len() && #[trigger] last[j1] == b && #[trigger] last[j2] == b;
            assert(names_at(inputs, b, n, j1) && names_at(inputs, b, n, j2));
        }
        // From the positions to the counts.
        if exists|k: int, j: int| #[trigger] names_at(inputs, b, k, j) {
            let (k, j) = choose|k: int, j: int| #[trigger] names_at(inputs, b, k, j);
            if k < n {
                assert(names_at(d, b, k, j));
            } else {
                assert(last[j] == b);
            }
        }
        if exists|k1: int, j1: int, k2: int, j2: int|
            #[trigger] names_at(inputs, b, k1, j1) && #[trigger] names_at(inputs, b, k2, j2) && (k1 != k2 || j1 != j2) {
            let (k1, j1, k2, j2) = choose|k1: int, j1: int, k2: int, j2: int|
                #[trigger] names_at(inputs, b, k1, j1) && #[trigger] names_at(inputs, b, k2, j2) && (k1 != k2 || j1 != j2);
            if k1 < n && k2 < n {
                assert(names_at(d, b, k1, j1) && names_at(d, b, k2, j2));
            } else if k1 < n {
                assert(names_at(d, b, k1, j1));
                assert(last[j2] == b);
            } else if k2 < n {
                assert(names_at(d, b, k2, j2));
                assert(last[j1] == b);
            } else {
                assert(last[j1] == b && last[j2] == b);
                if j1 < j2 {
                    assert(0 <= j1 < j2 < last.len() && last[j1] == b && last[j2] == b);
                } else {
                    assert(0 <= j2 < j1 < last.len() && last[j2] == b && last[j1] == b);
                }
            }
        }
    }
}

proof fn lemma_filter_ascending(s: Seq<u8>, pred: spec_fn(u8) -> bool)
    requires
        forall|i: int, j: int| 0 <= i < j < s.len() ==> #[trigger] s[i] < #[trigger] s[j],
    ensures
        forall|i: int, j: int| 0 <= i < j < s.filter(pred).len() ==> #[trigger] s.filter(pred)[i] < #[trigger] s.filter(pred)[j],
        forall|i: int| 0 <= i < s.filter(pred).len() ==> exists|k: int| 0 <= k < s.len() && #[trigger] s[k] == #[trigger] s.filter(pred)[i],
    decreases s.len(),
{
    reveal(Seq::filter);
    if s.len() > 0 {
        let d = s.drop_last();
        let n = s.len() - 1;
        lemma_filter_ascending(d, pred);
        let sub = d.filter(pred);
        let f = s.filter(pred);
        assert forall|i: int| 0 <= i < sub.len() implies #[trigger] sub[i] < s[n] && exists|k: int| 0 <= k < s.len() && #[trigger] s[k] == sub[i] by {
            let k = choose|k: int| 0 <= k < d.len() && #[trigger] d[k] == sub[i];
            assert(s[k] == d[k]);
            assert(s[k] < s[n]);
        }
        if pred(s.last()) {
            assert(f == sub.push(s.last()));
            assert forall|i: int| 0 <= i < f.len() implies exists|k: int| 0 <= k < s.len() && #[trigger] s[k] == #[trigger] f[i] by {
                if i < sub.len() {
                    assert(f[i] == sub[i]);
                } else {
                    assert(s[n] == f[i]);
                }
            }
            assert forall|i: int, j: int| 0 <= i < j < f.len() implies #[trigger] f[i] < #[trigger] f[j] by {
                assert(f[i] == sub[i]);
                if j < sub.len() {
                    assert(f[j] == sub[j]);
                    assert(sub[i] < sub[j]);
                } else {
                    assert(sub[i] < s[n]);
                }
            }
        } else {
            assert(f == sub);
        }
    }
}

/// The implicit output holds an index exactly when it names one axis, and
/// one only, over all the inputs: it occurs at some position of some input,
/// and at no other position of that input or of any other. Its indices
/// come in ascending order, each once.
pub proof fn law_implicit_output_named_once(inputs: Seq<Seq<u8>>, b: u8)
    ensures
        free_sorted(inputs).contains(b) <==> (exists|k: int, j: int| #[trigger] names_at(inputs, b, k, j)) && (
        forall|k1: int, j1: int, k2: int, j2: int|
            #[trigger] names_at(inputs, b, k1, j1) && #[trigger] names_at(inputs, b, k2, j2) ==> k1 == k2 && j1
                == j2),
        forall|i: int, j: int| 0 <= i < j < free_sorted(inputs).len() ==> #[trigger] free_sorted(inputs)[i] < #[trigger] free_sorted(inputs)[j],
{
    lemma_count_in_witnesses(inputs, b);
    let all = bytes_below(256);
    assert(all[b as int] == b);
    assert(all.contains(b));
    assert(all.filter(named_once_in(inputs)).contains(b) <==> named_once_in(inputs)(b));
    assert forall|i: int, j: int| 0 <= i < j < all.len() implies #[trigger] all[i] < #[trigger] all[j] by {}
    lemma_filter_ascending(all, named_once_in(inputs));
}

/// The first output index, in output order, that no input carries.
pub open spec fn first_unbound(inputs: Seq<Seq<u8>>, out: Seq<u8>) -> Option<u8>
    decreases out.len(),
{
    if out.len() == 0 {
        None
    } else {
        match first_unbound(inputs, out.drop_last()) {
            Some(b) => Some(b),
            None => if occurs_in(inputs, out.last()) {
                None
            } else {
                Some(out.last())
            },
        }
    }
}

/// The indices whose membership in `a` holds and in `b` is `want`.
pub open spec fn member_pred(a: Seq<u8>, b: Seq<u8>, want: bool) -> spec_fn(u8) -> bool {
    |x: u8| a.contains(x) && b.contains(x) == want
}

/// The indices not in `excluded`.
pub open spec fn not_in(excluded: Seq<u8>) -> spec_fn(u8) -> bool {
    |x: u8| !excluded.contains(x)
}

/// Contracted indices: those carried by some input and absent from the
/// output, in order of first appearance over the inputs.
pub open spec fn contracted_of(inputs: Seq<Seq<u8>>, out: Seq<u8>) -> Seq<u8> {
    first_occurrences(concat_all(inputs).filter(not_in(out)))
}

/// The matrix-product pattern: two inputs of two indices each, three
/// distinct indices over the inputs, an output of two indices, and exactly
/// one contracted index.
pub open spec fn is_matmul_pattern(inputs: Seq<Seq<u8>>, out: Seq<u8>) -> bool {
    &&& inputs.len() == 2
    &&& first_occurrences(concat_all(inputs)).len() == 3
    &&& inputs[0].len() == 2
    &&& inputs[1].len() == 2
    &&& out.len() == 2
    &&& contracted_of(inputs, out).len() == 1
}

/// The pairs (index, extent) that `shapes` binds, input by input, over the
/// first `k` inputs.
pub open spec fn bound_pairs(inputs: Seq<Seq<u8>>, shapes: Seq<Seq<usize>>, k: nat) -> Seq<(u8, usize)>
    decreases k,
{
    if k == 0 {
        Seq::empty()
    } else {
        bound_pairs(inputs, shapes, (k - 1) as nat) + Seq::new(
            inputs[k - 1].len(),
            |j: int| (inputs[k - 1][j], shapes[k - 1][j]),
        )
    }
}

/// The extent of each index over `pairs`, or the first pair whose extent
/// differs from the one bound before: (index, earlier extent, new extent).
pub open spec fn bind_extents(pairs: Seq<(u8, usize)>) -> Result<Map<u8, usize>, (u8, usize, usize)>
    decreases pairs.len(),
{
    if pairs.len() == 0 {
        Ok(Map::empty())
    } else {
        match bind_extents(pairs.drop_last()) {
            Err(e) => Err(e),
            Ok(m) => {
                let (b, d) = pairs.last();
                if m.contains_key(b) {
                    if m[b] == d {
                        Ok(m)
                    } else {
                        Err((b, m[b], d))
                    }
                } else {
                    Ok(m.insert(b, d))
                }
            },
        }
    }
}

/// The first of the first `k` inputs whose index count differs from its
/// shape's rank.
pub open spec fn first_rank_mismatch(inputs: Seq<Seq<u8>>, shapes: Seq<Seq<usize>>, k: nat) -> Option<nat>
    decreases k,
{
    if k == 0 {
        None
    } else {
        match first_rank_mismatch(inputs, shapes, (k - 1) as nat) {
            Some(i) => Some(i),
            None => if inputs[k - 1].len() != shapes[k - 1].len() {
                Some((k - 1) as nat)
            } else {
                None
            },
        }
    }
}

/// The extent of each output index, or the first output index with none.
pub open spec fn output_extents(m: Map<u8, usize>, out: Seq<u8>) -> Result<Seq<usize>, u8>
    decreases out.len(),
{
    if out.len() == 0 {
        Ok(Seq::empty())
    } else {
        match output_extents(m, out.drop_last()) {
            Err(b) => Err(b),
            Ok(v) => if m.contains_key(out.last()) {
                Ok(v.push(m[out.last()]))
            } else {
                Err(out.last())
            },
        }
    }
}

/// Message: the number of shapes differs from the number of inputs.
pub open spec fn shape_count_message(expected: nat, got: nat) -> Seq<char> {
    "Expected "@ + decimal(expected) + " input shapes, got "@ + decimal(got)
}

/// Message: a shape's rank differs from its input's index count.
pub open spec fn rank_message(i: nat, rank: nat, count: nat) -> Seq<char> {
    "Input "@ + decimal(i) + " shape rank "@ + decimal(rank) + " does not match index count "@
        + decimal(count)
}

/// Message: an index is bound to two extents.
pub open spec fn extent_message(b: u8, earlier: nat, later: nat) -> Seq<char> {
    "Dimension mismatch for index '"@ + seq![b as char] + "': found "@ + decimal(earlier)
        + " and "@ + decimal(later)
}

/// Message: an output index has no extent.
pub open spec fn missing_extent_message(b: u8) -> Seq<char> {
    "Output index '"@ + seq![b as char] + "' not found in input tensors"@
}

/// What `infer_output_shape` gives for the index lists and the shapes.
pub open spec fn output_shape_of(inputs: Seq<Seq<u8>>, out: Seq<u8>, shapes: Seq<Seq<usize>>) -> Result<Seq<usize>, Seq<char>> {
    if shapes.len() != inputs.len() {
        Err(shape_count_message(inputs.len(), shapes.len()))
    } else {
        match first_rank_mismatch(inputs, shapes, inputs.len()) {
            Some(i) => Err(rank_message(i, shapes[i as int].len(), inputs[i as int].len())),
            None => match bind_extents(bound_pairs(inputs, shapes, inputs.len())) {
                Err((b, e, d)) => Err(extent_message(b, e as nat, d as nat)),
                Ok(m) => match output_extents(m, out) {
                    Err(b) => Err(missing_extent_message(b)),
                    Ok(v) => Ok(v),
                },
            },
        }
    }
}

/// What `EinsumExpr::parse` makes of `notation`: the input index lists and
/// the output index list, or the error message.
pub open spec fn parse_notation(notation: Seq<char>) -> Result<(Seq<Seq<u8>>, Seq<u8>), Seq<char>> {
    let s = strip_white(notation);
    let arrow = find_arrow(s, 0);
    let ins = match arrow {
        Some(p) => s.take(p),
        None => s,
    };
    match parts_codes(split_commas(ins)) {
        Err(c) => Err(invalid_index_message(c)),
        Ok(inputs) => {
            let out = match arrow {
                Some(p) => index_codes(s.skip(p + 2)),
                None => Ok(free_sorted(inputs)),
            };
            match out {
                Err(c) => Err(invalid_index_message(c)),
                Ok(out) => match first_unbound(inputs, out) {
                    Some(b) => Err(unbound_output_message(b)),
                    None => Ok((inputs, out)),
                },
            }
        },
    }
}

// ---------------------------------------------------------------------------
// Lemmas on the model
// ---------------------------------------------------------------------------

/// A parsed expression passes validation: every output index of a notation
/// that parses is carried by some input, so [`EinsumExpr::validate`] accepts
/// what [`EinsumExpr::parse`] returns.
pub proof fn law_parsed_expression_validates(notation: Seq<char>)
    ensures
        parse_notation(notation) matches Ok((inputs, out)) ==> first_unbound(inputs, out) is None,
{
}

/// An error in a prefix of the characters is the error of the whole.
pub proof fn lemma_index_codes_err(s: Seq<char>, k: int)
    requires
        0 <= k <= s.len(),
        index_codes(s.take(k)) is Err,
    ensures
        index_codes(s) == index_codes(s.take(k)),
    decreases s.len() - k,
{
    if k < s.len() {
        assert(s.take(k + 1).drop_last() =~= s.take(k));
        lemma_index_codes_err(s, k + 1);
    } else {
        assert(s.take(k) =~= s);
    }
}

/// An error in a prefix of the parts is the error of the whole.
pub proof fn lemma_parts_codes_err(s: Seq<Seq<char>>, k: int)
    requires
        0 <= k <= s.len(),
        parts_codes(s.take(k)) is Err,
    ensures
        parts_codes(s) == parts_codes(s.take(k)),
    decreases s.len() - k,
{
    if k < s.len() {
        assert(s.take(k + 1).drop_last() =~= s.take(k));
        lemma_parts_codes_err(s, k + 1);
    } else {
        assert(s.take(k) =~= s);
    }
}

/// The pieces that a prefix of `s` has completed are the leading pieces of
/// `s` itself.
pub proof fn lemma_split_commas_prefix(s: Seq<char>, k: int)
    requires
        0 <= k <= s.len(),
    ensures
        split_commas(s.take(k)).len() <= split_commas(s).len(),
        split_commas(s.take(k)).drop_last() == split_commas(s).take(
            split_commas(s.take(k)).len() - 1,
        ),
    decreases s.len() - k,
{
    lemma_split_commas_nonempty(s.take(k));
    if k == s.len() {
        assert(s.take(k) =~= s);
    } else {
        lemma_split_commas_prefix(s, k + 1);
        lemma_split_commas_nonempty(s.take(k + 1));
        let p = split_commas(s.take(k));
        let q = split_commas(s.take(k + 1));
        assert(s.take(k + 1).drop_last() =~= s.take(k));
        if s[k] == ',' {
            assert(q.drop_last() =~= p);
            assert(p.drop_last() =~= split_commas(s).take(p.len() - 1));
        } else {
            assert(q.drop_last() =~= p.drop_last());
        }
    }
}

/// An unbound index in a prefix of the output is the first unbound index of
/// the whole output.
pub proof fn lemma_first_unbound_prefix(inputs: Seq<Seq<u8>>, out: Seq<u8>, k: int)
    requires
        0 <= k <= out.len(),
        first_unbound(inputs, out.take(k)) is Some,
    ensures
        first_unbound(inputs, out) == first_unbound(inputs, out.take(k)),
    decreases out.len() - k,
{
    if k < out.len() {
        assert(out.take(k + 1).drop_last() =~= out.take(k));
        lemma_first_unbound_prefix(inputs, out, k + 1);
    } else {
        assert(out.take(k) =~= out);
    }
}

/// Filtering with a predicate that every element passes keeps the sequence.
pub proof fn lemma_filter_all<A>(s: Seq<A>, p: spec_fn(A) -> bool)
    requires
        forall|x: A| #[trigger] p(x),
    ensures
        s.filter(p) == s,
    decreases s.len(),
{
    reveal(Seq::filter);
    if s.len() > 0 {
        lemma_filter_all(s.drop_last(), p);
        assert(s.drop_last().push(s.last()) =~= s);
    }
}

/// An error in a prefix of the pairs is the error of all of them.
pub proof fn lemma_bind_extents_err(pairs: Seq<(u8, usize)>, k: int)
    requires
        0 <= k <= pairs.len(),
        bind_extents(pairs.take(k)) is Err,
    ensures
        bind_extents(pairs) == bind_extents(pairs.take(k)),
    decreases pairs.len() - k,
{
    if k < pairs.len() {
        assert(pairs.take(k + 1).drop_last() =~= pairs.take(k));
        lemma_bind_extents_err(pairs, k + 1);
    } else {
        assert(pairs.take(k) =~= pairs);
    }
}

/// A rank mismatch among the first `k` inputs is the first of all of them.
pub proof fn lemma_rank_mismatch_prefix(inputs: Seq<Seq<u8>>, shapes: Seq<Seq<usize>>, k: nat, n: nat)
    requires
        k <= n,
        first_rank_mismatch(inputs, shapes, k) is Some,
    ensures
        first_rank_mismatch(inputs, shapes, n) == first_rank_mismatch(inputs, shapes, k),
    decreases n - k,
{
    if k < n {
        lemma_rank_mismatch_prefix(inputs, shapes, k, (n - 1) as nat);
    }
}

/// A missing extent in a prefix of the output is the first missing one.
pub proof fn lemma_output_extents_err(m: Map<u8, usize>, out: Seq<u8>, k: int)
    requires
        0 <= k <= out.len(),
        output_extents(m, out.take(k)) is Err,
    ensures
        output_extents(m, out) == output_extents(m, out.take(k)),
    decreases out.len() - k,
{
    if k < out.len() {
        assert(out.take(k + 1).drop_last() =~= out.take(k));
        lemma_output_extents_err(m, out, k + 1);
    } else {
        assert(out.take(k) =~= out);
    }
}

/// The pairs bound by the first `k` inputs lead the pairs bound by the first
/// `n`.
pub proof fn lemma_bound_pairs_prefix(inputs: Seq<Seq<u8>>, shapes: Seq<Seq<usize>>, k: nat, n: nat)
    requires
        k <= n,
    ensures
        bound_pairs(inputs, shapes, k).len() <= bound_pairs(inputs, shapes, n).len(),
        bound_pairs(inputs, shapes, n).take(bound_pairs(inputs, shapes, k).len() as int)
            == bound_pairs(inputs, shapes, k),
    decreases n - k,
{
    if k < n {
        lemma_bound_pairs_prefix(inputs, shapes, k, (n - 1) as nat);
        let a = bound_pairs(inputs, shapes, k);
        let b = bound_pairs(inputs, shapes, (n - 1) as nat);
        let c = bound_pairs(inputs, shapes, n);
        assert(c.take(b.len() as int) =~= b);
        assert(c.take(a.len() as int) =~= b.take(a.len() as int));
    } else {
        let a = bound_pairs(inputs, shapes, k);
        assert(a.take(a.len() as int) =~= a);
    }
}

/// A successful `index_codes` keeps the length.
pub proof fn lemma_index_codes_len(s: Seq<char>)
    ensures
        index_codes(s) matches Ok(v) ==> v.len() == s.len(),
    decreases s.len(),
{
    if s.len() > 0 {
        lemma_index_codes_len(s.drop_last());
    }
}

/// With no arrow before `i`, the first arrow from `0` is the first from `i`.
pub proof fn lemma_find_arrow_skip(s: Seq<char>, i: int)
    requires
        0 <= i,
        forall|j: int| 0 <= j < i ==> !is_arrow_at(s, j),
    ensures
        find_arrow(s, 0) == find_arrow(s, i),
    decreases i,
{
    if i > 0 {
        lemma_find_arrow_skip(s, i - 1);
        if i - 1 + 1 < s.len() {
            assert(!is_arrow_at(s, i - 1));
        }
    }
}

/// `split_commas` never yields an empty list of pieces.
pub proof fn lemma_split_commas_nonempty(s: Seq<char>)
    ensures
        split_commas(s).len() >= 1,
    decreases s.len(),
{
    if s.len() > 0 {
        lemma_split_commas_nonempty(s.drop_last());
    }
}

// ---------------------------------------------------------------------------
// Executable helpers
// ---------------------------------------------------------------------------

fn invalid_index_error(c: char) -> (m: String)
    ensures
        m@ == invalid_index_message(c),
{
    let mut m = "Invalid index '".to_owned();
    push_char(&mut m, c);
    push_str(&mut m, "': must be A-Z or a-z");
    m
}

fn unbound_output_error(b: u8) -> (m: String)
    ensures
        m@ == unbound_output_message(b),
{
    let mut m = "Output index '".to_owned();
    push_char(&mut m, b as char);
    push_str(&mut m, "' does not appear in any input tensor");
    m
}

/// Letter codes of `cs[lo..hi]`.
fn codes_in(cs: &Vec<char>, lo: usize, hi: usize) -> (r: Result<Vec<u8>, String>)
    requires
        lo <= hi <= cs.len(),
    ensures
        match index_codes(cs@.subrange(lo as int, hi as int)) {
            Ok(v) => r matches Ok(w) && w@ == v,
            Err(c) => r matches Err(m) && m@ == invalid_index_message(c),
        },
{
    let ghost s = cs@.subrange(lo as int, hi as int);
    let mut out: Vec<u8> = Vec::new();
    let mut i = lo;
    while i < hi
        invariant
            lo <= i <= hi <= cs.len(),
            s == cs@.subrange(lo as int, hi as int),
            index_codes(s.take(i - lo)) == Ok::<Seq<u8>, char>(out@),
        decreases hi - i,
    {
        let c = cs[i];
        assert(s.take(i - lo + 1).drop_last() =~= s.take(i - lo));
        assert(s.take(i - lo + 1).last() == c);
        if ascii_letter(c) {
            out.push(c as u8);
        } else {
            proof {
                lemma_index_codes_err(s, i - lo + 1);
            }
            return Err(invalid_index_error(c));
        }
        i = i + 1;
    }
    assert(s.take(hi - lo) =~= s);
    Ok(out)
}

/// `b` occurs in `v`.
pub(crate) fn contains_byte(v: &[u8], b: u8) -> (r: bool)
    ensures
        r == v@.contains(b),
{
    let mut i: usize = 0;
    while i < v.len()
        invariant
            i <= v.len(),
            forall|j: int| 0 <= j < i ==> v@[j] != b,
        decreases v.len() - i,
    {
        if v[i] == b {
            return true;
        }
        i = i + 1;
    }
    false
}

/// `b` names an axis of one of `inputs`.
fn occurs_in_inputs(inputs: &Vec<Vec<u8>>, b: u8) -> (r: bool)
    ensures
        r == occurs_in(inputs@.map_values(|v: Vec<u8>| v@), b),
{
    let ghost iv = inputs@.map_values(|v: Vec<u8>| v@);
    let mut k: usize = 0;
    while k < inputs.len()
        invariant
            k <= inputs.len(),
            iv == inputs@.map_values(|v: Vec<u8>| v@),
            forall|j: int| 0 <= j < k ==> !(#[trigger] iv[j]).contains(b),
        decreases inputs.len() - k,
    {
        if contains_byte(inputs[k].as_slice(), b) {
            assert(iv[k as int].contains(b));
            return true;
        }
        k = k + 1;
    }
    false
}

/// `b` names exactly one axis over all `inputs`.
fn named_once(inputs: &Vec<Vec<u8>>, b: u8) -> (r: bool)
    ensures
        r == (count_in(inputs@.map_values(|v: Vec<u8>| v@), b) == 1),
{
    let ghost iv = inputs@.map_values(|v: Vec<u8>| v@);
    let mut seen: u8 = 0;
    let mut k: usize = 0;
    while k < inputs.len()
        invariant
            k <= inputs.len(),
            iv == inputs@.map_values(|v: Vec<u8>| v@),
            seen as nat == if count_in(iv.take(k as int), b) < 2 {
                count_in(iv.take(k as int), b)
            } else {
                2
            },
        decreases inputs.len() - k,
    {
        let input = &inputs[k];
        let ghost base = count_in(iv.take(k as int), b);
        let mut j: usize = 0;
        while j < input.len()
            invariant
                j <= input.len(),
                input@ == iv[k as int],
                seen as nat == if base + count_of(input@.take(j as int), b) < 2 {
                    base + count_of(input@.take(j as int), b)
                } else {
                    2
                },
            decreases input.len() - j,
        {
            assert(input@.take(j + 1).drop_last() =~= input@.take(j as int));
            if input[j] == b && seen < 2 {
                seen = seen + 1;
            }
            j = j + 1;
        }
        assert(input@.take(j as int) =~= input@);
        assert(iv.take(k + 1).drop_last() =~= iv.take(k as int));
        k = k + 1;
    }
    assert(iv.take(k as int) =~= iv);
    seen == 1
}

/// Distinct indices of `inputs` outside `excluded`, in order of first
/// appearance.
fn first_occurrences_outside(inputs: &Vec<Vec<u8>>, excluded: &[u8]) -> (r: Vec<u8>)
    ensures
        r@ == first_occurrences(
            concat_all(inputs@.map_values(|v: Vec<u8>| v@)).filter(not_in(excluded@)),
        ),
{
    let ghost iv = inputs@.map_values(|v: Vec<u8>| v@);
    let ghost p = not_in(excluded@);
    let mut r: Vec<u8> = Vec::new();
    let mut k: usize = 0;
    assert(iv.take(0) =~= Seq::<Seq<u8>>::empty());
    assert(concat_all(iv.take(0)).filter(p) =~= Seq::<u8>::empty()) by {
        reveal(Seq::filter);
    }
    while k < inputs.len()
        invariant
            k <= inputs.len(),
            iv == inputs@.map_values(|v: Vec<u8>| v@),
            p == not_in(excluded@),
            r@ == first_occurrences(concat_all(iv.take(k as int)).filter(p)),
        decreases inputs.len() - k,
    {
        let input = &inputs[k];
        let ghost base = concat_all(iv.take(k as int));
        let mut j: usize = 0;
        assert(base + input@.take(0) =~= base);
        while j < input.len()
            invariant
                j <= input.len(),
                input@ == iv[k as int],
                p == not_in(excluded@),
                r@ == first_occurrences((base + input@.take(j as int)).filter(p)),
            decreases input.len() - j,
        {
            let x = input[j];
            let ghost before = base + input@.take(j as int);
            assert(base + input@.take(j + 1) =~= before.push(x));
            proof {
                before.lemma_filter_push(x, p);
                lemma_first_occurrences(before.filter(p));
            }
            if !contains_byte(excluded, x) && !contains_byte(r.as_slice(), x) {
                r.push(x);
            }
            assert(before.filter(p).push(x).drop_last() =~= before.filter(p));
            j = j + 1;
        }
        assert(input@.take(j as int) =~= input@);
        assert(iv.take(k + 1).drop_last() =~= iv.take(k as int));
        k = k + 1;
    }
    assert(iv.take(k as int) =~= iv);
    r
}

/// The implicit output of `inputs`: indices named exactly once, ascending.
fn infer_output(inputs: &Vec<Vec<u8>>) -> (out: Vec<u8>)
    ensures
        out@ == free_sorted(inputs@.map_values(|v: Vec<u8>| v@)),
{
    let ghost iv = inputs@.map_values(|v: Vec<u8>| v@);
    let mut out: Vec<u8> = Vec::new();
    let mut n: u16 = 0;
    while n < 256
        invariant
            n <= 256,
            iv == inputs@.map_values(|v: Vec<u8>| v@),
            out@ == bytes_below(n as nat).filter(named_once_in(iv)),
        decreases 256 - n,
    {
        let b = n as u8;
        assert(bytes_below((n + 1) as nat) =~= bytes_below(n as nat).push(b));
        proof {
            bytes_below(n as nat).lemma_filter_push(b, named_once_in(iv));
        }
        if named_once(inputs, b) {
            out.push(b);
        }
        n = n + 1;
    }
    out
}

/// A parsed Einstein-summation expression with any number of inputs; each
/// index is the ASCII code of its letter.
#[derive(Debug, Clone, PartialEq, Eq)]
pub struct EinsumExpr {
    /// Index list of each input tensor, in input order.
    pub inputs: Vec<Vec<u8>>,
    /// Index list of the output tensor.
    pub out_indices: Vec<u8>,
}

impl EinsumExpr {
    /// The input index lists as sequences.
    pub open spec fn inputs_view(&self) -> Seq<Seq<u8>> {
        self.inputs@.map_values(|v: Vec<u8>| v@)
    }

    /// The output index list as a sequence.
    pub open spec fn out_view(&self) -> Seq<u8> {
        self.out_indices@
    }

    /// The letter codes of `s`; the first character that is not an ASCII
    /// letter is an error.
    pub fn parse_indices(s: &str) -> (r: Result<Vec<u8>, String>)
        ensures
            match index_codes(s@) {
                Ok(v) => r matches Ok(w) && w@ == v,
                Err(c) => r matches Err(m) && m@ == invalid_index_message(c),
            },
    {
        let cs = chars_of(s);
        assert(cs@.subrange(0, cs@.len() as int) =~= s@);
        codes_in(&cs, 0, cs.len())
    }

    /// Parses `notation`. White space is ignored; the text before the first
    /// `->` lists the inputs, separated by commas, and the text after it the
    /// output. Without `->`, the output is every index named exactly once
    /// over the inputs, in ascending order. An index that is not an ASCII
    /// letter, or an output index that no input carries, is an error.
    pub fn parse(notation: &str) -> (r: Result<Self, String>)
        ensures
            match parse_notation(notation@) {
                Ok((inputs, out)) => r matches Ok(e) && e.inputs_view() == inputs && e.out_view()
                    == out,
                Err(m) => r matches Err(e) && e@ == m,
            },
    {
        let cs = chars_of(notation);
        // Drop white space.
        let mut s: Vec<char> = Vec::new();
        let mut i: usize = 0;
        while i < cs.len()
            invariant
                i <= cs.len(),
                cs@ == notation@,
                s@ == cs@.take(i as int).filter(not_white()),
            decreases cs.len() - i,
        {
            proof {
                lemma_filter_take_step(cs@, not_white(), i as int);
            }
            if !white_space(cs[i]) {
                s.push(cs[i]);
            }
            i = i + 1;
        }
        assert(cs@.take(cs@.len() as int) =~= cs@);
        let ghost st = s@;
        assert(st == strip_white(notation@));
        // Locate the first arrow.
        let mut arrow: Option<usize> = None;
        let mut i: usize = 0;
        while i < s.len() && i + 1 < s.len()
            invariant_except_break
                arrow is None,
            invariant
                s@ == st,
                forall|j: int| 0 <= j < i ==> !is_arrow_at(st, j),
            ensures
                forall|j: int| 0 <= j < i ==> !is_arrow_at(st, j),
                arrow matches Some(p) ==> p == i && is_arrow_at(st, i as int),
                arrow is None ==> i + 1 >= st.len(),
            decreases s.len() - i,
        {
            if s[i] == '-' && s[i + 1] == '>' {
                arrow = Some(i);
                break;
            }
            i = i + 1;
        }
        proof {
            lemma_find_arrow_skip(st, i as int);
        }
        assert(match arrow {
            Some(p) => find_arrow(st, 0) == Some(p as int) && p + 2 <= st.len(),
            None => find_arrow(st, 0) is None,
        });
        let ins_end: usize = match arrow {
            Some(p) => p,
            None => s.len(),
        };
        let ghost ins = st.take(ins_end as int);
        assert(ins == match find_arrow(st, 0) {
            Some(p) => st.take(p),
            None => st,
        }) by {
            if arrow is None {
                assert(st.take(st.len() as int) =~= st);
            }
        }
        // Parse the inputs, one comma-separated piece at a time.
        let mut inputs: Vec<Vec<u8>> = Vec::new();
        let ghost mut pieces: Seq<Seq<char>> = Seq::empty();
        let mut start: usize = 0;
        let mut i: usize = 0;
        assert(ins.take(0) =~= Seq::<char>::empty());
        assert(split_commas(ins.take(0)) =~~= pieces.push(st.subrange(0, 0)));
        assert(inputs@.map_values(|v: Vec<u8>| v@) =~= Seq::<Seq<u8>>::empty());
        while i < ins_end
            invariant
                s@ == st,
                st == strip_white(notation@),
                ins == match find_arrow(st, 0) {
                    Some(p) => st.take(p),
                    None => st,
                },
                ins_end <= st.len(),
                ins == st.take(ins_end as int),
                start <= i <= ins_end,
                split_commas(ins.take(i as int)) == pieces.push(st.subrange(start as int, i as int)),
                parts_codes(pieces) == Ok::<Seq<Seq<u8>>, char>(
                    inputs@.map_values(|v: Vec<u8>| v@),
                ),
            decreases ins_end - i,
        {
            assert(ins.take(i + 1).drop_last() =~= ins.take(i as int));
            if s[i] == ',' {
                proof {
                    lemma_split_commas_prefix(ins, i + 1);
                    lemma_split_commas_nonempty(ins);
                }
                let piece = codes_in(&s, start, i);
                let ghost done = pieces.push(st.subrange(start as int, i as int));
                assert(split_commas(ins.take(i + 1)) == done.push(Seq::<char>::empty()));
                assert(split_commas(ins.take(i + 1)).drop_last() =~= done);
                match piece {
                    Ok(w) => {
                        proof {
                            assert(done.drop_last() =~= pieces);
                        }
                        let ghost before = inputs@.map_values(|v: Vec<u8>| v@);
                        let ghost wv = w@;
                        inputs.push(w);
                        proof {
                            pieces = done;
                            assert(inputs@.map_values(|v: Vec<u8>| v@) =~= before.push(wv));
                        }
                        start = i + 1;
                        assert(st.subrange(start as int, i + 1) =~= Seq::<char>::empty());
                    },
                    Err(m) => {
                        proof {
                            assert(done.drop_last() =~= pieces);
                            assert(done.last() == st.subrange(start as int, i as int));
                            assert(split_commas(ins).take(done.len() as int) == done);
                            assert(parts_codes(done) is Err);
                            lemma_parts_codes_err(split_commas(ins), done.len() as int);
                            let c = index_codes(st.subrange(start as int, i as int))->Err_0;
                            assert(parts_codes(done) == Err::<Seq<Seq<u8>>, char>(c));
                            assert(parts_codes(split_commas(ins)) == Err::<Seq<Seq<u8>>, char>(c));
                            assert(m@ == invalid_index_message(c));
                        }
                        return Err(m);
                    },
                }
            } else {
                assert(st.subrange(start as int, i + 1) =~= st.subrange(start as int, i as int).push(
                    s[i as int],
                ));
                assert(split_commas(ins.take(i + 1)) =~= pieces.push(
                    st.subrange(start as int, i + 1),
                ));
            }
            i = i + 1;
        }
        assert(ins.take(ins_end as int) =~= ins);
        let last = codes_in(&s, start, ins_end);
        let ghost all = pieces.push(st.subrange(start as int, ins_end as int));
        assert(all == split_commas(ins));
        assert(all.drop_last() =~= pieces);
        assert(all.last() == st.subrange(start as int, ins_end as int));
        match last {
            Ok(w) => {
                let ghost before = inputs@.map_values(|v: Vec<u8>| v@);
                let ghost wv = w@;
                inputs.push(w);
                assert(inputs@.map_values(|v: Vec<u8>| v@) =~= before.push(wv));
            },
            Err(m) => {
                return Err(m);
            },
        }
        assert(parts_codes(split_commas(ins)) == Ok::<Seq<Seq<u8>>, char>(
            inputs@.map_values(|v: Vec<u8>| v@),
        ));
        // The output.
        let out_indices = match arrow {
            Some(p) => {
                assert(st.skip(p + 2) =~= st.subrange(p + 2, st.len() as int));
                match codes_in(&s, p + 2, s.len()) {
                    Ok(w) => w,
                    Err(m) => {
                        return Err(m);
                    },
                }
            },
            None => infer_output(&inputs),
        };
        let expr = EinsumExpr { inputs, out_indices };
        match expr.validate() {
            Ok(()) => Ok(expr),
            Err(m) => Err(m),
        }
    }

    /// The index lists of the inputs.
    pub fn inputs(&self) -> (r: &[Vec<u8>])
        ensures
            r@ == self.inputs@,
    {
        self.inputs.as_slice()
    }

    /// The output index list.
    pub fn out_indices(&self) -> (r: &[u8])
        ensures
            r@ == self.out_view(),
    {
        self.out_indices.as_slice()
    }

    /// Number of input tensors.
    pub fn num_inputs(&self) -> (r: usize)
        ensures
            r == self.inputs_view().len(),
    {
        self.inputs.len()
    }

    /// Index list of the first input.
    pub fn lhs_indices(&self) -> (r: &[u8])
        requires
            self.inputs@.len() >= 1,
        ensures
            r@ == self.inputs_view()[0],
    {
        self.inputs[0].as_slice()
    }

    /// Index list of the second input.
    pub fn rhs_indices(&self) -> (r: &[u8])
        requires
            self.inputs@.len() >= 2,
        ensures
            r@ == self.inputs_view()[1],
    {
        self.inputs[1].as_slice()
    }

    /// Every index that an input or the output names.
    pub fn all_indices(&self) -> (r: HashSet<u8>)
        ensures
            r@ == Set::new(
                |b: u8| occurs_in(self.inputs_view(), b) || self.out_view().contains(b),
            ),
    {
        broadcast use vstd::std_specs::hash::group_hash_axioms;

        let ghost iv = self.inputs_view();
        let mut set: HashSet<u8> = HashSet::new();
        let mut k: usize = 0;
        while k < self.inputs.len()
            invariant
                k <= self.inputs.len(),
                iv == self.inputs_view(),
                forall|b: u8|
                    set@.contains(b) <==> exists|kk: int|
                        0 <= kk < k && #[trigger] iv[kk].contains(b),
            decreases self.inputs.len() - k,
        {
            let input = &self.inputs[k];
            let mut j: usize = 0;
            while j < input.len()
                invariant
                    j <= input.len(),
                    input@ == iv[k as int],
                    forall|b: u8|
                        set@.contains(b) <==> (exists|kk: int|
                            0 <= kk < k && #[trigger] iv[kk].contains(b)) || input@.take(
                            j as int,
                        ).contains(b),
                decreases input.len() - j,
            {
                let x = input[j];
                set.insert(x);
                assert forall|b: u8|
                    set@.contains(b) <==> (exists|kk: int|
                        0 <= kk < k && #[trigger] iv[kk].contains(b)) || input@.take(
                        j + 1,
                    ).contains(b) by {
                    let pre = input@.take(j as int);
                    let nxt = input@.take(j + 1);
                    assert(nxt =~= pre.push(x));
                    if pre.contains(b) {
                        let t = choose|t: int| 0 <= t < pre.len() && pre[t] == b;
                        assert(nxt[t] == b);
                    }
                    if nxt.contains(b) && b != x {
                        let t = choose|t: int| 0 <= t < nxt.len() && nxt[t] == b;
                        assert(pre[t] == b);
                    }
                    if b == x {
                        assert(nxt[j as int] == b);
                    }
                }
                j = j + 1;
            }
            assert forall|b: u8|
                set@.contains(b) <==> exists|kk: int|
                    0 <= kk < k + 1 && #[trigger] iv[kk].contains(b) by {
                assert(input@.take(j as int) =~= input@);
                if set@.contains(b) && !(exists|kk: int|
                    0 <= kk < k && #[trigger] iv[kk].contains(b)) {
                    assert(iv[k as int].contains(b));
                }
            }
            k = k + 1;
        }
        let mut j: usize = 0;
        while j < self.out_indices.len()
            invariant
                j <= self.out_indices.len(),
                iv == self.inputs_view(),
                forall|b: u8|
                    #[trigger] set@.contains(b) <==> occurs_in(iv, b) || self.out_view().take(
                        j as int,
                    ).contains(b),
            decreases self.out_indices.len() - j,
        {
            let x = self.out_indices[j];
            set.insert(x);
            assert forall|b: u8|
                set@.contains(b) <==> occurs_in(iv, b) || self.out_view().take(j + 1).contains(
                    b,
                ) by {
                let pre = self.out_view().take(j as int);
                let nxt = self.out_view().take(j + 1);
                assert(nxt =~= pre.push(x));
                if pre.contains(b) {
                    let t = choose|t: int| 0 <= t < pre.len() && pre[t] == b;
                    assert(nxt[t] == b);
                }
                if nxt.contains(b) && b != x {
                    let t = choose|t: int| 0 <= t < nxt.len() && nxt[t] == b;
                    assert(pre[t] == b);
                }
                if b == x {
                    assert(nxt[j as int] == b);
                }
            }
            j = j + 1;
        }
        assert(self.out_view().take(j as int) =~= self.out_view());
        assert(set@ =~= Set::new(
            |b: u8| occurs_in(self.inputs_view(), b) || self.out_view().contains(b),
        ));
        set
    }

    /// The contracted indices: carried by an input and absent from the
    /// output, in order of first appearance across the inputs.
    pub fn contracted_indices(&self) -> (r: Vec<u8>)
        ensures
            r@ == contracted_of(self.inputs_view(), self.out_view()),
    {
        first_occurrences_outside(&self.inputs, self.out_indices.as_slice())
    }

    /// Whether the expression is a plain matrix product (see
    /// [`is_matmul_pattern`]).
    pub fn is_matrix_multiply(&self) -> (r: bool)
        ensures
            r == is_matmul_pattern(self.inputs_view(), self.out_view()),
    {
        if self.inputs.len() != 2 {
            return false;
        }
        let none: Vec<u8> = Vec::new();
        let distinct = first_occurrences_outside(&self.inputs, none.as_slice());
        proof {
            lemma_filter_all(concat_all(self.inputs_view()), not_in(none@));
        }
        if distinct.len() != 3 {
            return false;
        }
        if self.inputs[0].len() != 2 || self.inputs[1].len() != 2 {
            return false;
        }
        if self.out_indices.len() != 2 {
            return false;
        }
        self.contracted_indices().len() == 1
    }

    /// The output shape for the given input shapes: each output index takes
    /// the extent its inputs give it. Errors, in this order of precedence: a
    /// shape count other than the input count; the first input whose rank
    /// differs from its index count; the first index, in input order, bound
    /// to two different extents; the first output index with no extent.
    pub fn infer_output_shape(&self, shapes: &[&[usize]]) -> (r: Result<Vec<usize>, String>)
        ensures
            match output_shape_of(
                self.inputs_view(),
                self.out_view(),
                shapes@.map_values(|s: &[usize]| s@),
            ) {
                Ok(v) => r matches Ok(w) && w@ == v,
                Err(m) => r matches Err(e) && e@ == m,
            },
    {
        let ghost iv = self.inputs_view();
        let ghost sv = shapes@.map_values(|s: &[usize]| s@);
        let n = self.inputs.len();
        if shapes.len() != n {
            let mut m = "Expected ".to_owned();
            push_usize(&mut m, n);
            push_str(&mut m, " input shapes, got ");
            push_usize(&mut m, shapes.len());
            return Err(m);
        }
        // Ranks.
        let mut i: usize = 0;
        while i < n
            invariant
                i <= n,
                n == self.inputs.len(),
                n == shapes.len(),
                iv == self.inputs_view(),
                sv == shapes@.map_values(|s: &[usize]| s@),
                first_rank_mismatch(iv, sv, i as nat) is None,
                forall|kk: int| 0 <= kk < i ==> (#[trigger] iv[kk]).len() == sv[kk].len(),
            decreases n - i,
        {
            if self.inputs[i].len() != shapes[i].len() {
                let mut m = "Input ".to_owned();
                push_usize(&mut m, i);
                push_str(&mut m, " shape rank ");
                push_usize(&mut m, shapes[i].len());
                push_str(&mut m, " does not match index count ");
                push_usize(&mut m, self.inputs[i].len());
                proof {
                    lemma_rank_mismatch_prefix(iv, sv, (i + 1) as nat, n as nat);
                }
                return Err(m);
            }
            i = i + 1;
        }
        // Extents of the indices.
        let mut bound: Vec<bool> = Vec::new();
        let mut dims: Vec<usize> = Vec::new();
        let mut t: usize = 0;
        while t < 256
            invariant
                t <= 256,
                bound.len() == t,
                dims.len() == t,
                forall|q: int| 0 <= q < t ==> !(#[trigger] bound@[q]),
            decreases 256 - t,
        {
            bound.push(false);
            dims.push(0);
            t = t + 1;
        }
        let ghost mut m: Map<u8, usize> = Map::empty();
        let ghost full = bound_pairs(iv, sv, n as nat);
        let mut k: usize = 0;
        while k < n
            invariant
                k <= n,
                n == self.inputs.len(),
                n == shapes.len(),
                iv == self.inputs_view(),
                sv == shapes@.map_values(|s: &[usize]| s@),
                full == bound_pairs(iv, sv, n as nat),
                first_rank_mismatch(iv, sv, n as nat) is None,
                forall|kk: int| 0 <= kk < n ==> (#[trigger] iv[kk]).len() == sv[kk].len(),
                bind_extents(bound_pairs(iv, sv, k as nat)) == Ok::<
                    Map<u8, usize>,
                    (u8, usize, usize),
                >(m),
                bound.len() == 256,
                dims.len() == 256,
                forall|b: u8| #[trigger] bound@[b as int] == m.contains_key(b),
                forall|b: u8| m.contains_key(b) ==> dims@[b as int] == #[trigger] m[b],
            decreases n - k,
        {
            let input = &self.inputs[k];
            let shape = shapes[k];
            let ghost base = bound_pairs(iv, sv, k as nat);
            let ghost zk = Seq::new(iv[k as int].len(), |q: int| (iv[k as int][q], sv[k as int][q]));
            assert(bound_pairs(iv, sv, (k + 1) as nat) == base + zk);
            proof {
                lemma_bound_pairs_prefix(iv, sv, (k + 1) as nat, n as nat);
            }
            let mut j: usize = 0;
            assert(base + zk.take(0) =~= base);
            while j < input.len()
                invariant
                    j <= input.len(),
                    input@ == iv[k as int],
                    shape@ == sv[k as int],
                    input@.len() == shape@.len(),
                    zk == Seq::new(iv[k as int].len(), |q: int| (iv[k as int][q], sv[k as int][q])),
                    full.take((base + zk).len() as int) == base + zk,
                    (base + zk).len() <= full.len(),
                    n == self.inputs.len(),
                    n == shapes.len(),
                    iv == self.inputs_view(),
                    sv == shapes@.map_values(|s: &[usize]| s@),
                    full == bound_pairs(iv, sv, n as nat),
                    first_rank_mismatch(iv, sv, n as nat) is None,
                    bind_extents(base + zk.take(j as int)) == Ok::<
                        Map<u8, usize>,
                        (u8, usize, usize),
                    >(m),
                    bound.len() == 256,
                    dims.len() == 256,
                    forall|b: u8| #[trigger] bound@[b as int] == m.contains_key(b),
                    forall|b: u8| m.contains_key(b) ==> dims@[b as int] == #[trigger] m[b],
                decreases input.len() - j,
            {
                let b = input[j];
                let d = shape[j];
                let ghost before = base + zk.take(j as int);
                assert(base + zk.take(j + 1) =~= before.push((b, d)));
                assert((base + zk.take(j + 1)).drop_last() =~= before);
                if bound[b as usize] {
                    if dims[b as usize] != d {
                        let mut msg = "Dimension mismatch for index '".to_owned();
                        push_char(&mut msg, b as char);
                        push_str(&mut msg, "': found ");
                        push_usize(&mut msg, dims[b as usize]);
                        push_str(&mut msg, " and ");
                        push_usize(&mut msg, d);
                        proof {
                            let pre = base + zk.take(j + 1);
                            let whole = base + zk;
                            assert(whole.take(pre.len() as int) =~= pre);
                            assert(full.take(pre.len() as int) =~= full.take(
                                whole.len() as int,
                            ).take(pre.len() as int));
                            assert(full.take(pre.len() as int) =~= pre);
                            lemma_bind_extents_err(full, pre.len() as int);
                        }
                        return Err(msg);
                    }
                } else {
                    bound.set(b as usize, true);
                    dims.set(b as usize, d);
                    proof {
                        m = m.insert(b, d);
                    }
                }
                j = j + 1;
            }
            assert(zk.take(j as int) =~= zk);
            k = k + 1;
        }
        // The output extents.
        let mut out: Vec<usize> = Vec::new();
        let mut q: usize = 0;
        assert(full == bound_pairs(iv, sv, n as nat));
        while q < self.out_indices.len()
            invariant
                q <= self.out_indices.len(),
                n == self.inputs.len(),
                n == shapes.len(),
                iv == self.inputs_view(),
                sv == shapes@.map_values(|s: &[usize]| s@),
                full == bound_pairs(iv, sv, n as nat),
                first_rank_mismatch(iv, sv, n as nat) is None,
                bind_extents(full) == Ok::<Map<u8, usize>, (u8, usize, usize)>(m),
                bound.len() == 256,
                dims.len() == 256,
                forall|b: u8| #[trigger] bound@[b as int] == m.contains_key(b),
                forall|b: u8| m.contains_key(b) ==> dims@[b as int] == #[trigger] m[b],
                output_extents(m, self.out_view().take(q as int)) == Ok::<Seq<usize>, u8>(out@),
            decreases self.out_indices.len() - q,
        {
            let b = self.out_indices[q];
            assert(self.out_view().take(q + 1).drop_last() =~= self.out_view().take(q as int));
            if !bound[b as usize] {
                let mut msg = "Output index '".to_owned();
                push_char(&mut msg, b as char);
                push_str(&mut msg, "' not found in input tensors");
                proof {
                    lemma_output_extents_err(m, self.out_view(), q + 1);
                }
                return Err(msg);
            }
            out.push(dims[b as usize]);
            q = q + 1;
        }
        assert(self.out_view().take(q as int) =~= self.out_view());
        Ok(out)
    }

    /// Checks that every output index is carried by some input; the error
    /// names the first one that is not.
    pub fn validate(&self) -> (r: Result<(), String>)
        ensures
            match first_unbound(self.inputs_view(), self.out_view()) {
                None => r is Ok,
                Some(b) => r matches Err(m) && m@ == unbound_output_message(b),
            },
    {
        let mut i: usize = 0;
        while i < self.out_indices.len()
            invariant
                i <= self.out_indices.len(),
                first_unbound(self.inputs_view(), self.out_view().take(i as int)) is None,
            decreases self.out_indices.len() - i,
        {
            let b = self.out_indices[i];
            assert(self.out_view().take(i + 1).drop_last() =~= self.out_view().take(i as int));
            if !occurs_in_inputs(&self.inputs, b) {
                proof {
                    lemma_first_unbound_prefix(self.inputs_view(), self.out_view(), i + 1);
                }
                return Err(unbound_output_error(b));
            }
            i = i + 1;
        }
        assert(self.out_view().take(i as int) =~= self.out_view());
        Ok(())
    }
}

} // verus!

verus! {

// ---------------------------------------------------------------------------
// Permutations
// ---------------------------------------------------------------------------

/// For each entry of `target`, the position of its first occurrence in
/// `current`.
pub open spec fn positions_in(current: Seq<u8>, target: Seq<u8>) -> Seq<int> {
    Seq::new(target.len(), |i: int| first_pos(current, target[i]))
}

/// What `compute_permutation` gives: `None` when every entry of `target`
/// first occurs at its own position of `current`, otherwise those
/// positions.
pub open spec fn permutation_of(current: Seq<u8>, target: Seq<u8>) -> Option<Seq<int>> {
    let p = positions_in(current, target);
    if forall|i: int| 0 <= i < p.len() ==> #[trigger] p[i] == i {
        None
    } else {
        Some(p)
    }
}

/// A permutation result as a sequence of integers.
pub open spec fn perm_view(r: Option<Vec<usize>>) -> Option<Seq<int>> {
    match r {
        None => None,
        Some(v) => Some(v@.map_values(|x: usize| x as int)),
    }
}

/// Position of the first occurrence of `x` in `v`, which holds it.
pub(crate) fn position_of(v: &[u8], x: u8) -> (r: usize)
    requires
        v@.contains(x),
    ensures
        r as int == first_pos(v@, x),
{
    proof {
        lemma_first_pos(v@, x);
    }
    let ghost fp = first_pos(v@, x);
    let mut i: usize = 0;
    while i < v.len()
        invariant
            i <= v.len(),
            0 <= fp < v@.len(),
            v@[fp] == x,
            forall|j: int| 0 <= j < fp ==> v@[j] != x,
            fp == first_pos(v@, x),
            i <= fp,
        decreases v.len() - i,
    {
        if v[i] == x {
            return i;
        }
        i = i + 1;
    }
    0
}

/// The permutation taking `current` to `target`: entry `i` is where
/// `target[i]` first occurs in `current`. `None` when that is the identity.
/// Every entry of `target` must occur in `current`, and the two must have
/// the same length.
pub fn compute_permutation(current: &[u8], target: &[u8]) -> (r: Option<Vec<usize>>)
    requires
        current@.len() == target@.len(),
        forall|i: int| 0 <= i < target@.len() ==> current@.contains(#[trigger] target@[i]),
    ensures
        perm_view(r) == permutation_of(current@, target@),
        r matches Some(p) ==> p@.len() == target@.len() && forall|i: int|
            0 <= i < target@.len() ==> current@[#[trigger] p@[i] as int] == target@[i],
        r is None ==> current@ == target@,
{
    let mut perm: Vec<usize> = Vec::new();
    let mut identity = true;
    let mut i: usize = 0;
    while i < target.len()
        invariant
            i <= target.len(),
            current@.len() == target@.len(),
            forall|t: int| 0 <= t < target@.len() ==> current@.contains(#[trigger] target@[t]),
            perm@.len() == i,
            forall|t: int|
                0 <= t < i ==> #[trigger] perm@[t] as int == first_pos(current@, target@[t]),
            forall|t: int|
                0 <= t < i ==> current@[#[trigger] perm@[t] as int] == target@[t],
            identity == forall|t: int| 0 <= t < i ==> #[trigger] perm@[t] == t,
        decreases target.len() - i,
    {
        let p = position_of(current, target[i]);
        proof {
            lemma_first_pos(current@, target@[i as int]);
        }
        let ghost was = identity;
        let ghost before = perm@;
        if p != i {
            identity = false;
        }
        perm.push(p);
        assert(perm@ == before.push(p));
        assert(identity == forall|t: int| 0 <= t < i + 1 ==> #[trigger] perm@[t] == t) by {
            if was && p == i {
                assert forall|t: int| 0 <= t < i + 1 implies #[trigger] perm@[t] == t by {
                    if t < i {
                        assert(before[t] == t);
                    }
                }
            }
            if !was {
                let w = choose|t: int| 0 <= t < i && !(#[trigger] before[t] == t);
                assert(perm@[w] == before[w]);
            }
            if p != i {
                assert(!(perm@[i as int] == i));
            }
        }
        i = i + 1;
    }
    let ghost pos = positions_in(current@, target@);
    assert(perm@.map_values(|x: usize| x as int) =~= pos);
    if identity {
        assert(forall|t: int| 0 <= t < pos.len() ==> #[trigger] pos[t] == t);
        proof {
            law_permutation_reaches_target(current@, target@);
        }
        None
    } else {
        proof {
            let w = choose|t: int| 0 <= t < i && !(#[trigger] perm@[t] == t);
            assert(pos[w] == perm@[w] as int);
        }
        assert(!forall|t: int| 0 <= t < pos.len() ==> #[trigger] pos[t] == t);
        Some(perm)
    }
}

/// Applying the permutation to `current` gives `target`: with `None`,
/// `current` already is `target`; with `Some(p)`, entry `i` of `target` is
/// the entry of `current` at `p[i]`, and `p` moves at least one axis.
pub proof fn law_permutation_reaches_target(current: Seq<u8>, target: Seq<u8>)
    requires
        current.len() == target.len(),
        forall|i: int| 0 <= i < target.len() ==> current.contains(#[trigger] target[i]),
    ensures
        match permutation_of(current, target) {
            None => current == target,
            Some(p) => {
                &&& p.len() == target.len()
                &&& forall|i: int| 0 <= i < p.len() ==> 0 <= #[trigger] p[i] < current.len() && current[p[i]] == target[i]
                &&& exists|i: int| 0 <= i < p.len() && #[trigger] p[i] != i
            },
        },
{
    let p = positions_in(current, target);
    assert forall|i: int| 0 <= i < p.len() implies 0 <= #[trigger] p[i] < current.len() && current[p[i]]
        == target[i] by {
        lemma_first_pos(current, target[i]);
    }
    if forall|i: int| 0 <= i < p.len() ==> #[trigger] p[i] == i {
        assert forall|i: int| 0 <= i < current.len() implies current[i] == target[i] by {
            assert(p[i] == i);
        }
        assert(current =~= target);
        assert(permutation_of(current, target) is None);
    } else {
        let w = choose|i: int| 0 <= i < p.len() && !(#[trigger] p[i] == i);
        assert(p[w] != w);
        assert(permutation_of(current, target) == Some(p));
        assert(exists|i: int| 0 <= i < p.len() && #[trigger] p[i] != i);
    }
}

// ---------------------------------------------------------------------------
// The two-operand contraction plan
// ---------------------------------------------------------------------------

/// The indices of `src` that `member_pred(a, b, want)` keeps, in order.
pub(crate) fn filter_members(src: &[u8], a: &[u8], b: &[u8], want: bool) -> (r: Vec<u8>)
    ensures
        r@ == src@.filter(member_pred(a@, b@, want)),
{
    let ghost p = member_pred(a@, b@, want);
    let mut r: Vec<u8> = Vec::new();
    let mut i: usize = 0;
    assert(src@.take(0).filter(p) =~= Seq::<u8>::empty()) by {
        reveal(Seq::filter);
    }
    while i < src.len()
        invariant
            i <= src.len(),
            p == member_pred(a@, b@, want),
            r@ == src@.take(i as int).filter(p),
        decreases src.len() - i,
    {
        proof {
            lemma_filter_take_step(src@, p, i as int);
        }
        let x = src[i];
        if contains_byte(a, x) && contains_byte(b, x) == want {
            r.push(x);
        }
        i = i + 1;
    }
    assert(src@.take(i as int) =~= src@);
    r
}

/// `prefix` followed by the contracted indices of `rhs` that `prefix` does
/// not already hold, each once, in `rhs` order.
pub open spec fn append_contracted(prefix: Seq<u8>, contracted: Seq<u8>, rhs: Seq<u8>) -> Seq<u8> {
    prefix + first_occurrences(rhs.filter(member_pred(contracted, prefix, false)))
}

/// Appends to `target` the contracted indices of `rhs` it does not hold yet.
fn extend_with_contracted(target: &mut Vec<u8>, contracted: &[u8], rhs: &[u8])
    ensures
        final(target)@ == append_contracted(old(target)@, contracted@, rhs@),
{
    let ghost prefix = target@;
    let ghost p = member_pred(contracted@, prefix, false);
    let mut j: usize = 0;
    assert(rhs@.take(0).filter(p) =~= Seq::<u8>::empty()) by {
        reveal(Seq::filter);
    }
    assert(prefix + first_occurrences(Seq::<u8>::empty()) =~= prefix);
    while j < rhs.len()
        invariant
            j <= rhs.len(),
            p == member_pred(contracted@, prefix, false),
            target@ == prefix + first_occurrences(rhs@.take(j as int).filter(p)),
        decreases rhs.len() - j,
    {
        let x = rhs[j];
        let ghost f = rhs@.take(j as int).filter(p);
        proof {
            lemma_filter_take_step(rhs@, p, j as int);
            lemma_first_occurrences(f);
            assert(f.push(x).drop_last() =~= f);
        }
        if contains_byte(contracted, x) && !contains_byte(target.as_slice(), x) {
            assert(!prefix.contains(x)) by {
                if prefix.contains(x) {
                    let t = choose|t: int| 0 <= t < prefix.len() && prefix[t] == x;
                    assert(target@[t] == x);
                }
            }
            assert(!first_occurrences(f).contains(x)) by {
                if first_occurrences(f).contains(x) {
                    let t = choose|t: int|
                        0 <= t < first_occurrences(f).len() && first_occurrences(f)[t] == x;
                    assert(target@[prefix.len() + t] == x);
                }
            }
            target.push(x);
            assert(target@ =~= prefix + first_occurrences(f).push(x));
        } else {
            assert(p(x) ==> first_occurrences(f).contains(x)) by {
                if p(x) {
                    assert(target@.contains(x));
                    let t = choose|t: int| 0 <= t < target@.len() && target@[t] == x;
                    if t < prefix.len() {
                        assert(prefix[t] == x);
                    } else {
                        assert(first_occurrences(f)[t - prefix.len()] == x);
                    }
                }
            }
        }
        j = j + 1;
    }
    assert(rhs@.take(j as int) =~= rhs@);
}

/// Batch, contracted and free indices of a two-input contraction.
///
/// - `batch`: in both inputs and in the output, in output order;
/// - `contracted`: in both inputs and not in the output, in first-input
///   order;
/// - `free_lhs`: in the output and the first input only, in output order;
/// - `free_rhs`: in the output and the second input only, in output order.
#[derive(Debug, Clone, PartialEq, Eq)]
pub struct ContractionPlan {
    /// Indices kept in the output and shared by both inputs.
    pub batch: Vec<u8>,
    /// Indices summed over.
    pub contracted: Vec<u8>,
    /// Output indices carried by the first input alone.
    pub free_lhs: Vec<u8>,
    /// Output indices carried by the second input alone.
    pub free_rhs: Vec<u8>,
}

impl ContractionPlan {
    /// The index order the first input is permuted to:
    /// `[batch, free_lhs, contracted (second-input order)]`.
    pub open spec fn lhs_target(&self, rhs: Seq<u8>) -> Seq<u8> {
        append_contracted(self.batch@ + self.free_lhs@, self.contracted@, rhs)
    }

    /// The index order the second input is permuted to:
    /// `[batch, contracted (second-input order), free_rhs]`.
    pub open spec fn rhs_target(&self, rhs: Seq<u8>) -> Seq<u8> {
        append_contracted(self.batch@, self.contracted@, rhs) + self.free_rhs@
    }

    /// The plan of a two-input expression (its first two inputs).
    pub fn from_expr(expr: &EinsumExpr) -> (r: Self)
        requires
            expr.inputs@.len() >= 2,
        ensures
            ({
                let l = expr.inputs_view()[0];
                let rr = expr.inputs_view()[1];
                let o = expr.out_view();
                &&& r.contracted@ == l.filter(member_pred(rr, o, false))
                &&& r.batch@ == o.filter(member_pred(l, rr, true))
                &&& r.free_lhs@ == o.filter(member_pred(l, rr, false))
                &&& r.free_rhs@ == o.filter(member_pred(rr, l, false))
            }),
    {
        let lhs = expr.lhs_indices();
        let rhs = expr.rhs_indices();
        let out = expr.out_indices();
        let contracted = filter_members(lhs, rhs, out, false);
        let batch = filter_members(out, lhs, rhs, true);
        let free_lhs = filter_members(out, lhs, rhs, false);
        let free_rhs = filter_members(out, rhs, lhs, false);
        ContractionPlan { batch, contracted, free_lhs, free_rhs }
    }

    /// Permutation of the first input to [`Self::lhs_target`]; `None` when
    /// it is the identity. Each target index must occur in `lhs_indices`,
    /// and the target must have its length.
    pub fn lhs_permutation(&self, lhs_indices: &[u8], rhs_indices: &[u8]) -> (r: Option<Vec<usize>>)
        requires
            self.lhs_target(rhs_indices@).len() == lhs_indices@.len(),
            forall|i: int|
                0 <= i < lhs_indices@.len() ==> lhs_indices@.contains(
                    #[trigger] self.lhs_target(rhs_indices@)[i],
                ),
        ensures
            perm_view(r) == permutation_of(lhs_indices@, self.lhs_target(rhs_indices@)),
    {
        let mut target: Vec<u8> = Vec::new();
        let mut i: usize = 0;
        while i < self.batch.len()
            invariant
                i <= self.batch.len(),
                target@ == self.batch@.take(i as int),
            decreases self.batch.len() - i,
        {
            target.push(self.batch[i]);
            assert(self.batch@.take(i + 1) =~= self.batch@.take(i as int).push(self.batch@[i as int]));
            i = i + 1;
        }
        let mut i: usize = 0;
        while i < self.free_lhs.len()
            invariant
                i <= self.free_lhs.len(),
                target@ == self.batch@ + self.free_lhs@.take(i as int),
            decreases self.free_lhs.len() - i,
        {
            target.push(self.free_lhs[i]);
            assert(self.free_lhs@.take(i + 1) =~= self.free_lhs@.take(i as int).push(
                self.free_lhs@[i as int],
            ));
            i = i + 1;
        }
        assert(self.batch@.take(self.batch@.len() as int) =~= self.batch@);
        assert(self.free_lhs@.take(self.free_lhs@.len() as int) =~= self.free_lhs@);
        extend_with_contracted(&mut target, self.contracted.as_slice(), rhs_indices);
        compute_permutation(lhs_indices, target.as_slice())
    }

    /// Permutation of the second input to [`Self::rhs_target`]; `None` when
    /// it is the identity. Each target index must occur in `rhs_indices`,
    /// and the target must have its length.
    pub fn rhs_permutation(&self, rhs_indices: &[u8]) -> (r: Option<Vec<usize>>)
        requires
            self.rhs_target(rhs_indices@).len() == rhs_indices@.len(),
            forall|i: int|
                0 <= i < rhs_indices@.len() ==> rhs_indices@.contains(
                    #[trigger] self.rhs_target(rhs_indices@)[i],
                ),
        ensures
            perm_view(r) == permutation_of(rhs_indices@, self.rhs_target(rhs_indices@)),
    {
        let mut target: Vec<u8> = Vec::new();
        let mut i: usize = 0;
        while i < self.batch.len()
            invariant
                i <= self.batch.len(),
                target@ == self.batch@.take(i as int),
            decreases self.batch.len() - i,
        {
            target.push(self.batch[i]);
            assert(self.batch@.take(i + 1) =~= self.batch@.take(i as int).push(self.batch@[i as int]));
            i = i + 1;
        }
        assert(self.batch@.take(self.batch@.len() as int) =~= self.batch@);
        extend_with_contracted(&mut target, self.contracted.as_slice(), rhs_indices);
        let ghost head = target@;
        let mut i: usize = 0;
        while i < self.free_rhs.len()
            invariant
                i <= self.free_rhs.len(),
                target@ == head + self.free_rhs@.take(i as int),
            decreases self.free_rhs.len() - i,
        {
            target.push(self.free_rhs[i]);
            assert(self.free_rhs@.take(i + 1) =~= self.free_rhs@.take(i as int).push(
                self.free_rhs@[i as int],
            ));
            i = i + 1;
        }
        assert(self.free_rhs@.take(self.free_rhs@.len() as int) =~= self.free_rhs@);
        compute_permutation(rhs_indices, target.as_slice())
    }
}

} // verus!
