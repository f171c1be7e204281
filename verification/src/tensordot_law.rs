//! The notation that [`tensordot_notation`](crate::contract_spec::tensordot_notation)
//! writes parses back to the contraction it was written for, in natural
//! output order.

use vstd::prelude::*;

use crate::contract_spec::{
    axes_below, axes_check, axes_pair_check, axis_label, contract_notation_check, first_outside,
    first_repeat, first_shared, free_axes_below, lemma_axes_check_ok, lemma_free_axes_monotone,
    lemma_free_axes_step, natural_order, partner_axes, shared_axes, td_lhs_labels, td_notation,
    td_out_labels, td_rhs_labels,
};
use crate::einsum::{
    find_arrow, first_unbound, index_codes, is_arrow_at, lemma_filter_all, lemma_find_arrow_skip,
    member_pred, not_white, occurs_in, parse_notation, parts_codes, split_commas, strip_white,
};
use crate::dense_plan::{lemma_filter_members, lemma_filter_unique};
use crate::seqs::{first_pos, lemma_first_pos};
use crate::text::{is_ascii_letter, is_white_space};

verus! {

/// The code of the `i`-th label.
pub open spec fn label_code(i: nat) -> u8 {
    axis_label(i) as u8
}

/// The codes of the characters of `w`.
pub open spec fn codes(w: Seq<char>) -> Seq<u8> {
    w.map_values(|c: char| c as u8)
}

/// Every character of `w` is one of the first 52 labels.
pub open spec fn label_word(w: Seq<char>) -> bool {
    forall|i: int| 0 <= i < w.len() ==> exists|k: nat| k < 52 && #[trigger] w[i] == axis_label(k)
}

proof fn lemma_label_facts(i: nat, j: nat)
    requires
        i < 52,
        j < 52,
    ensures
        is_ascii_letter(axis_label(i)),
        !is_white_space(axis_label(i)),
        axis_label(i) != ',',
        axis_label(i) != '-',
        axis_label(i) != '>',
        (axis_label(i) as u8) as char == axis_label(i),
        i != j ==> label_code(i) != label_code(j),
{
}

/// Every character of `w` is an ASCII letter, so not white space, a comma,
/// `-` or `>`.
pub open spec fn letters(w: Seq<char>) -> bool {
    forall|i: int| 0 <= i < w.len() ==> #[trigger] is_ascii_letter(w[i])
}

proof fn lemma_index_codes_letters(w: Seq<char>)
    requires
        letters(w),
    ensures
        index_codes(w) == Ok::<Seq<u8>, char>(codes(w)),
    decreases w.len(),
{
    if w.len() > 0 {
        let d = w.drop_last();
        assert(letters(d)) by {
            assert forall|i: int| 0 <= i < d.len() implies #[trigger] is_ascii_letter(d[i]) by {
                assert(d[i] == w[i]);
                assert(is_ascii_letter(w[i]));
            }
        }
        lemma_index_codes_letters(d);
        assert(is_ascii_letter(w[w.len() - 1]));
        assert(is_ascii_letter(w.last()));
        assert(codes(d).push(w.last() as u8) =~= codes(w));
        assert(index_codes(w) == Ok::<Seq<u8>, char>(codes(d).push(w.last() as u8)));
    } else {
        assert(codes(w) =~= Seq::<u8>::empty());
    }
}

proof fn lemma_split_letters(a: Seq<char>)
    requires
        letters(a),
    ensures
        split_commas(a) == seq![a],
    decreases a.len(),
{
    if a.len() > 0 {
        let d = a.drop_last();
        assert(letters(d)) by {
            assert forall|i: int| 0 <= i < d.len() implies #[trigger] is_ascii_letter(d[i]) by {
                assert(d[i] == a[i]);
                assert(is_ascii_letter(a[i]));
            }
        }
        lemma_split_letters(d);
        assert(is_ascii_letter(a[a.len() - 1]));
        assert(a.last() != ',');
        assert(d.push(a.last()) =~= a);
        assert(seq![d].update(0, d.push(a.last())) =~= seq![a]);
    } else {
        assert(a =~= Seq::<char>::empty());
    }
}

proof fn lemma_split_pair(a: Seq<char>, b: Seq<char>)
    requires
        letters(a),
        letters(b),
    ensures
        split_commas(a + seq![','] + b) == seq![a, b],
    decreases b.len(),
{
    if b.len() == 0 {
        let s = a + seq![','];
        assert(a + seq![','] + b =~= s);
        assert(s.drop_last() =~= a);
        lemma_split_letters(a);
        assert(b =~= Seq::<char>::empty());
        assert(seq![a].push(Seq::<char>::empty()) =~= seq![a, b]);
    } else {
        let d = b.drop_last();
        assert(letters(d)) by {
            assert forall|i: int| 0 <= i < d.len() implies #[trigger] is_ascii_letter(d[i]) by {
                assert(d[i] == b[i]);
                assert(is_ascii_letter(b[i]));
            }
        }
        lemma_split_pair(a, d);
        let s = a + seq![','] + b;
        assert(s.drop_last() =~= a + seq![','] + d);
        assert(is_ascii_letter(b[b.len() - 1]));
        assert(s.last() == b.last());
        assert(d.push(b.last()) =~= b);
        assert(seq![a, d].update(1, d.push(b.last())) =~= seq![a, b]);
    }
}

/// The notation `l,r->o`.
pub open spec fn notation_of(l: Seq<char>, r: Seq<char>, o: Seq<char>) -> Seq<char> {
    l + seq![','] + r + seq!['-', '>'] + o
}

proof fn lemma_letter_is_plain(c: char)
    requires
        is_ascii_letter(c),
    ensures
        !is_white_space(c),
        c != ',',
        c != '-',
        c != '>',
{
}

proof fn lemma_letters_not_white(w: Seq<char>)
    requires
        letters(w),
    ensures
        w.filter(not_white()) == w,
{
    assert forall|i: int| 0 <= i < w.len() implies #[trigger] not_white()(w[i]) by {
        assert(is_ascii_letter(w[i]));
        lemma_letter_is_plain(w[i]);
    }
    lemma_filter_keeps_all(w, not_white());
}

proof fn lemma_no_dash(l: Seq<char>, r: Seq<char>)
    requires
        letters(l),
        letters(r),
    ensures
        forall|j: int| 0 <= j < (l + seq![','] + r).len() ==> #[trigger] (l + seq![','] + r)[j] != '-',
{
    let t = l + seq![','] + r;
    assert forall|j: int| 0 <= j < t.len() implies #[trigger] t[j] != '-' by {
        if j < l.len() {
            assert(t[j] == l[j]);
            assert(is_ascii_letter(l[j]));
            lemma_letter_is_plain(l[j]);
        } else if j > l.len() {
            assert(t[j] == r[j - l.len() - 1]);
            assert(is_ascii_letter(r[j - l.len() - 1]));
            lemma_letter_is_plain(r[j - l.len() - 1]);
        }
    }
}

#[verifier::rlimit(40)]
proof fn lemma_notation_chars(l: Seq<char>, r: Seq<char>, o: Seq<char>)
    requires
        letters(l),
        letters(r),
        letters(o),
    ensures
        strip_white(notation_of(l, r, o)) == notation_of(l, r, o),
        find_arrow(notation_of(l, r, o), 0) == Some((l.len() + 1 + r.len()) as int),
{
    let t = l + seq![','] + r;
    let s = notation_of(l, r, o);
    assert(s == t + seq!['-', '>'] + o);
    let p: int = t.len() as int;
    lemma_letters_not_white(l);
    lemma_letters_not_white(r);
    lemma_letters_not_white(o);
    let nw = not_white();
    assert(seq![','].filter(nw) == seq![',']) by {
        lemma_filter_keeps_all(seq![','], nw);
    }
    assert(seq!['-', '>'].filter(nw) == seq!['-', '>']) by {
        lemma_filter_keeps_all(seq!['-', '>'], nw);
    }
    Seq::filter_distributes_over_add(l, seq![','], nw);
    Seq::filter_distributes_over_add(l + seq![','], r, nw);
    Seq::filter_distributes_over_add(t, seq!['-', '>'], nw);
    Seq::filter_distributes_over_add(t + seq!['-', '>'], o, nw);
    lemma_no_dash(l, r);
    assert forall|j: int| 0 <= j < p implies !is_arrow_at(s, j) by {
        assert(s[j] == t[j]);
    }
    lemma_find_arrow_skip(s, p);
    assert(s[p] == '-' && s[p + 1] == '>');
    assert(is_arrow_at(s, p));
}

/// A notation `l,r->o` made of letters parses to the codes of `l` and `r`
/// and of `o`, unless some output index is carried by neither input.
proof fn lemma_notation_pieces(l: Seq<char>, r: Seq<char>, o: Seq<char>)
    ensures
        notation_of(l, r, o).take((l.len() + 1 + r.len()) as int) == l + seq![','] + r,
        notation_of(l, r, o).skip((l.len() + 1 + r.len()) as int + 2) == o,
{
    let t = l + seq![','] + r;
    let s = notation_of(l, r, o);
    assert(s == t + seq!['-', '>'] + o);
    assert(s.take(t.len() as int) =~= t);
    assert(s.skip(t.len() as int + 2) =~= o);
}

proof fn lemma_parts_pair(l: Seq<char>, r: Seq<char>)
    requires
        letters(l),
        letters(r),
    ensures
        parts_codes(split_commas(l + seq![','] + r)) == Ok::<Seq<Seq<u8>>, char>(seq![codes(l), codes(r)]),
{
    lemma_split_pair(l, r);
    lemma_index_codes_letters(l);
    lemma_index_codes_letters(r);
    let parts = seq![l, r];
    assert(parts.drop_last() =~= seq![l]);
    assert(parts.last() == r);
    assert(seq![l].drop_last() =~= Seq::<Seq<char>>::empty());
    assert(seq![l].last() == l);
    let one = seq![l];
    assert(one.len() == 1);
    assert(parts_codes(one.drop_last()) == Ok::<Seq<Seq<u8>>, char>(Seq::empty()));
    assert(index_codes(one.last()) == Ok::<Seq<u8>, char>(codes(l)));
    assert(parts_codes(one) == Ok::<Seq<Seq<u8>>, char>(Seq::<Seq<u8>>::empty().push(codes(l))));
    assert(Seq::<Seq<u8>>::empty().push(codes(l)) =~= seq![codes(l)]);
    assert(parts_codes(parts.drop_last()) == Ok::<Seq<Seq<u8>>, char>(seq![codes(l)]));
    assert(index_codes(parts.last()) == Ok::<Seq<u8>, char>(codes(r)));
    assert(seq![codes(l)].push(codes(r)) =~= seq![codes(l), codes(r)]);
}

/// A notation `l,r->o` made of letters parses to the codes of `l` and `r`
/// and of `o`, unless some output index is carried by neither input.
proof fn lemma_parse_letters(l: Seq<char>, r: Seq<char>, o: Seq<char>)
    requires
        letters(l),
        letters(r),
        letters(o),
    ensures
        parse_notation(notation_of(l, r, o)) == match first_unbound(seq![codes(l), codes(r)], codes(o)) {
            None => Ok::<(Seq<Seq<u8>>, Seq<u8>), Seq<char>>((seq![codes(l), codes(r)], codes(o))),
            Some(b) => Err(crate::einsum::unbound_output_message(b)),
        },
{
    lemma_notation_chars(l, r, o);
    lemma_notation_pieces(l, r, o);
    lemma_parts_pair(l, r);
    lemma_index_codes_letters(o);
}

/// Filtering with a predicate that every element of `s` passes keeps `s`.
proof fn lemma_filter_keeps_all<A>(s: Seq<A>, p: spec_fn(A) -> bool)
    requires
        forall|i: int| 0 <= i < s.len() ==> #[trigger] p(s[i]),
    ensures
        s.filter(p) == s,
    decreases s.len(),
{
    reveal(Seq::filter);
    if s.len() > 0 {
        let d = s.drop_last();
        assert forall|i: int| 0 <= i < d.len() implies #[trigger] p(d[i]) by {
            assert(d[i] == s[i]);
        }
        lemma_filter_keeps_all(d, p);
        assert(p(s[s.len() - 1]));
        assert(d.push(s.last()) =~= s);
    }
}

// ---------------------------------------------------------------------------
// The axes and the free-axis counts
// ---------------------------------------------------------------------------

/// The inputs for which the notation is written: valid axis pairs and at
/// most 52 distinct legs.
pub open spec fn td_valid(lr: nat, rr: nat, al: Seq<usize>, ar: Seq<usize>) -> bool {
    &&& axes_pair_check(al, lr, ar, rr) is Ok
    &&& lr + free_axes_below(ar, rr).len() <= 52
    &&& rr <= usize::MAX
}

/// Number of free axes of the right operand below `j`.
pub open spec fn free_count(ar: Seq<usize>, j: nat) -> nat {
    free_axes_below(ar, j).len()
}

proof fn lemma_td_axes(lr: nat, rr: nat, al: Seq<usize>, ar: Seq<usize>)
    requires
        td_valid(lr, rr, al, ar),
    ensures
        al.len() == ar.len(),
        forall|k: int| 0 <= k < al.len() ==> #[trigger] al[k] < lr,
        forall|k: int| 0 <= k < ar.len() ==> #[trigger] ar[k] < rr,
        al.no_duplicates(),
        ar.no_duplicates(),
{
    lemma_axes_check_ok(al, lr, "axes_lhs"@);
    lemma_axes_check_ok(ar, rr, "axes_rhs"@);
}

/// Below a free axis the count is smaller than at any later bound.
proof fn lemma_count_strict(ar: Seq<usize>, j1: nat, j2: nat)
    requires
        j1 < j2 <= usize::MAX + 1,
        !ar.contains(j1 as usize),
    ensures
        free_count(ar, j1) < free_count(ar, j2),
{
    lemma_free_axes_step(ar, j1);
    lemma_free_axes_monotone(ar, j1 + 1, j2);
}

/// Every count below the total is the count at some free axis.
proof fn lemma_count_hits(ar: Seq<usize>, n: nat, t: nat)
    requires
        t < free_count(ar, n),
        n <= usize::MAX + 1,
    ensures
        exists|j: nat| j < n && !ar.contains(j as usize) && #[trigger] free_count(ar, j) == t,
    decreases n,
{
    if n == 0 {
        assert(free_axes_below(ar, 0) =~= Seq::<usize>::empty()) by {
            reveal(Seq::filter);
        }
    } else {
        let m = (n - 1) as nat;
        lemma_free_axes_step(ar, m);
        if t < free_count(ar, m) {
            lemma_count_hits(ar, m, t);
            let j = choose|j: nat| j < m && !ar.contains(j as usize) && #[trigger] free_count(ar, j) == t;
            assert(j < n && !ar.contains(j as usize) && free_count(ar, j) == t);
        } else {
            assert(!ar.contains(m as usize));
            assert(free_count(ar, m) == t);
        }
    }
}

/// The `t`-th free axis below `n` has `t` free axes below it.
proof fn lemma_free_axis_at(ar: Seq<usize>, n: nat, t: int)
    requires
        0 <= t < free_count(ar, n),
        n <= usize::MAX + 1,
    ensures
        free_axes_below(ar, n)[t] < n,
        !ar.contains(free_axes_below(ar, n)[t]),
        free_count(ar, free_axes_below(ar, n)[t] as nat) == t,
    decreases n,
{
    if n == 0 {
        assert(free_axes_below(ar, 0) =~= Seq::<usize>::empty()) by {
            reveal(Seq::filter);
        }
    } else {
        let m = (n - 1) as nat;
        lemma_free_axes_step(ar, m);
        if t < free_count(ar, m) {
            lemma_free_axis_at(ar, m, t);
            assert(free_axes_below(ar, n)[t] == free_axes_below(ar, m)[t]);
        } else {
            assert(free_axes_below(ar, n)[t] == m as usize);
        }
    }
}

// ---------------------------------------------------------------------------
// The labels of the three parts
// ---------------------------------------------------------------------------

/// Which label right axis `j` gets: its partner's when contracted, else the
/// next fresh one.
pub open spec fn rhs_label_index(lr: nat, al: Seq<usize>, ar: Seq<usize>, j: nat) -> nat {
    if ar.contains(j as usize) {
        al[first_pos(ar, j as usize)] as nat
    } else {
        lr + free_count(ar, j)
    }
}

proof fn lemma_rhs_label_index(lr: nat, rr: nat, al: Seq<usize>, ar: Seq<usize>, j: nat)
    requires
        td_valid(lr, rr, al, ar),
        j < rr,
    ensures
        ar.contains(j as usize) ==> rhs_label_index(lr, al, ar, j) < lr,
        !ar.contains(j as usize) ==> lr <= rhs_label_index(lr, al, ar, j) < lr + free_count(ar, rr),
        rhs_label_index(lr, al, ar, j) < 52,
        td_rhs_labels(lr, rr, al, ar)[j as int] == axis_label(rhs_label_index(lr, al, ar, j)),
{
    lemma_td_axes(lr, rr, al, ar);
    if ar.contains(j as usize) {
        lemma_first_pos(ar, j as usize);
    } else {
        lemma_count_strict(ar, j, rr);
    }
}

/// The codes of the left labels: `0 .. lr`.
proof fn lemma_lhs_codes(lr: nat)
    requires
        lr <= 52,
    ensures
        letters(td_lhs_labels(lr)),
        codes(td_lhs_labels(lr)) == Seq::new(lr, |i: int| label_code(i as nat)),
{
    let w = td_lhs_labels(lr);
    assert forall|i: int| 0 <= i < w.len() implies #[trigger] is_ascii_letter(w[i]) by {
        lemma_label_facts(i as nat, 0);
    }
    assert(codes(w) =~= Seq::new(lr, |i: int| label_code(i as nat)));
}

/// The codes of the right labels.
proof fn lemma_rhs_codes(lr: nat, rr: nat, al: Seq<usize>, ar: Seq<usize>)
    requires
        td_valid(lr, rr, al, ar),
    ensures
        letters(td_rhs_labels(lr, rr, al, ar)),
        codes(td_rhs_labels(lr, rr, al, ar)) == Seq::new(
            rr,
            |j: int| label_code(rhs_label_index(lr, al, ar, j as nat)),
        ),
{
    let w = td_rhs_labels(lr, rr, al, ar);
    assert forall|j: int| 0 <= j < w.len() implies #[trigger] is_ascii_letter(w[j]) by {
        lemma_rhs_label_index(lr, rr, al, ar, j as nat);
        lemma_label_facts(rhs_label_index(lr, al, ar, j as nat), 0);
    }
    assert forall|j: int| 0 <= j < rr implies #[trigger] codes(w)[j] == label_code(
        rhs_label_index(lr, al, ar, j as nat),
    ) by {
        lemma_rhs_label_index(lr, rr, al, ar, j as nat);
    }
    assert(codes(w) =~= Seq::new(rr, |j: int| label_code(rhs_label_index(lr, al, ar, j as nat))));
}

/// The free left axes, as label codes.
pub open spec fn free_left_codes(lr: nat, al: Seq<usize>) -> Seq<u8> {
    free_axes_below(al, lr).map_values(|i: usize| label_code(i as nat))
}

/// The fresh right labels, as codes.
pub open spec fn fresh_codes(lr: nat, n: nat) -> Seq<u8> {
    Seq::new(n, |t: int| label_code((lr + t) as nat))
}

/// The codes of the output labels.
proof fn lemma_out_codes(lr: nat, rr: nat, al: Seq<usize>, ar: Seq<usize>)
    requires
        td_valid(lr, rr, al, ar),
    ensures
        letters(td_out_labels(lr, rr, al, ar)),
        codes(td_out_labels(lr, rr, al, ar)) == free_left_codes(lr, al) + fresh_codes(lr, free_count(ar, rr)),
{
    let w = td_out_labels(lr, rr, al, ar);
    let fl = free_axes_below(al, lr);
    let n = free_count(ar, rr);
    lemma_filter_members(axes_below(lr), |t: usize| !al.contains(t));
    assert forall|k: int| 0 <= k < fl.len() implies #[trigger] fl[k] < lr by {
        assert(fl.contains(fl[k]));
        assert(axes_below(lr).contains(fl[k]));
    }
    assert forall|i: int| 0 <= i < w.len() implies #[trigger] is_ascii_letter(w[i]) by {
        if i < fl.len() {
            lemma_label_facts(fl[i] as nat, 0);
        } else {
            lemma_label_facts((lr + (i - fl.len())) as nat, 0);
        }
    }
    assert(codes(w) =~= free_left_codes(lr, al) + fresh_codes(lr, n)) by {
        assert forall|i: int| 0 <= i < w.len() implies #[trigger] codes(w)[i] == (free_left_codes(lr, al)
            + fresh_codes(lr, n))[i] by {
            if i < fl.len() {
                lemma_label_facts(fl[i] as nat, 0);
            } else {
                lemma_label_facts((lr + (i - fl.len())) as nat, 0);
            }
        }
    }
}

// ---------------------------------------------------------------------------
// Members of the three parts
// ---------------------------------------------------------------------------

/// The left codes.
pub open spec fn lhs_codes(lr: nat) -> Seq<u8> {
    Seq::new(lr, |i: int| label_code(i as nat))
}

/// The right codes.
pub open spec fn rhs_codes(lr: nat, rr: nat, al: Seq<usize>, ar: Seq<usize>) -> Seq<u8> {
    Seq::new(rr, |j: int| label_code(rhs_label_index(lr, al, ar, j as nat)))
}

/// The output codes.
pub open spec fn out_codes(lr: nat, rr: nat, al: Seq<usize>, ar: Seq<usize>) -> Seq<u8> {
    free_left_codes(lr, al) + fresh_codes(lr, free_count(ar, rr))
}

/// `x` is the code of one of the first 52 labels.
pub open spec fn is_label_code(x: u8) -> bool {
    exists|i: nat| i < 52 && #[trigger] label_code(i) == x
}

proof fn lemma_label_code_injective()
    ensures
        forall|i: nat, j: nat| i < 52 && j < 52 && #[trigger] label_code(i) == #[trigger] label_code(j) ==> i == j,
{
    assert forall|i: nat, j: nat| i < 52 && j < 52 && #[trigger] label_code(i) == #[trigger] label_code(j) implies i
        == j by {
        lemma_label_facts(i, j);
    }
}

proof fn lemma_lhs_members(lr: nat)
    requires
        lr <= 52,
    ensures
        forall|x: u8| #[trigger] lhs_codes(lr).contains(x) ==> is_label_code(x),
        forall|i: nat| i < 52 ==> (#[trigger] lhs_codes(lr).contains(label_code(i)) <==> i < lr),
        lhs_codes(lr).no_duplicates(),
{
    let c = lhs_codes(lr);
    lemma_label_code_injective();
    assert forall|x: u8| #[trigger] c.contains(x) implies is_label_code(x) by {
        let k = choose|k: int| 0 <= k < c.len() && c[k] == x;
        assert(label_code(k as nat) == x);
    }
    assert forall|i: nat| i < 52 implies (#[trigger] c.contains(label_code(i)) <==> i < lr) by {
        if i < lr {
            assert(c[i as int] == label_code(i));
        }
        if c.contains(label_code(i)) {
            let k = choose|k: int| 0 <= k < c.len() && c[k] == label_code(i);
            assert(label_code(k as nat) == label_code(i));
        }
    }
    assert forall|a: int, b: int| 0 <= a < c.len() && 0 <= b < c.len() && a != b implies c[a] != c[b] by {
        assert(c[a] == label_code(a as nat) && c[b] == label_code(b as nat));
    }
}

proof fn lemma_rhs_members(lr: nat, rr: nat, al: Seq<usize>, ar: Seq<usize>)
    requires
        td_valid(lr, rr, al, ar),
    ensures
        forall|x: u8| #[trigger] rhs_codes(lr, rr, al, ar).contains(x) ==> is_label_code(x),
        forall|i: nat|
            i < 52 ==> (#[trigger] rhs_codes(lr, rr, al, ar).contains(label_code(i)) <==> ((i < lr
                && al.contains(i as usize)) || (lr <= i && i < lr + free_count(ar, rr)))),
        rhs_codes(lr, rr, al, ar).no_duplicates(),
        forall|k: int| 0 <= k < al.len() ==> #[trigger] rhs_codes(lr, rr, al, ar)[ar[k] as int] == label_code(
            al[k] as nat,
        ),
{
    let c = rhs_codes(lr, rr, al, ar);
    let fresh = free_count(ar, rr);
    lemma_td_axes(lr, rr, al, ar);
    lemma_label_code_injective();
    assert forall|j: int| 0 <= j < rr implies #[trigger] c[j] == label_code(rhs_label_index(lr, al, ar, j as nat))
        && rhs_label_index(lr, al, ar, j as nat) < 52 by {
        lemma_rhs_label_index(lr, rr, al, ar, j as nat);
    }
    assert forall|x: u8| #[trigger] c.contains(x) implies is_label_code(x) by {
        let k = choose|k: int| 0 <= k < c.len() && c[k] == x;
        assert(label_code(rhs_label_index(lr, al, ar, k as nat)) == x);
    }
    assert forall|k: int| 0 <= k < al.len() implies #[trigger] c[ar[k] as int] == label_code(al[k] as nat) by {
        let j = ar[k];
        assert(ar.contains(j));
        lemma_first_pos(ar, j);
        let f = first_pos(ar, j);
        if f != k {
            assert(ar[f] == ar[k]);
        }
        assert((j as nat) as usize == j);
    }
    assert forall|i: nat| i < 52 implies (#[trigger] c.contains(label_code(i)) <==> ((i < lr && al.contains(
        i as usize,
    )) || (lr <= i && i < lr + fresh))) by {
        if c.contains(label_code(i)) {
            let j = choose|j: int| 0 <= j < c.len() && c[j] == label_code(i);
            lemma_rhs_label_index(lr, rr, al, ar, j as nat);
            let v = rhs_label_index(lr, al, ar, j as nat);
            assert(label_code(v) == label_code(i));
            assert(v == i);
            if ar.contains(j as usize) {
                lemma_first_pos(ar, j as usize);
                let f = first_pos(ar, j as usize);
                assert(al[f] as nat == i);
                assert(al.contains(i as usize));
            }
        }
        if i < lr && al.contains(i as usize) {
            let k = choose|k: int| 0 <= k < al.len() && al[k] == i as usize;
            assert(c[ar[k] as int] == label_code(al[k] as nat));
            assert(c.contains(label_code(i)));
        }
        if lr <= i && i < lr + fresh {
            let t = (i - lr) as nat;
            lemma_count_hits(ar, rr, t);
            let j = choose|j: nat| j < rr && !ar.contains(j as usize) && #[trigger] free_count(ar, j) == t;
            assert(c[j as int] == label_code(rhs_label_index(lr, al, ar, j)));
            assert(c.contains(label_code(i)));
        }
    }
    assert forall|a: int, b: int| 0 <= a < c.len() && 0 <= b < c.len() && a != b implies c[a] != c[b] by {
        lemma_rhs_label_index(lr, rr, al, ar, a as nat);
        lemma_rhs_label_index(lr, rr, al, ar, b as nat);
        let va = rhs_label_index(lr, al, ar, a as nat);
        let vb = rhs_label_index(lr, al, ar, b as nat);
        if c[a] == c[b] {
            assert(va == vb);
            if ar.contains(a as usize) && ar.contains(b as usize) {
                lemma_first_pos(ar, a as usize);
                lemma_first_pos(ar, b as usize);
                let fa = first_pos(ar, a as usize);
                let fb = first_pos(ar, b as usize);
                assert(al[fa] == al[fb]);
                assert(fa == fb);
                assert(ar[fa] == a as usize && ar[fb] == b as usize);
            } else if !ar.contains(a as usize) && !ar.contains(b as usize) {
                if a < b {
                    lemma_count_strict(ar, a as nat, b as nat);
                } else {
                    lemma_count_strict(ar, b as nat, a as nat);
                }
            }
        }
    }
}

proof fn lemma_out_members(lr: nat, rr: nat, al: Seq<usize>, ar: Seq<usize>)
    requires
        td_valid(lr, rr, al, ar),
    ensures
        forall|x: u8| #[trigger] out_codes(lr, rr, al, ar).contains(x) ==> is_label_code(x),
        forall|i: nat|
            i < 52 ==> (#[trigger] out_codes(lr, rr, al, ar).contains(label_code(i)) <==> ((i < lr
                && !al.contains(i as usize)) || (lr <= i && i < lr + free_count(ar, rr)))),
        out_codes(lr, rr, al, ar).no_duplicates(),
{
    let fl = free_axes_below(al, lr);
    let a = free_left_codes(lr, al);
    let b = fresh_codes(lr, free_count(ar, rr));
    let c = out_codes(lr, rr, al, ar);
    lemma_label_code_injective();
    lemma_td_axes(lr, rr, al, ar);
    let p = |t: usize| !al.contains(t);
    lemma_filter_members(axes_below(lr), p);
    assert(axes_below(lr).no_duplicates()) by {
        assert forall|x: int, y: int| 0 <= x < lr && 0 <= y < lr && x != y implies axes_below(lr)[x]
            != axes_below(lr)[y] by {}
    }
    lemma_filter_unique(axes_below(lr), p);
    assert forall|k: int| 0 <= k < fl.len() implies #[trigger] fl[k] < lr && !al.contains(fl[k]) by {
        assert(fl.contains(fl[k]));
        assert(axes_below(lr).contains(fl[k]));
    }
    assert forall|v: usize| #[trigger] fl.contains(v) <==> (v < lr && !al.contains(v)) by {
        if v < lr {
            assert(axes_below(lr)[v as int] == v);
            assert(axes_below(lr).contains(v));
        }
    }
    assert forall|x: u8| #[trigger] c.contains(x) implies is_label_code(x) by {
        let k = choose|k: int| 0 <= k < c.len() && c[k] == x;
        if k < a.len() {
            assert(c[k] == label_code(fl[k] as nat));
        } else {
            assert(c[k] == label_code((lr + (k - a.len())) as nat));
        }
    }
    assert forall|i: nat| i < 52 implies (#[trigger] c.contains(label_code(i)) <==> ((i < lr && !al.contains(
        i as usize,
    )) || (lr <= i && i < lr + free_count(ar, rr)))) by {
        if c.contains(label_code(i)) {
            let k = choose|k: int| 0 <= k < c.len() && c[k] == label_code(i);
            if k < a.len() {
                assert(label_code(fl[k] as nat) == label_code(i));
                assert(fl[k] as nat == i);
            } else {
                assert(label_code((lr + (k - a.len())) as nat) == label_code(i));
            }
        }
        if i < lr && !al.contains(i as usize) {
            assert(fl.contains(i as usize));
            let k = choose|k: int| 0 <= k < fl.len() && fl[k] == i as usize;
            assert(c[k] == label_code(i));
        }
        if lr <= i && i < lr + free_count(ar, rr) {
            assert(c[a.len() + (i - lr)] == label_code(i));
        }
    }
    assert forall|x: int, y: int| 0 <= x < c.len() && 0 <= y < c.len() && x != y implies c[x] != c[y] by {
        if x < a.len() && y < a.len() {
            assert(fl[x] != fl[y]);
            assert(c[x] == label_code(fl[x] as nat) && c[y] == label_code(fl[y] as nat));
        } else if x < a.len() {
            assert(c[x] == label_code(fl[x] as nat));
            assert(c[y] == label_code((lr + (y - a.len())) as nat));
        } else if y < a.len() {
            assert(c[y] == label_code(fl[y] as nat));
            assert(c[x] == label_code((lr + (x - a.len())) as nat));
        } else {
            assert(c[x] == label_code((lr + (x - a.len())) as nat));
            assert(c[y] == label_code((lr + (y - a.len())) as nat));
        }
    }
}

// ---------------------------------------------------------------------------
// The checks pass
// ---------------------------------------------------------------------------

proof fn lemma_repeat_free(s: Seq<u8>)
    requires
        s.no_duplicates(),
    ensures
        first_repeat(s) is None,
    decreases s.len(),
{
    if s.len() > 0 {
        let d = s.drop_last();
        assert(d.no_duplicates()) by {
            assert forall|i: int, j: int| 0 <= i < d.len() && 0 <= j < d.len() && i != j implies d[i]
                != d[j] by {
                assert(d[i] == s[i] && d[j] == s[j]);
            }
        }
        lemma_repeat_free(d);
        if d.contains(s.last()) {
            let k = choose|k: int| 0 <= k < d.len() && d[k] == s.last();
            assert(s[k] == s[s.len() - 1]);
        }
    }
}

proof fn lemma_shared_free(s: Seq<u8>, a: Seq<u8>, b: Seq<u8>)
    requires
        forall|x: u8| #[trigger] s.contains(x) ==> !(a.contains(x) && b.contains(x)),
    ensures
        first_shared(s, a, b) is None,
    decreases s.len(),
{
    if s.len() > 0 {
        let d = s.drop_last();
        assert forall|x: u8| #[trigger] d.contains(x) implies !(a.contains(x) && b.contains(x)) by {
            let k = choose|k: int| 0 <= k < d.len() && d[k] == x;
            assert(s[k] == x);
            assert(s.contains(x));
        }
        lemma_shared_free(d, a, b);
        assert(s.contains(s[s.len() - 1]));
    }
}

proof fn lemma_outside_free(s: Seq<u8>, a: Seq<u8>, b: Seq<u8>)
    requires
        forall|x: u8| #[trigger] s.contains(x) ==> a.contains(x) || b.contains(x),
    ensures
        first_outside(s, a, b) is None,
    decreases s.len(),
{
    if s.len() > 0 {
        let d = s.drop_last();
        assert forall|x: u8| #[trigger] d.contains(x) implies a.contains(x) || b.contains(x) by {
            let k = choose|k: int| 0 <= k < d.len() && d[k] == x;
            assert(s[k] == x);
            assert(s.contains(x));
        }
        lemma_outside_free(d, a, b);
        assert(s.contains(s[s.len() - 1]));
    }
}

proof fn lemma_unbound_free(ins: Seq<Seq<u8>>, out: Seq<u8>)
    requires
        forall|x: u8| #[trigger] out.contains(x) ==> occurs_in(ins, x),
    ensures
        first_unbound(ins, out) is None,
    decreases out.len(),
{
    if out.len() > 0 {
        let d = out.drop_last();
        assert forall|x: u8| #[trigger] d.contains(x) implies occurs_in(ins, x) by {
            let k = choose|k: int| 0 <= k < d.len() && d[k] == x;
            assert(out[k] == x);
            assert(out.contains(x));
        }
        lemma_unbound_free(ins, d);
        assert(out.contains(out[out.len() - 1]));
    }
}

/// The written notation passes every check, and every output label is
/// carried by an operand.
proof fn lemma_checks_pass(lr: nat, rr: nat, al: Seq<usize>, ar: Seq<usize>)
    requires
        td_valid(lr, rr, al, ar),
    ensures
        contract_notation_check(
            seq![lhs_codes(lr), rhs_codes(lr, rr, al, ar)],
            out_codes(lr, rr, al, ar),
        ) is Ok,
        first_unbound(seq![lhs_codes(lr), rhs_codes(lr, rr, al, ar)], out_codes(lr, rr, al, ar)) is None,
{
    let l = lhs_codes(lr);
    let r = rhs_codes(lr, rr, al, ar);
    let o = out_codes(lr, rr, al, ar);
    let ins = seq![l, r];
    lemma_td_axes(lr, rr, al, ar);
    lemma_lhs_members(lr);
    lemma_rhs_members(lr, rr, al, ar);
    lemma_out_members(lr, rr, al, ar);
    lemma_repeat_free(l);
    lemma_repeat_free(r);
    lemma_repeat_free(o);
    assert forall|x: u8| #[trigger] o.contains(x) implies !(l.contains(x) && r.contains(x)) by {
        let i = choose|i: nat| i < 52 && #[trigger] label_code(i) == x;
    }
    lemma_shared_free(o, l, r);
    assert forall|x: u8| #[trigger] l.contains(x) implies r.contains(x) || o.contains(x) by {
        let i = choose|i: nat| i < 52 && #[trigger] label_code(i) == x;
    }
    lemma_outside_free(l, r, o);
    assert forall|x: u8| #[trigger] r.contains(x) implies l.contains(x) || o.contains(x) by {
        let i = choose|i: nat| i < 52 && #[trigger] label_code(i) == x;
    }
    lemma_outside_free(r, l, o);
    assert forall|x: u8| #[trigger] o.contains(x) implies occurs_in(ins, x) by {
        let i = choose|i: nat| i < 52 && #[trigger] label_code(i) == x;
        if l.contains(x) {
            assert(ins[0] == l);
            assert(ins[0].contains(x));
        } else {
            assert(ins[1] == r);
            assert(ins[1].contains(x));
        }
    }
    lemma_unbound_free(ins, o);
    assert(ins[0] == l && ins[1] == r);
}

// ---------------------------------------------------------------------------
// Orders and axis pairs
// ---------------------------------------------------------------------------

/// Filtering with predicates that agree on every element gives the same
/// sequence.
proof fn lemma_filter_congruent<A>(s: Seq<A>, p: spec_fn(A) -> bool, q: spec_fn(A) -> bool)
    requires
        forall|i: int| 0 <= i < s.len() ==> p(#[trigger] s[i]) == q(s[i]),
    ensures
        s.filter(p) == s.filter(q),
    decreases s.len(),
{
    reveal(Seq::filter);
    if s.len() > 0 {
        let d = s.drop_last();
        assert forall|i: int| 0 <= i < d.len() implies p(#[trigger] d[i]) == q(d[i]) by {
            assert(d[i] == s[i]);
        }
        lemma_filter_congruent(d, p, q);
        assert(p(s[s.len() - 1]) == q(s[s.len() - 1]));
    }
}

/// Filtering a mapped sequence is mapping the filtered one.
proof fn lemma_filter_map<A, B>(s: Seq<A>, f: spec_fn(A) -> B, p: spec_fn(B) -> bool)
    ensures
        s.map_values(f).filter(p) == s.filter(|x: A| p(f(x))).map_values(f),
    decreases s.len(),
{
    reveal(Seq::filter);
    if s.len() > 0 {
        let d = s.drop_last();
        lemma_filter_map(d, f, p);
        assert(s.map_values(f).drop_last() =~= d.map_values(f));
        let q = |x: A| p(f(x));
        if q(s.last()) {
            assert(s.filter(q).map_values(f) =~= d.filter(q).map_values(f).push(f(s.last())));
        } else {
            assert(s.filter(q).map_values(f) =~= d.filter(q).map_values(f));
        }
    }
}

/// A strictly ascending list of axes below `n` is the list of axes below
/// `n` that it holds.
proof fn lemma_ascending_filter(al: Seq<usize>, n: nat)
    requires
        forall|i: int, j: int| 0 <= i < j < al.len() ==> al[i] < al[j],
        forall|k: int| 0 <= k < al.len() ==> #[trigger] al[k] < n,
        n <= usize::MAX + 1,
    ensures
        axes_below(n).filter(|i: usize| al.contains(i)) == al,
    decreases n,
{
    reveal(Seq::filter);
    if n == 0 {
        if al.len() > 0 {
            assert(al[0] < 0);
        }
        assert(al =~= Seq::<usize>::empty());
    } else {
        let m = (n - 1) as nat;
        assert(axes_below(n) =~= axes_below(m).push(m as usize));
        axes_below(m).lemma_filter_push(m as usize, |i: usize| al.contains(i));
        if al.contains(m as usize) {
            let k = choose|k: int| 0 <= k < al.len() && al[k] == m as usize;
            assert(k == al.len() - 1) by {
                if k < al.len() - 1 {
                    assert(al[k] < al[al.len() - 1]);
                }
            }
            let d = al.drop_last();
            assert forall|t: int| 0 <= t < d.len() implies #[trigger] d[t] < m by {
                assert(d[t] == al[t]);
                assert(al[t] < al[k]);
            }
            lemma_ascending_filter(d, m);
            assert forall|t: int| 0 <= t < axes_below(m).len() implies (|i: usize| al.contains(i))(
                #[trigger] axes_below(m)[t],
            ) == (|i: usize| d.contains(i))(axes_below(m)[t]) by {
                let v = axes_below(m)[t];
                if al.contains(v) {
                    let u = choose|u: int| 0 <= u < al.len() && al[u] == v;
                    assert(u != k);
                    assert(d[u] == v);
                }
                if d.contains(v) {
                    let u = choose|u: int| 0 <= u < d.len() && d[u] == v;
                    assert(al[u] == v);
                }
            }
            lemma_filter_congruent(
                axes_below(m),
                |i: usize| al.contains(i),
                |i: usize| d.contains(i),
            );
            assert(d.push(m as usize) =~= al);
        } else {
            assert forall|t: int| 0 <= t < al.len() implies #[trigger] al[t] < m by {
                assert(al[t] != m as usize);
            }
            lemma_ascending_filter(al, m);
        }
    }
}

/// The orders and axis pairs that the parsed notation describes.
proof fn lemma_orders(lr: nat, rr: nat, al: Seq<usize>, ar: Seq<usize>)
    requires
        td_valid(lr, rr, al, ar),
    ensures
        natural_order(lhs_codes(lr), rhs_codes(lr, rr, al, ar)) == out_codes(lr, rr, al, ar),
        partner_axes(lhs_codes(lr), rhs_codes(lr, rr, al, ar), al) == ar,
        (forall|i: int, j: int| 0 <= i < j < al.len() ==> al[i] < al[j]) ==> shared_axes(
            lhs_codes(lr),
            rhs_codes(lr, rr, al, ar),
        ) == al,
{
    let l = lhs_codes(lr);
    let r = rhs_codes(lr, rr, al, ar);
    let code = |i: usize| label_code(i as nat);
    let g = |j: usize| label_code(rhs_label_index(lr, al, ar, j as nat));
    lemma_td_axes(lr, rr, al, ar);
    lemma_lhs_members(lr);
    lemma_rhs_members(lr, rr, al, ar);
    lemma_label_code_injective();
    // Free left labels.
    assert(l =~= axes_below(lr).map_values(code));
    let pl = member_pred(l, r, false);
    lemma_filter_map(axes_below(lr), code, pl);
    assert forall|t: int| 0 <= t < axes_below(lr).len() implies (|x: usize| pl(code(x)))(
        #[trigger] axes_below(lr)[t],
    ) == (|t: usize| !al.contains(t))(axes_below(lr)[t]) by {
        let v = axes_below(lr)[t];
        assert(v as nat == t);
        assert(l.contains(label_code(v as nat)));
    }
    lemma_filter_congruent(axes_below(lr), |x: usize| pl(code(x)), |t: usize| !al.contains(t));
    assert(l.filter(pl) == free_left_codes(lr, al));
    // Fresh right labels.
    assert(r =~= axes_below(rr).map_values(g));
    let pr = member_pred(r, l, false);
    lemma_filter_map(axes_below(rr), g, pr);
    assert forall|t: int| 0 <= t < axes_below(rr).len() implies (|x: usize| pr(g(x)))(
        #[trigger] axes_below(rr)[t],
    ) == (|t: usize| !ar.contains(t))(axes_below(rr)[t]) by {
        let v = axes_below(rr)[t];
        assert(v as nat == t);
        lemma_rhs_label_index(lr, rr, al, ar, t as nat);
        assert(r[t] == g(v));
        assert(r.contains(g(v)));
    }
    lemma_filter_congruent(axes_below(rr), |x: usize| pr(g(x)), |t: usize| !ar.contains(t));
    let fa = free_axes_below(ar, rr);
    let n = free_count(ar, rr);
    assert(fa.map_values(g) =~= fresh_codes(lr, n)) by {
        assert forall|t: int| 0 <= t < n implies #[trigger] fa.map_values(g)[t] == fresh_codes(lr, n)[t] by {
            lemma_free_axis_at(ar, rr, t);
        }
    }
    assert(r.filter(pr) == fresh_codes(lr, n));
    // Partner axes.
    assert forall|k: int| 0 <= k < al.len() implies #[trigger] partner_axes(l, r, al)[k] == ar[k] by {
        let i = al[k];
        assert(l[i as int] == label_code(i as nat));
        assert(r[ar[k] as int] == label_code(al[k] as nat));
        lemma_first_pos(r, label_code(i as nat));
        let f = first_pos(r, label_code(i as nat));
        assert(r.contains(label_code(i as nat)));
        if f != ar[k] as int {
            assert(r[f] == r[ar[k] as int]);
        }
    }
    assert(partner_axes(l, r, al) =~= ar);
    // Shared axes.
    if forall|i: int, j: int| 0 <= i < j < al.len() ==> al[i] < al[j] {
        lemma_ascending_filter(al, lr);
        assert forall|t: int| 0 <= t < axes_below(lr).len() implies crate::contract_spec::label_shared(l, r)(
            #[trigger] axes_below(lr)[t],
        ) == (|i: usize| al.contains(i))(axes_below(lr)[t]) by {
            let v = axes_below(lr)[t];
            assert(v as nat == t);
            assert(l[v as int] == label_code(v as nat));
        }
        lemma_filter_congruent(
            axes_below(lr),
            crate::contract_spec::label_shared(l, r),
            |i: usize| al.contains(i),
        );
    }
}

/// The notation written for contracting axes `al` of a rank-`lr` operand
/// against axes `ar` of a rank-`rr` operand, with at most 52 distinct legs,
/// parses to a contraction that passes every check and asks for exactly the
/// natural output order (free left labels, then free right ones), so no
/// reordering follows; it pairs each axis of `al` with the axis of `ar` at
/// the same position; and when `al` is strictly ascending, the parsed
/// contraction lists its axis pairs exactly as `al` and `ar`.
pub proof fn law_tensordot_roundtrip(lr: nat, rr: nat, al: Seq<usize>, ar: Seq<usize>)
    requires
        td_valid(lr, rr, al, ar),
    ensures
        ({
            let l = lhs_codes(lr);
            let r = rhs_codes(lr, rr, al, ar);
            let o = out_codes(lr, rr, al, ar);
            &&& parse_notation(td_notation(lr, rr, al, ar)) == Ok::<
                (Seq<Seq<u8>>, Seq<u8>),
                Seq<char>,
            >((seq![l, r], o))
            &&& contract_notation_check(seq![l, r], o) is Ok
            &&& natural_order(l, r) == o
            &&& partner_axes(l, r, al) == ar
            &&& (forall|i: int, j: int| 0 <= i < j < al.len() ==> al[i] < al[j]) ==> {
                &&& shared_axes(l, r) == al
                &&& partner_axes(l, r, shared_axes(l, r)) == ar
            }
        }),
{
    lemma_lhs_codes(lr);
    lemma_rhs_codes(lr, rr, al, ar);
    lemma_out_codes(lr, rr, al, ar);
    let ll = td_lhs_labels(lr);
    let rl = td_rhs_labels(lr, rr, al, ar);
    let ol = td_out_labels(lr, rr, al, ar);
    assert(td_notation(lr, rr, al, ar) == notation_of(ll, rl, ol));
    lemma_parse_letters(ll, rl, ol);
    lemma_checks_pass(lr, rr, al, ar);
    lemma_orders(lr, rr, al, ar);
}

} // verus!
