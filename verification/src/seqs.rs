//! General facts about sequences that the index analyses rely on.

use vstd::prelude::*;

verus! {

/// Number of times `x` occurs in `s`.
pub open spec fn count_of<A>(s: Seq<A>, x: A) -> nat
    decreases s.len(),
{
    if s.len() == 0 {
        0
    } else {
        count_of(s.drop_last(), x) + if s.last() == x {
            1nat
        } else {
            0nat
        }
    }
}

/// Index of the first occurrence of `x` in `s`, or `-1` when absent.
pub open spec fn first_pos<A>(s: Seq<A>, x: A) -> int
    decreases s.len(),
{
    if s.len() == 0 {
        -1
    } else {
        let p = first_pos(s.drop_last(), x);
        if p >= 0 {
            p
        } else if s.last() == x {
            s.len() - 1
        } else {
            -1
        }
    }
}

/// The distinct elements of `s`, each at the position of its first
/// occurrence.
pub open spec fn first_occurrences<A>(s: Seq<A>) -> Seq<A>
    decreases s.len(),
{
    if s.len() == 0 {
        s
    } else {
        let p = first_occurrences(s.drop_last());
        if p.contains(s.last()) {
            p
        } else {
            p.push(s.last())
        }
    }
}

/// Concatenation of all the sequences of `ss`, in order.
pub open spec fn concat_all<A>(ss: Seq<Seq<A>>) -> Seq<A>
    decreases ss.len(),
{
    if ss.len() == 0 {
        Seq::empty()
    } else {
        concat_all(ss.drop_last()) + ss.last()
    }
}

/// Taking one more element of `s` extends a filtered prefix by that element
/// exactly when it passes the predicate.
pub proof fn lemma_filter_take_step<A>(s: Seq<A>, p: spec_fn(A) -> bool, i: int)
    requires
        0 <= i < s.len(),
    ensures
        s.take(i + 1).filter(p) == if p(s[i]) {
            s.take(i).filter(p).push(s[i])
        } else {
            s.take(i).filter(p)
        },
{
    assert(s.take(i + 1) =~= s.take(i).push(s[i]));
    s.take(i).lemma_filter_push(s[i], p);
}

/// `first_pos` finds an element exactly where it first occurs.
pub proof fn lemma_first_pos<A>(s: Seq<A>, x: A)
    ensures
        -1 <= first_pos(s, x) < s.len(),
        first_pos(s, x) >= 0 ==> s[first_pos(s, x)] == x,
        first_pos(s, x) >= 0 ==> forall|j: int| 0 <= j < first_pos(s, x) ==> s[j] != x,
        first_pos(s, x) == -1 <==> !s.contains(x),
    decreases s.len(),
{
    if s.len() > 0 {
        let d = s.drop_last();
        lemma_first_pos(d, x);
        assert forall|j: int| 0 <= j < d.len() implies #[trigger] s[j] == d[j] by {}
        if !d.contains(x) && s.last() != x {
            assert forall|j: int| 0 <= j < s.len() implies s[j] != x by {
                if j < s.len() - 1 {
                    assert(d[j] == s[j]);
                }
            }
        }
        if d.contains(x) {
            let j = choose|j: int| 0 <= j < d.len() && d[j] == x;
            assert(s[j] == x);
        }
    }
}

/// Membership in `first_occurrences` is membership in the sequence, and the
/// result holds no element twice.
pub proof fn lemma_first_occurrences<A>(s: Seq<A>)
    ensures
        forall|x: A| first_occurrences(s).contains(x) <==> s.contains(x),
        first_occurrences(s).no_duplicates(),
        first_occurrences(s).len() <= s.len(),
    decreases s.len(),
{
    if s.len() > 0 {
        lemma_first_occurrences(s.drop_last());
        let d = s.drop_last();
        let p = first_occurrences(d);
        let r = first_occurrences(s);
        assert forall|x: A| r.contains(x) <==> s.contains(x) by {
            if s.contains(x) {
                let j = choose|j: int| 0 <= j < s.len() && s[j] == x;
                if j < d.len() {
                    assert(d[j] == x);
                    assert(d.contains(x));
                    assert(p.contains(x));
                    let k = choose|k: int| 0 <= k < p.len() && p[k] == x;
                    if !p.contains(s.last()) {
                        assert(r == p.push(s.last()));
                        assert(r[k] == x);
                    }
                } else {
                    if !p.contains(s.last()) {
                        assert(r == p.push(s.last()));
                        assert(r[p.len() as int] == x);
                    }
                }
            }
            if r.contains(x) {
                let k = choose|k: int| 0 <= k < r.len() && r[k] == x;
                if k < p.len() {
                    assert(p[k] == x);
                    assert(d.contains(x));
                    let j = choose|j: int| 0 <= j < d.len() && d[j] == x;
                    assert(s[j] == x);
                } else {
                    assert(s[s.len() - 1] == x);
                }
            }
        }
        if !p.contains(s.last()) {
            assert forall|i: int, j: int|
                0 <= i < p.push(s.last()).len() && 0 <= j < p.push(s.last()).len() && i != j
                    implies p.push(s.last())[i] != p.push(s.last())[j] by {
                if i == p.len() as int {
                    assert(p[j] == p.push(s.last())[j]);
                } else if j == p.len() as int {
                    assert(p[i] == p.push(s.last())[i]);
                }
            }
        }
    }
}

} // verus!
