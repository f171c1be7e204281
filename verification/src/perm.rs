//! Validation of an axis permutation before a tensor's legs are permuted.

use vstd::prelude::*;

use crate::contract_spec::{is_invalid_argument, LinalgError};
use crate::strided::is_permutation;
use crate::text::{decimal, push_str, push_usize};

verus! {

/// Message: the permutation has the wrong length.
pub open spec fn perm_length_message(len: nat, rank: nat) -> Seq<char> {
    "perm length "@ + decimal(len) + " does not match rank "@ + decimal(rank)
}

/// Message: an entry of the permutation names no axis.
pub open spec fn perm_range_message(p: nat, rank: nat) -> Seq<char> {
    "perm index "@ + decimal(p) + " out of range for rank "@ + decimal(rank)
}

/// Message: an axis appears twice in the permutation.
pub open spec fn perm_duplicate_message(p: nat) -> Seq<char> {
    "duplicate perm index "@ + decimal(p)
}

/// Entry `i` of `perm` is the first that is out of range or repeats an
/// earlier entry.
pub open spec fn first_bad_entry(perm: Seq<usize>, rank: nat, i: int) -> bool {
    &&& 0 <= i < perm.len()
    &&& (perm[i] >= rank || exists|k: int| 0 <= k < i && perm[k] == perm[i])
    &&& forall|j: int|
        0 <= j < i ==> #[trigger] perm[j] < rank && forall|k: int| 0 <= k < j ==> perm[k] != perm[j]
}

/// How many entries of `s` are set.
spec fn count_set(s: Seq<bool>) -> nat
    decreases s.len(),
{
    if s.len() == 0 {
        0
    } else {
        count_set(s.drop_last()) + if s.last() {
            1nat
        } else {
            0nat
        }
    }
}

proof fn lemma_count_set_bound(s: Seq<bool>)
    ensures
        count_set(s) <= s.len(),
        count_set(s) == s.len() ==> forall|j: int| 0 <= j < s.len() ==> #[trigger] s[j],
    decreases s.len(),
{
    if s.len() > 0 {
        let d = s.drop_last();
        lemma_count_set_bound(d);
        if count_set(s) == s.len() {
            assert forall|j: int| 0 <= j < s.len() implies #[trigger] s[j] by {
                if j < d.len() {
                    assert(d[j] == s[j]);
                }
            }
        }
    }
}

proof fn lemma_count_set_flip(s: Seq<bool>, k: int)
    requires
        0 <= k < s.len(),
        !s[k],
    ensures
        count_set(s.update(k, true)) == count_set(s) + 1,
    decreases s.len(),
{
    let t = s.update(k, true);
    if k == s.len() - 1 {
        assert(t.drop_last() =~= s.drop_last());
    } else {
        lemma_count_set_flip(s.drop_last(), k);
        assert(t.drop_last() =~= s.drop_last().update(k, true));
    }
}

/// Checks that `perm` is a permutation of the `rank` axes of a tensor:
/// one entry per axis, each naming an axis, none twice. Reports the
/// length first, then the first entry out of range or repeated.
pub fn validate_perm(perm: &[usize], rank: usize) -> (r: Result<(), LinalgError>)
    ensures
        r is Ok <==> is_permutation(perm@, rank as nat),
        perm@.len() != rank ==> is_invalid_argument(r, perm_length_message(perm@.len(), rank as nat)),
        perm@.len() == rank ==> forall|i: int| #[trigger] first_bad_entry(perm@, rank as nat, i) ==> if perm@[i]
            >= rank {
            is_invalid_argument(r, perm_range_message(perm@[i] as nat, rank as nat))
        } else {
            is_invalid_argument(r, perm_duplicate_message(perm@[i] as nat))
        },
{
    if perm.len() != rank {
        let mut m = "perm length ".to_owned();
        push_usize(&mut m, perm.len());
        push_str(&mut m, " does not match rank ");
        push_usize(&mut m, rank);
        return Err(LinalgError::InvalidArgument(m));
    }
    let mut seen: Vec<bool> = Vec::new();
    let mut t: usize = 0;
    while t < rank
        invariant
            t <= rank,
            seen@.len() == t,
            forall|j: int| 0 <= j < t ==> !#[trigger] seen@[j],
            count_set(seen@) == 0,
        decreases rank - t,
    {
        let ghost before = seen@;
        seen.push(false);
        assert(seen@.drop_last() =~= before);
        t = t + 1;
    }
    let mut i: usize = 0;
    while i < rank
        invariant
            i <= rank == perm@.len(),
            seen@.len() == rank,
            forall|j: int| 0 <= j < rank ==> (#[trigger] seen@[j] <==> exists|k: int| 0 <= k < i && perm@[k] == j),
            forall|j: int|
                0 <= j < i ==> #[trigger] perm@[j] < rank && forall|k: int| 0 <= k < j ==> perm@[k] != perm@[j],
            count_set(seen@) == i,
        decreases rank - i,
    {
        let p = perm[i];
        if p >= rank {
            let mut m = "perm index ".to_owned();
            push_usize(&mut m, p);
            push_str(&mut m, " out of range for rank ");
            push_usize(&mut m, rank);
            assert(first_bad_entry(perm@, rank as nat, i as int));
            assert forall|b: int| #[trigger] first_bad_entry(perm@, rank as nat, b) implies b == i by {
                if b < i {
                    assert(perm@[b] < rank);
                    assert(forall|k: int| 0 <= k < b ==> perm@[k] != perm@[b]);
                }
                if b > i {
                    assert(perm@[i as int] < rank);
                }
            }
            return Err(LinalgError::InvalidArgument(m));
        }
        if seen[p] {
            let mut m = "duplicate perm index ".to_owned();
            push_usize(&mut m, p);
            let ghost k = choose|k: int| 0 <= k < i && perm@[k] == p;
            assert(seen@[p as int]);
            assert(first_bad_entry(perm@, rank as nat, i as int));
            assert forall|b: int| #[trigger] first_bad_entry(perm@, rank as nat, b) implies b == i by {
                if b < i {
                    assert(perm@[b] < rank);
                    assert(forall|k: int| 0 <= k < b ==> perm@[k] != perm@[b]);
                }
                if b > i {
                    assert(perm@[i as int] < rank);
                    assert(perm@[k] == perm@[i as int]);
                }
            }
            assert(!perm@.no_duplicates()) by {
                assert(perm@[k] == perm@[i as int]);
            }
            return Err(LinalgError::InvalidArgument(m));
        }
        let ghost before = seen@;
        proof {
            lemma_count_set_flip(before, p as int);
        }
        seen.set(p, true);
        assert forall|j: int| 0 <= j < rank implies (#[trigger] seen@[j] <==> exists|k: int|
            0 <= k < i + 1 && perm@[k] == j) by {
            if j == p {
                assert(perm@[i as int] == j);
            } else {
                if exists|k: int| 0 <= k < i + 1 && perm@[k] == j {
                    let k = choose|k: int| 0 <= k < i + 1 && perm@[k] == j;
                    assert(k != i);
                }
            }
        }
        assert forall|k: int| 0 <= k < i implies perm@[k] != perm@[i as int] by {
            if perm@[k] == p {
                assert(before[p as int]);
            }
        }
        i = i + 1;
    }
    proof {
        lemma_count_set_bound(seen@);
        assert(perm@.no_duplicates()) by {
            assert forall|a: int, b: int| 0 <= a < perm@.len() && 0 <= b < perm@.len() && a != b implies perm@[a]
                != perm@[b] by {
                if a < b {
                    assert(perm@[b] < rank && forall|k: int| 0 <= k < b ==> perm@[k] != perm@[b]);
                } else {
                    assert(perm@[a] < rank && forall|k: int| 0 <= k < a ==> perm@[k] != perm@[a]);
                }
            }
        }
        assert forall|j: usize| j < rank implies #[trigger] perm@.contains(j) by {
            assert(seen@[j as int]);
            let k = choose|k: int| 0 <= k < rank && perm@[k] == j;
        }
        assert forall|i2: int| #[trigger] first_bad_entry(perm@, rank as nat, i2) implies false by {
            assert(perm@[i2] < rank && forall|k: int| 0 <= k < i2 ==> perm@[k] != perm@[i2]);
        }
    }
    Ok(())
}

} // verus!
