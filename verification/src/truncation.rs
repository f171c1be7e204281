//! Cross-sector truncation of a spectrum: how many values are kept in all,
//! and how many of the kept ones fall in each sector.
//!
//! The values themselves are floating point and are ranked by the caller
//! (largest first, ties by sector index); what is decided here works on the
//! ranking alone.

use vstd::prelude::*;

use crate::block_ops::sum_of;
use crate::contract_spec::{is_invalid_argument, LinalgError};

verus! {

/// Message: a bond limit of zero.
pub open spec fn chi_max_message() -> Seq<char> {
    "chi_max must be at least 1"@
}

/// The smaller of `a` and `b`.
pub open spec fn min_nat(a: nat, b: nat) -> nat {
    if a <= b {
        a
    } else {
        b
    }
}

/// How many of `total` ranked values are kept: all of them, cut to
/// `chi_max` when that is given, and to `chi_err` (how many the error
/// target leaves) when that is given, the stricter bound winning; but at
/// least one once the error target has cut, and none of none.
pub open spec fn kept_count(total: nat, chi_max: Option<usize>, chi_err: Option<usize>) -> nat {
    if total == 0 {
        0
    } else {
        let by_max = match chi_max {
            Some(c) => min_nat(total, c as nat),
            None => total,
        };
        match chi_err {
            Some(e) => if min_nat(by_max, e as nat) == 0 {
                1
            } else {
                min_nat(by_max, e as nat)
            },
            None => by_max,
        }
    }
}

/// Decides how many of `total` ranked values a truncation keeps, given the
/// bond limit `chi_max` and the count `chi_err` that the error target
/// allows (when there is one). A limit of zero is refused when there is
/// anything to keep.
pub fn truncation_rank(total: usize, chi_max: Option<usize>, chi_err: Option<usize>) -> (r: Result<
    usize,
    LinalgError,
>)
    ensures
        total > 0 && chi_max == Some(0usize) ==> is_invalid_argument(r, chi_max_message()),
        !(total > 0 && chi_max == Some(0usize)) ==> (r matches Ok(k) && k == kept_count(
            total as nat,
            chi_max,
            chi_err,
        )),
        r matches Ok(k) ==> k <= total && (total > 0 ==> k >= 1),
        total > 0 ==> (r matches Ok(k) ==> admissible_count(k as nat, total as nat, chi_max, chi_err) && forall|j: nat|
            #[trigger] admissible_count(j, total as nat, chi_max, chi_err) ==> j <= k),
{
    if total == 0 {
        return Ok(0);
    }
    if chi_max != Some(0usize) {
        proof {
            law_kept_count_bounds(total as nat, chi_max, chi_err);
        }
    }
    let mut chi = total;
    if let Some(c) = chi_max {
        if c == 0 {
            return Err(LinalgError::InvalidArgument("chi_max must be at least 1".to_owned()));
        }
        if c < chi {
            chi = c;
        }
    }
    if let Some(e) = chi_err {
        if e < chi {
            chi = e;
        }
        if chi == 0 {
            chi = 1;
        }
    }
    Ok(chi)
}

/// Keeping `j` of `total` ranked values respects the bounds: at least one,
/// at most `total`, at most `chi_max` when given, and at most `chi_err` when
/// given unless `j` is the single value always kept.
pub open spec fn admissible_count(j: nat, total: nat, chi_max: Option<usize>, chi_err: Option<usize>) -> bool {
    &&& 1 <= j <= total
    &&& (chi_max matches Some(c) ==> j <= c)
    &&& (chi_err matches Some(e) ==> j <= e || j == 1)
}

/// What a truncation keeps, in terms of the bounds alone: of `total > 0`
/// ranked values it keeps at least one and at most `total`; never more than
/// the bond limit `chi_max`; never more than the count `chi_err` the error
/// target allows, or one when that count is zero; and, within those
/// bounds, as many as it can. So with an error target and no bond limit it
/// keeps `max(min(total, chi_err), 1)`, and with neither it keeps all.
pub proof fn law_kept_count_bounds(total: nat, chi_max: Option<usize>, chi_err: Option<usize>)
    requires
        total > 0,
        chi_max != Some(0usize),
    ensures
        ({
            let k = kept_count(total, chi_max, chi_err);
            &&& admissible_count(k, total, chi_max, chi_err)
            &&& forall|j: nat| #[trigger] admissible_count(j, total, chi_max, chi_err) ==> j <= k
            &&& (chi_max is None ==> (chi_err matches Some(e) ==> k == if e == 0 {
                1
            } else if e < total {
                e as nat
            } else {
                total
            }))
            &&& (chi_max is None && chi_err is None ==> k == total)
        }),
{
}

/// How many entries of `s` equal `v`.
pub open spec fn occurrences(s: Seq<usize>, v: usize) -> nat
    decreases s.len(),
{
    if s.len() == 0 {
        0
    } else {
        occurrences(s.drop_last(), v) + if s.last() == v {
            1nat
        } else {
            0nat
        }
    }
}

proof fn lemma_occurrences_bound(s: Seq<usize>, v: usize)
    ensures
        occurrences(s, v) <= s.len(),
    decreases s.len(),
{
    if s.len() > 0 {
        lemma_occurrences_bound(s.drop_last(), v);
    }
}

/// Raising one entry by one raises the sum by one.
proof fn lemma_sum_of_bump(s: Seq<usize>, k: int, x: usize)
    requires
        0 <= k < s.len(),
        x == s[k] + 1,
    ensures
        sum_of(s.update(k, x)) == sum_of(s) + 1,
    decreases s.len(),
{
    let t = s.update(k, x);
    if k == s.len() - 1 {
        assert(t.drop_last() =~= s.drop_last());
    } else {
        lemma_sum_of_bump(s.drop_last(), k, x);
        assert(t.drop_last() =~= s.drop_last().update(k, x));
    }
}

/// Counts, for each of `num_sectors` sectors, how many of the first `chi`
/// entries of the ranking `sectors` (the sector of each value, best value
/// first) belong to it: the number of values that sector keeps. The counts
/// add up to `chi`.
pub fn kept_per_sector(sectors: &[usize], chi: usize, num_sectors: usize) -> (r: Vec<usize>)
    requires
        chi <= sectors@.len(),
        forall|i: int| 0 <= i < chi ==> #[trigger] sectors@[i] < num_sectors,
    ensures
        r@.len() == num_sectors,
        forall|s: int| 0 <= s < num_sectors ==> #[trigger] r@[s] == occurrences(sectors@.take(chi as int), s as usize),
        sum_of(r@) == chi,
{
    let mut counts: Vec<usize> = Vec::new();
    let mut s: usize = 0;
    while s < num_sectors
        invariant
            s <= num_sectors,
            counts@.len() == s,
            forall|t: int| 0 <= t < s ==> #[trigger] counts@[t] == 0,
            sum_of(counts@) == 0,
        decreases num_sectors - s,
    {
        let ghost before = counts@;
        counts.push(0);
        assert(counts@.drop_last() =~= before);
        s = s + 1;
    }
    assert(sectors@.take(0) =~= Seq::<usize>::empty());
    let mut i: usize = 0;
    while i < chi
        invariant
            i <= chi <= sectors@.len(),
            forall|j: int| 0 <= j < chi ==> #[trigger] sectors@[j] < num_sectors,
            counts@.len() == num_sectors,
            forall|t: int| 0 <= t < num_sectors ==> #[trigger] counts@[t] == occurrences(
                sectors@.take(i as int),
                t as usize,
            ),
            sum_of(counts@) == i,
        decreases chi - i,
    {
        let sector = sectors[i];
        assert(sectors@.take(i + 1).drop_last() =~= sectors@.take(i as int));
        proof {
            lemma_occurrences_bound(sectors@.take(i as int), sector);
        }
        let bumped = counts[sector] + 1;
        let ghost before = counts@;
        counts.set(sector, bumped);
        proof {
            lemma_sum_of_bump(before, sector as int, bumped);
        }
        i = i + 1;
    }
    counts
}

} // verus!
