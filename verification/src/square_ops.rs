//! The checks that a block-sparse tensor, split into row and column legs,
//! is a square operator: what solving, inverting and exponentiating it
//! per sector rely on.
//!

use vstd::prelude::*;

use crate::contract_spec::{is_invalid_argument, LinalgError};
use crate::legs::{dual_leg, is_dual_leg, is_same_leg, same_leg, LegShape};
use crate::text::{decimal, push_str, push_usize};

verus! {

/// Message: the rank is not twice the number of row legs.
pub open spec fn mirrored_rank_message(op: Seq<char>, rank: nat, nrow: nat) -> Seq<char> {
    op + " requires a leg-mirrored square operator: rank "@ + decimal(rank) + " must equal 2*nrow="@
        + decimal(2 * nrow)
}

/// Message: a column leg does not mirror its row leg.
pub open spec fn mirrored_leg_message(op: Seq<char>, i: nat, nrow: nat) -> Seq<char> {
    op + " requires a leg-mirrored square operator: column leg "@ + decimal(nrow + i)
        + " is not the dual of row leg "@ + decimal(i)
}

/// The first row leg below `nrow` whose column leg `nrow + i` does not
/// mirror it.
pub open spec fn first_unmirrored(legs: Seq<LegShape>, nrow: nat, i: nat) -> bool {
    &&& i < nrow
    &&& !is_dual_leg(legs[i as int], legs[(nrow + i) as int])
    &&& forall|j: int| 0 <= j < i ==> #[trigger] is_dual_leg(legs[j], legs[nrow + j])
}

/// Checks that the legs `legs` of an operator named `op` split into `nrow`
/// row legs and `nrow` column legs, column leg `nrow + i` mirroring row
/// leg `i`; reports the rank, or the first leg that breaks the mirror.
pub fn validate_leg_mirrored(legs: &[LegShape], nrow: usize, op: &str) -> (r: Result<(), LinalgError>)
    requires
        2 * nrow <= usize::MAX,
    ensures
        legs@.len() != 2 * nrow ==> is_invalid_argument(
            r,
            mirrored_rank_message(op@, legs@.len() as nat, nrow as nat),
        ),
        legs@.len() == 2 * nrow ==> (r is Ok <==> forall|i: int| 0 <= i < nrow ==> #[trigger] is_dual_leg(
            legs@[i],
            legs@[nrow + i],
        )),
        legs@.len() == 2 * nrow && r is Err ==> exists|i: nat| #[trigger] first_unmirrored(legs@, nrow as nat, i)
            && is_invalid_argument(r, mirrored_leg_message(op@, i, nrow as nat)),
{
    let rank = legs.len();
    if rank != 2 * nrow {
        let mut m = op.to_owned();
        push_str(&mut m, " requires a leg-mirrored square operator: rank ");
        push_usize(&mut m, rank);
        push_str(&mut m, " must equal 2*nrow=");
        push_usize(&mut m, 2 * nrow);
        return Err(LinalgError::InvalidArgument(m));
    }
    let mut i: usize = 0;
    while i < nrow
        invariant
            i <= nrow,
            legs@.len() == 2 * nrow,
            forall|j: int| 0 <= j < i ==> #[trigger] is_dual_leg(legs@[j], legs@[nrow + j]),
        decreases nrow - i,
    {
        if !dual_leg(&legs[i], &legs[nrow + i]) {
            let mut m = op.to_owned();
            push_str(&mut m, " requires a leg-mirrored square operator: column leg ");
            push_usize(&mut m, nrow + i);
            push_str(&mut m, " is not the dual of row leg ");
            push_usize(&mut m, i);
            assert(first_unmirrored(legs@, nrow as nat, i as nat));
            return Err(LinalgError::InvalidArgument(m));
        }
        i = i + 1;
    }
    Ok(())
}

/// Message: a row leg of the right-hand side differs from the operator's.
pub open spec fn row_leg_message(i: nat) -> Seq<char> {
    "solve requires B's row legs to match A's row legs (shared free legs): leg "@ + decimal(i)
        + " differs"@
}

/// Checks that the first `nrow` legs of the right-hand side `b` are the
/// operator `a`'s row legs; reports the first that differs.
pub fn check_row_legs_match(a: &[LegShape], b: &[LegShape], nrow: usize) -> (r: Result<(), LinalgError>)
    requires
        nrow <= a@.len(),
        nrow <= b@.len(),
    ensures
        r is Ok <==> forall|i: int| 0 <= i < nrow ==> #[trigger] is_same_leg(a@[i], b@[i]),
        r is Err ==> exists|i: int|
            0 <= i < nrow && !is_same_leg(a@[i], b@[i]) && (forall|j: int| 0 <= j < i ==> #[trigger] is_same_leg(
                a@[j],
                b@[j],
            )) && is_invalid_argument(r, row_leg_message(i as nat)),
{
    let mut i: usize = 0;
    while i < nrow
        invariant
            i <= nrow <= a@.len(),
            nrow <= b@.len(),
            forall|j: int| 0 <= j < i ==> #[trigger] is_same_leg(a@[j], b@[j]),
        decreases nrow - i,
    {
        if !same_leg(&a[i], &b[i]) {
            let mut m = "solve requires B's row legs to match A's row legs (shared free legs): leg ".to_owned();
            push_usize(&mut m, i);
            push_str(&mut m, " differs");
            return Err(LinalgError::InvalidArgument(m));
        }
        i = i + 1;
    }
    Ok(())
}

/// The total dimension of a leg: the sum of its block dimensions.
pub open spec fn leg_dim(blocks: Seq<(u64, usize)>) -> nat
    decreases blocks.len(),
{
    if blocks.len() == 0 {
        0
    } else {
        leg_dim(blocks.drop_last()) + blocks.last().1 as nat
    }
}

/// The dimension spanned by `legs`: the product of their total dimensions.
pub open spec fn legs_dim(legs: Seq<LegShape>) -> nat
    decreases legs.len(),
{
    if legs.len() == 0 {
        1
    } else {
        legs_dim(legs.drop_last()) * leg_dim(legs.last().blocks@)
    }
}

/// The total dimension of a leg adds up over its blocks: none for no
/// blocks, a block's own dimension for one block, and the sum of the parts
/// for a leg whose blocks are split in two.
pub proof fn law_leg_dim_additive(a: Seq<(u64, usize)>, b: Seq<(u64, usize)>, x: (u64, usize))
    ensures
        leg_dim(Seq::empty()) == 0,
        leg_dim(seq![x]) == x.1,
        leg_dim(a + b) == leg_dim(a) + leg_dim(b),
    decreases b.len(),
{
    assert(seq![x].drop_last() =~= Seq::<(u64, usize)>::empty());
    if b.len() == 0 {
        assert(a + b =~= a);
    } else {
        assert((a + b).drop_last() =~= a + b.drop_last());
        assert((a + b).last() == b.last());
        law_leg_dim_additive(a, b.drop_last(), x);
    }
}

/// The dimension spanned by legs multiplies: one for no legs, a leg's own
/// total dimension for one leg, and the product of the parts for legs
/// split in two. So row legs of dimensions `d1` and `d2` span `d1 * d2`.
pub proof fn law_legs_dim_multiplicative(a: Seq<LegShape>, b: Seq<LegShape>, l: LegShape)
    ensures
        legs_dim(Seq::empty()) == 1,
        legs_dim(seq![l]) == leg_dim(l.blocks@),
        legs_dim(a + b) == legs_dim(a) * legs_dim(b),
    decreases b.len(),
{
    assert(seq![l].drop_last() =~= Seq::<LegShape>::empty());
    assert(seq![l].last() == l);
    assert(legs_dim(seq![l]) == legs_dim(Seq::<LegShape>::empty()) * leg_dim(l.blocks@));
    if b.len() == 0 {
        assert(a + b =~= a);
        assert(legs_dim(b) == 1);
    } else {
        let bd = b.drop_last();
        assert((a + b).drop_last() =~= a + bd);
        assert((a + b).last() == b.last());
        law_legs_dim_multiplicative(a, bd, l);
        let x = legs_dim(a);
        let y = legs_dim(bd);
        let z = leg_dim(b.last().blocks@);
        assert(legs_dim(a + b) == legs_dim(a + bd) * z);
        assert(legs_dim(b) == y * z);
        assert((x * y) * z == x * (y * z)) by (nonlinear_arith);
    }
}

/// Every leg's total dimension, and the product over every prefix of
/// `legs`, fit in a `usize`.
pub open spec fn legs_dim_fits(legs: Seq<LegShape>) -> bool {
    &&& forall|k: int| 0 <= k < legs.len() ==> #[trigger] leg_dim(legs[k].blocks@) <= usize::MAX
    &&& forall|k: int| 0 <= k <= legs.len() ==> #[trigger] legs_dim(legs.take(k)) <= usize::MAX
}

proof fn lemma_leg_dim_prefix(blocks: Seq<(u64, usize)>, i: int)
    requires
        0 <= i <= blocks.len(),
    ensures
        leg_dim(blocks.take(i)) <= leg_dim(blocks),
    decreases blocks.len(),
{
    if i < blocks.len() {
        assert(blocks.drop_last().take(i) =~= blocks.take(i));
        lemma_leg_dim_prefix(blocks.drop_last(), i);
    } else {
        assert(blocks.take(i) =~= blocks);
    }
}

/// The total dimension of one leg.
fn leg_total(blocks: &Vec<(u64, usize)>) -> (r: usize)
    requires
        leg_dim(blocks@) <= usize::MAX,
    ensures
        r == leg_dim(blocks@),
{
    let mut sum: usize = 0;
    let mut i: usize = 0;
    assert(blocks@.take(0) =~= Seq::<(u64, usize)>::empty());
    while i < blocks.len()
        invariant
            i <= blocks@.len(),
            leg_dim(blocks@) <= usize::MAX,
            sum == leg_dim(blocks@.take(i as int)),
        decreases blocks.len() - i,
    {
        assert(blocks@.take(i + 1).drop_last() =~= blocks@.take(i as int));
        proof {
            lemma_leg_dim_prefix(blocks@, i + 1);
        }
        sum = sum + blocks[i].1;
        i = i + 1;
    }
    assert(blocks@.take(i as int) =~= blocks@);
    sum
}

/// The dimension spanned by the legs `legs[lo..hi]`.
fn leg_dim_product(legs: &[LegShape], lo: usize, hi: usize) -> (r: usize)
    requires
        lo <= hi <= legs@.len(),
        legs_dim_fits(legs@.subrange(lo as int, hi as int)),
    ensures
        r == legs_dim(legs@.subrange(lo as int, hi as int)),
{
    let ghost span = legs@.subrange(lo as int, hi as int);
    let mut acc: usize = 1;
    let mut k: usize = lo;
    assert(span.take(0) =~= Seq::<LegShape>::empty());
    while k < hi
        invariant
            lo <= k <= hi <= legs@.len(),
            span == legs@.subrange(lo as int, hi as int),
            legs_dim_fits(span),
            acc == legs_dim(span.take(k - lo)),
        decreases hi - k,
    {
        assert(span.take(k + 1 - lo).drop_last() =~= span.take(k - lo));
        assert(span.take(k + 1 - lo).last() == legs@[k as int]);
        assert(span[k - lo] == legs@[k as int]);
        assert(legs_dim(span.take(k + 1 - lo)) <= usize::MAX);
        let d = leg_total(&legs[k].blocks);
        acc = acc * d;
        k = k + 1;
    }
    assert(span.take(hi - lo) =~= span);
    acc
}

/// The sum of the row dimensions of the groups `dims`.
pub open spec fn sum_rows(dims: Seq<(usize, usize)>) -> nat
    decreases dims.len(),
{
    if dims.len() == 0 {
        0
    } else {
        sum_rows(dims.drop_last()) + dims.last().0 as nat
    }
}

/// The sum of the column dimensions of the groups `dims`.
pub open spec fn sum_cols(dims: Seq<(usize, usize)>) -> nat
    decreases dims.len(),
{
    if dims.len() == 0 {
        0
    } else {
        sum_cols(dims.drop_last()) + dims.last().1 as nat
    }
}

/// Message: a matched sector's block is not square.
pub open spec fn square_sector_message(op: Seq<char>, sector: Seq<char>, m: nat, n: nat) -> Seq<char> {
    op + " requires a square operator: fused sector "@ + sector + " has a "@ + decimal(m) + "x"@ + decimal(
        n,
    ) + " block"@
}

/// Message: the matched sectors miss part of the row or column space.
pub open spec fn square_cover_message(op: Seq<char>, ml: nat, tl: nat, mr: nat, tr: nat) -> Seq<char> {
    op + " requires a square operator: matched fused sectors cover "@ + decimal(ml) + "/"@ + decimal(tl)
        + " row and "@ + decimal(mr) + "/"@ + decimal(tr)
        + " column dimensions, so a sector has no matching partner"@
}

/// Group `i` is the first whose block is not square.
pub open spec fn first_rectangular(dims: Seq<(usize, usize)>, i: int) -> bool {
    &&& 0 <= i < dims.len()
    &&& dims[i].0 != dims[i].1
    &&& forall|j: int| 0 <= j < i ==> #[trigger] dims[j].0 == dims[j].1
}

proof fn lemma_sums_prefix(dims: Seq<(usize, usize)>, i: int)
    requires
        0 <= i <= dims.len(),
    ensures
        sum_rows(dims.take(i)) <= sum_rows(dims),
        sum_cols(dims.take(i)) <= sum_cols(dims),
    decreases dims.len(),
{
    if i < dims.len() {
        assert(dims.drop_last().take(i) =~= dims.take(i));
        lemma_sums_prefix(dims.drop_last(), i);
    } else {
        assert(dims.take(i) =~= dims);
    }
}

/// Checks that the fused-sector groups of an operator named `op`, with row
/// and column dimensions `dims` and sectors printed as `sector_names`, form
/// a square operator over the legs `legs`, the first `nrow` of them rows:
/// each group square, and the groups together covering the whole row and
/// column space (a sector with no partner leaves part of it uncovered).
pub fn validate_square_universe(
    dims: &[(usize, usize)],
    sector_names: &[String],
    legs: &[LegShape],
    nrow: usize,
    op: &str,
) -> (r: Result<(), LinalgError>)
    requires
        sector_names@.len() == dims@.len(),
        nrow <= legs@.len(),
        legs_dim_fits(legs@.take(nrow as int)),
        legs_dim_fits(legs@.skip(nrow as int)),
        sum_rows(dims@) <= usize::MAX,
        sum_cols(dims@) <= usize::MAX,
    ensures
        forall|i: int| #[trigger] first_rectangular(dims@, i) ==> is_invalid_argument(
            r,
            square_sector_message(op@, sector_names@[i]@, dims@[i].0 as nat, dims@[i].1 as nat),
        ),
        (forall|j: int| 0 <= j < dims@.len() ==> #[trigger] dims@[j].0 == dims@[j].1) ==> {
            let tl = legs_dim(legs@.take(nrow as int));
            let tr = legs_dim(legs@.skip(nrow as int));
            if sum_rows(dims@) == tl && sum_cols(dims@) == tr {
                r is Ok
            } else {
                is_invalid_argument(r, square_cover_message(op@, sum_rows(dims@), tl, sum_cols(dims@), tr))
            }
        },
{
    assert(legs@.subrange(0, nrow as int) =~= legs@.take(nrow as int));
    assert(legs@.subrange(nrow as int, legs@.len() as int) =~= legs@.skip(nrow as int));
    let total_left = leg_dim_product(legs, 0, nrow);
    let total_right = leg_dim_product(legs, nrow, legs.len());
    let mut matched_left: usize = 0;
    let mut matched_right: usize = 0;
    let mut g: usize = 0;
    assert(dims@.take(0) =~= Seq::<(usize, usize)>::empty());
    while g < dims.len()
        invariant
            g <= dims@.len() == sector_names@.len(),
            sum_rows(dims@) <= usize::MAX,
            sum_cols(dims@) <= usize::MAX,
            forall|j: int| 0 <= j < g ==> #[trigger] dims@[j].0 == dims@[j].1,
            matched_left == sum_rows(dims@.take(g as int)),
            matched_right == sum_cols(dims@.take(g as int)),
        decreases dims.len() - g,
    {
        let (m, n) = dims[g];
        if m != n {
            let mut msg = op.to_owned();
            push_str(&mut msg, " requires a square operator: fused sector ");
            push_str(&mut msg, sector_names[g].as_str());
            push_str(&mut msg, " has a ");
            push_usize(&mut msg, m);
            push_str(&mut msg, "x");
            push_usize(&mut msg, n);
            push_str(&mut msg, " block");
            assert(first_rectangular(dims@, g as int));
            assert forall|i: int| #[trigger] first_rectangular(dims@, i) implies i == g by {
                if i < g {
                    assert(dims@[i].0 == dims@[i].1);
                }
                if i > g {
                    assert(dims@[g as int].0 == dims@[g as int].1);
                }
            }
            return Err(LinalgError::InvalidArgument(msg));
        }
        assert(dims@.take(g + 1).drop_last() =~= dims@.take(g as int));
        proof {
            lemma_sums_prefix(dims@, g + 1);
        }
        matched_left = matched_left + m;
        matched_right = matched_right + n;
        g = g + 1;
    }
    assert(dims@.take(g as int) =~= dims@);
    if matched_left != total_left || matched_right != total_right {
        let mut msg = op.to_owned();
        push_str(&mut msg, " requires a square operator: matched fused sectors cover ");
        push_usize(&mut msg, matched_left);
        push_str(&mut msg, "/");
        push_usize(&mut msg, total_left);
        push_str(&mut msg, " row and ");
        push_usize(&mut msg, matched_right);
        push_str(&mut msg, "/");
        push_usize(&mut msg, total_right);
        push_str(&mut msg, " column dimensions, so a sector has no matching partner");
        return Err(LinalgError::InvalidArgument(msg));
    }
    Ok(())
}

} // verus!
