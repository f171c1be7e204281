//! The legs of a block-sparse tensor as the compatibility checks read
//! them: a direction and a list of blocks, each block given by an integer
//! naming its sector and by its dimension. Two legs have the same block
//! structure when those lists are equal.

use vstd::prelude::*;

use crate::contract_spec::{
    axes_pair_check, is_invalid_argument, lemma_axes_check_ok, validate_contraction_axes_pair, LinalgError,
};
use crate::text::{decimal, push_str, push_usize};

verus! {

/// The direction of a leg.
#[derive(Clone, Copy, Debug, PartialEq, Eq, Structural)]
pub enum LegDirection {
    In,
    Out,
}

/// The block structure of a leg: its direction and, per block, the sector
/// (by an integer naming it) and the dimension.
#[derive(Clone, Debug)]
pub struct LegShape {
    pub direction: LegDirection,
    pub blocks: Vec<(u64, usize)>,
}

/// `right` mirrors `left`: the same blocks, the other direction.
pub open spec fn is_dual_leg(left: LegShape, right: LegShape) -> bool {
    left.direction != right.direction && left.blocks@ == right.blocks@
}

/// `a` and `b` are the same leg: the same blocks and direction.
pub open spec fn is_same_leg(a: LegShape, b: LegShape) -> bool {
    a.direction == b.direction && a.blocks@ == b.blocks@
}

/// Compares the block lists of two legs.
pub(crate) fn same_blocks(a: &Vec<(u64, usize)>, b: &Vec<(u64, usize)>) -> (r: bool)
    ensures
        r == (a@ == b@),
{
    if a.len() != b.len() {
        return false;
    }
    let mut i: usize = 0;
    while i < a.len()
        invariant
            i <= a@.len() == b@.len(),
            forall|j: int| 0 <= j < i ==> a@[j] == b@[j],
        decreases a.len() - i,
    {
        let (sa, da) = a[i];
        let (sb, db) = b[i];
        if sa != sb || da != db {
            return false;
        }
        i = i + 1;
    }
    assert(a@ =~= b@);
    true
}

/// Tests [`is_dual_leg`].
pub fn dual_leg(left: &LegShape, right: &LegShape) -> (r: bool)
    ensures
        r == is_dual_leg(*left, *right),
{
    left.direction != right.direction && same_blocks(&left.blocks, &right.blocks)
}

/// Tests [`is_same_leg`].
pub fn same_leg(a: &LegShape, b: &LegShape) -> (r: bool)
    ensures
        r == is_same_leg(*a, *b),
{
    a.direction == b.direction && same_blocks(&a.blocks, &b.blocks)
}

/// Why two legs paired by a contraction cannot be contracted.
#[derive(Clone, Copy, Debug, PartialEq, Eq, Structural)]
pub enum LegMismatch {
    /// Pair `pair`, axes `lhs_axis` and `rhs_axis`, point the same way.
    SameDirection { pair: usize, lhs_axis: usize, rhs_axis: usize, direction: LegDirection },
    /// Pair `pair` has different numbers of blocks on its two legs.
    BlockCount { pair: usize, lhs: usize, rhs: usize },
    /// Block `block` of pair `pair` carries different sectors.
    Sector { pair: usize, block: usize, lhs_sector: u64, rhs_sector: u64 },
    /// Block `block` of pair `pair` has different dimensions.
    Dim { pair: usize, block: usize, lhs: usize, rhs: usize },
}

/// The first block from `j` on where the block lists `l` and `r` (of equal
/// length) differ, in sector first, then in dimension.
pub open spec fn first_block_mismatch(l: Seq<(u64, usize)>, r: Seq<(u64, usize)>, pair: usize, j: int) -> Option<
    LegMismatch,
>
    decreases l.len() - j,
{
    if j < 0 || j >= l.len() {
        None
    } else if l[j].0 != r[j].0 {
        Some(LegMismatch::Sector { pair, block: j as usize, lhs_sector: l[j].0, rhs_sector: r[j].0 })
    } else if l[j].1 != r[j].1 {
        Some(LegMismatch::Dim { pair, block: j as usize, lhs: l[j].1, rhs: r[j].1 })
    } else {
        first_block_mismatch(l, r, pair, j + 1)
    }
}

/// Why the leg `l` (axis `al` of the left operand) cannot be contracted
/// with the leg `r` (axis `ar` of the right one) as pair `pair`, if it
/// cannot: they must point opposite ways and have the same blocks.
pub open spec fn leg_mismatch(l: LegShape, r: LegShape, pair: usize, al: usize, ar: usize) -> Option<LegMismatch> {
    if l.direction == r.direction {
        Some(LegMismatch::SameDirection { pair, lhs_axis: al, rhs_axis: ar, direction: l.direction })
    } else if l.blocks@.len() != r.blocks@.len() {
        Some(LegMismatch::BlockCount { pair, lhs: l.blocks@.len() as usize, rhs: r.blocks@.len() as usize })
    } else {
        first_block_mismatch(l.blocks@, r.blocks@, pair, 0)
    }
}

/// The first of the pairs from `i` on that cannot be contracted, and why.
pub open spec fn first_pair_mismatch(
    lhs: Seq<LegShape>,
    rhs: Seq<LegShape>,
    axes_lhs: Seq<usize>,
    axes_rhs: Seq<usize>,
    i: int,
) -> Option<LegMismatch>
    decreases axes_lhs.len() - i,
{
    if i < 0 || i >= axes_lhs.len() {
        None
    } else {
        match leg_mismatch(lhs[axes_lhs[i] as int], rhs[axes_rhs[i] as int], i as usize, axes_lhs[i], axes_rhs[i]) {
            Some(m) => Some(m),
            None => first_pair_mismatch(lhs, rhs, axes_lhs, axes_rhs, i + 1),
        }
    }
}

/// The pair a mismatch is reported for.
pub open spec fn mismatch_pair(m: LegMismatch) -> usize {
    match m {
        LegMismatch::SameDirection { pair, .. } => pair,
        LegMismatch::BlockCount { pair, .. } => pair,
        LegMismatch::Sector { pair, .. } => pair,
        LegMismatch::Dim { pair, .. } => pair,
    }
}

/// `m` truly describes why the leg `l` (axis `al`) cannot be contracted
/// with the leg `r` (axis `ar`): they point the same way; or they differ in
/// their number of blocks; or, at block `block`, with all earlier blocks
/// equal, they carry different sectors, or the same sector with different
/// dimensions. The values `m` carries are those of the legs.
pub open spec fn explains(l: LegShape, r: LegShape, al: usize, ar: usize, m: LegMismatch) -> bool {
    let lb = l.blocks@;
    let rb = r.blocks@;
    match m {
        LegMismatch::SameDirection { lhs_axis, rhs_axis, direction, .. } => lhs_axis == al && rhs_axis == ar
            && l.direction == direction && r.direction == direction,
        LegMismatch::BlockCount { lhs, rhs, .. } => l.direction != r.direction && lhs == lb.len() && rhs
            == rb.len() && lhs != rhs,
        LegMismatch::Sector { block, lhs_sector, rhs_sector, .. } => {
            &&& l.direction != r.direction
            &&& lb.len() == rb.len()
            &&& block < lb.len()
            &&& forall|b: int| 0 <= b < block ==> #[trigger] lb[b] == rb[b]
            &&& lb[block as int].0 == lhs_sector && rb[block as int].0 == rhs_sector && lhs_sector != rhs_sector
        },
        LegMismatch::Dim { block, lhs, rhs, .. } => {
            &&& l.direction != r.direction
            &&& lb.len() == rb.len()
            &&& block < lb.len()
            &&& forall|b: int| 0 <= b < block ==> #[trigger] lb[b] == rb[b]
            &&& lb[block as int].0 == rb[block as int].0
            &&& lb[block as int].1 == lhs && rb[block as int].1 == rhs && lhs != rhs
        },
    }
}

proof fn lemma_first_block_mismatch(l: Seq<(u64, usize)>, r: Seq<(u64, usize)>, pair: usize, j: int)
    requires
        l.len() == r.len() <= usize::MAX,
        0 <= j <= l.len(),
        forall|b: int| 0 <= b < j ==> #[trigger] l[b] == r[b],
    ensures
        first_block_mismatch(l, r, pair, j) is None <==> l == r,
        first_block_mismatch(l, r, pair, j) matches Some(m) ==> mismatch_pair(m) == pair && match m {
            LegMismatch::Sector { block, lhs_sector, rhs_sector, .. } => {
                &&& j <= block < l.len()
                &&& forall|b: int| 0 <= b < block ==> #[trigger] l[b] == r[b]
                &&& l[block as int].0 == lhs_sector && r[block as int].0 == rhs_sector && lhs_sector != rhs_sector
            },
            LegMismatch::Dim { block, lhs, rhs, .. } => {
                &&& j <= block < l.len()
                &&& forall|b: int| 0 <= b < block ==> #[trigger] l[b] == r[b]
                &&& l[block as int].0 == r[block as int].0
                &&& l[block as int].1 == lhs && r[block as int].1 == rhs && lhs != rhs
            },
            _ => false,
        },
    decreases l.len() - j,
{
    if j == l.len() {
        assert(l =~= r);
    } else if l[j].0 != r[j].0 || l[j].1 != r[j].1 {
        assert(l[j] != r[j]);
    } else {
        assert(l[j] == r[j]);
        lemma_first_block_mismatch(l, r, pair, j + 1);
    }
}

proof fn lemma_first_pair_mismatch(
    lhs: Seq<LegShape>,
    rhs: Seq<LegShape>,
    axes_lhs: Seq<usize>,
    axes_rhs: Seq<usize>,
    i: int,
)
    requires
        axes_lhs.len() == axes_rhs.len() <= usize::MAX,
        0 <= i <= axes_lhs.len(),
    ensures
        first_pair_mismatch(lhs, rhs, axes_lhs, axes_rhs, i) is None <==> forall|k: int|
            i <= k < axes_lhs.len() ==> #[trigger] is_dual_leg(lhs[axes_lhs[k] as int], rhs[axes_rhs[k] as int]),
        first_pair_mismatch(lhs, rhs, axes_lhs, axes_rhs, i) matches Some(m) ==> {
            let p = mismatch_pair(m) as int;
            &&& i <= p < axes_lhs.len()
            &&& forall|k: int| i <= k < p ==> #[trigger] is_dual_leg(lhs[axes_lhs[k] as int], rhs[axes_rhs[k] as int])
            &&& !is_dual_leg(lhs[axes_lhs[p] as int], rhs[axes_rhs[p] as int])
            &&& explains(lhs[axes_lhs[p] as int], rhs[axes_rhs[p] as int], axes_lhs[p], axes_rhs[p], m)
        },
    decreases axes_lhs.len() - i,
{
    if i < axes_lhs.len() {
        let l = lhs[axes_lhs[i] as int];
        let r = rhs[axes_rhs[i] as int];
        assert(l.blocks.len() == l.blocks@.len() && r.blocks.len() == r.blocks@.len());
        lemma_first_pair_mismatch(lhs, rhs, axes_lhs, axes_rhs, i + 1);
        if l.direction != r.direction && l.blocks@.len() == r.blocks@.len() {
            lemma_first_block_mismatch(l.blocks@, r.blocks@, i as usize, 0);
        }
        if l.direction != r.direction && l.blocks@.len() != r.blocks@.len() {
            assert(l.blocks@ != r.blocks@);
        }
        if leg_mismatch(l, r, i as usize, axes_lhs[i], axes_rhs[i]) is None {
            assert(is_dual_leg(l, r));
        } else {
            assert(!is_dual_leg(l, r));
        }
    }
}

/// Contracted legs are checked exactly: no mismatch is found precisely
/// when every contracted pair of legs is dual (opposite directions, the
/// same sector and dimension at every block); a mismatch found is reported
/// for the first pair that is not dual, and truly describes how its legs
/// differ.
pub proof fn law_contracted_legs_dual(
    lhs: Seq<LegShape>,
    rhs: Seq<LegShape>,
    axes_lhs: Seq<usize>,
    axes_rhs: Seq<usize>,
)
    requires
        axes_lhs.len() == axes_rhs.len() <= usize::MAX,
    ensures
        first_pair_mismatch(lhs, rhs, axes_lhs, axes_rhs, 0) is None <==> forall|k: int|
            0 <= k < axes_lhs.len() ==> #[trigger] is_dual_leg(lhs[axes_lhs[k] as int], rhs[axes_rhs[k] as int]),
        first_pair_mismatch(lhs, rhs, axes_lhs, axes_rhs, 0) matches Some(m) ==> {
            let p = mismatch_pair(m) as int;
            &&& 0 <= p < axes_lhs.len()
            &&& forall|k: int| 0 <= k < p ==> #[trigger] is_dual_leg(lhs[axes_lhs[k] as int], rhs[axes_rhs[k] as int])
            &&& !is_dual_leg(lhs[axes_lhs[p] as int], rhs[axes_rhs[p] as int])
            &&& explains(lhs[axes_lhs[p] as int], rhs[axes_rhs[p] as int], axes_lhs[p], axes_rhs[p], m)
        },
{
    lemma_first_pair_mismatch(lhs, rhs, axes_lhs, axes_rhs, 0);
}

/// The first block where two block lists of equal length differ.
fn block_mismatch(l: &Vec<(u64, usize)>, r: &Vec<(u64, usize)>, pair: usize) -> (m: Option<LegMismatch>)
    requires
        l@.len() == r@.len(),
    ensures
        m == first_block_mismatch(l@, r@, pair, 0),
{
    let mut j: usize = 0;
    while j < l.len()
        invariant
            j <= l@.len() == r@.len(),
            first_block_mismatch(l@, r@, pair, 0) == first_block_mismatch(l@, r@, pair, j as int),
        decreases l.len() - j,
    {
        let (sl, dl) = l[j];
        let (sr, dr) = r[j];
        if sl != sr {
            return Some(LegMismatch::Sector { pair, block: j, lhs_sector: sl, rhs_sector: sr });
        }
        if dl != dr {
            return Some(LegMismatch::Dim { pair, block: j, lhs: dl, rhs: dr });
        }
        j = j + 1;
    }
    None
}

/// Checks that each pair of contracted legs, axis `axes_lhs[i]` of the
/// left operand (legs `lhs`) against axis `axes_rhs[i]` of the right one
/// (legs `rhs`), point opposite ways and have the same blocks; returns the
/// first pair that does not, and why.
pub fn check_contracted_legs(
    lhs: &[LegShape],
    rhs: &[LegShape],
    axes_lhs: &[usize],
    axes_rhs: &[usize],
) -> (m: Option<LegMismatch>)
    requires
        axes_lhs@.len() == axes_rhs@.len(),
        forall|i: int| 0 <= i < axes_lhs@.len() ==> #[trigger] axes_lhs@[i] < lhs@.len(),
        forall|i: int| 0 <= i < axes_rhs@.len() ==> #[trigger] axes_rhs@[i] < rhs@.len(),
    ensures
        m == first_pair_mismatch(lhs@, rhs@, axes_lhs@, axes_rhs@, 0),
        m is None <==> forall|k: int|
            0 <= k < axes_lhs@.len() ==> #[trigger] is_dual_leg(lhs@[axes_lhs@[k] as int], rhs@[axes_rhs@[k] as int]),
{
    assert(axes_lhs@.len() == axes_lhs.len());
    proof {
        law_contracted_legs_dual(lhs@, rhs@, axes_lhs@, axes_rhs@);
    }
    let mut i: usize = 0;
    while i < axes_lhs.len()
        invariant
            i <= axes_lhs@.len() == axes_rhs@.len(),
            forall|k: int| 0 <= k < axes_lhs@.len() ==> #[trigger] axes_lhs@[k] < lhs@.len(),
            forall|k: int| 0 <= k < axes_rhs@.len() ==> #[trigger] axes_rhs@[k] < rhs@.len(),
            first_pair_mismatch(lhs@, rhs@, axes_lhs@, axes_rhs@, 0) == first_pair_mismatch(
                lhs@,
                rhs@,
                axes_lhs@,
                axes_rhs@,
                i as int,
            ),
            first_pair_mismatch(lhs@, rhs@, axes_lhs@, axes_rhs@, 0) is None <==> forall|k: int|
                0 <= k < axes_lhs@.len() ==> #[trigger] is_dual_leg(lhs@[axes_lhs@[k] as int], rhs@[axes_rhs@[k] as int]),
        decreases axes_lhs.len() - i,
    {
        let al = axes_lhs[i];
        let ar = axes_rhs[i];
        let l = &lhs[al];
        let r = &rhs[ar];
        if l.direction == r.direction {
            return Some(LegMismatch::SameDirection { pair: i, lhs_axis: al, rhs_axis: ar, direction: l.direction });
        }
        if l.blocks.len() != r.blocks.len() {
            return Some(LegMismatch::BlockCount { pair: i, lhs: l.blocks.len(), rhs: r.blocks.len() });
        }
        let found = block_mismatch(&l.blocks, &r.blocks, i);
        if found.is_some() {
            return found;
        }
        i = i + 1;
    }
    None
}

/// Message: the two legs of a traced pair have different blocks.
pub open spec fn trace_structure_message(a: nat, b: nat) -> Seq<char> {
    "Traced pair ("@ + decimal(a) + ", "@ + decimal(b) + ") must have identical QN block structure"@
}

/// Message: the two legs of a traced pair point the same way.
pub open spec fn trace_direction_message(a: nat, b: nat) -> Seq<char> {
    "Traced pair ("@ + decimal(a) + ", "@ + decimal(b) + ") must have opposite leg directions"@
}

/// The legs of pair `k` of a trace can be traced: the same blocks, the
/// opposite directions.
pub open spec fn traceable_pair(legs: Seq<LegShape>, pairs: Seq<(usize, usize)>, k: int) -> bool {
    is_dual_leg(legs[pairs[k].0 as int], legs[pairs[k].1 as int])
}

/// Checks that each pair of legs a partial trace ties together can be
/// traced: identical blocks (so the diagonal stays within sectors) and
/// opposite directions (so the trace keeps the flux); reports the first
/// pair that cannot, block structure first.
pub fn check_trace_pair_legs(legs: &[LegShape], pairs: &[(usize, usize)]) -> (r: Result<(), LinalgError>)
    requires
        forall|k: int| 0 <= k < pairs@.len() ==> #[trigger] pairs@[k].0 < legs@.len() && pairs@[k].1 < legs@.len(),
    ensures
        r is Ok <==> forall|k: int| 0 <= k < pairs@.len() ==> #[trigger] traceable_pair(legs@, pairs@, k),
        r is Err ==> exists|k: int|
            0 <= k < pairs@.len() && !traceable_pair(legs@, pairs@, k) && (forall|j: int|
                0 <= j < k ==> #[trigger] traceable_pair(legs@, pairs@, j)) && if legs@[pairs@[k].0 as int].blocks@
                != legs@[pairs@[k].1 as int].blocks@ {
                is_invalid_argument(r, trace_structure_message(pairs@[k].0 as nat, pairs@[k].1 as nat))
            } else {
                is_invalid_argument(r, trace_direction_message(pairs@[k].0 as nat, pairs@[k].1 as nat))
            },
{
    let mut k: usize = 0;
    while k < pairs.len()
        invariant
            k <= pairs@.len(),
            forall|j: int| 0 <= j < pairs@.len() ==> #[trigger] pairs@[j].0 < legs@.len() && pairs@[j].1 < legs@.len(),
            forall|j: int| 0 <= j < k ==> #[trigger] traceable_pair(legs@, pairs@, j),
        decreases pairs.len() - k,
    {
        let (a, b) = pairs[k];
        if !same_blocks(&legs[a].blocks, &legs[b].blocks) {
            let mut m = "Traced pair (".to_owned();
            push_usize(&mut m, a);
            push_str(&mut m, ", ");
            push_usize(&mut m, b);
            push_str(&mut m, ") must have identical QN block structure");
            assert(!traceable_pair(legs@, pairs@, k as int));
            return Err(LinalgError::InvalidArgument(m));
        }
        if legs[a].direction == legs[b].direction {
            let mut m = "Traced pair (".to_owned();
            push_usize(&mut m, a);
            push_str(&mut m, ", ");
            push_usize(&mut m, b);
            push_str(&mut m, ") must have opposite leg directions");
            assert(!traceable_pair(legs@, pairs@, k as int));
            return Err(LinalgError::InvalidArgument(m));
        }
        k = k + 1;
    }
    Ok(())
}

/// How a leg direction prints.
pub open spec fn direction_text(d: LegDirection) -> Seq<char> {
    match d {
        LegDirection::In => "In"@,
        LegDirection::Out => "Out"@,
    }
}

/// Every block of every leg in `legs` names a sector below `n`.
pub open spec fn sectors_named(legs: Seq<LegShape>, n: nat) -> bool {
    forall|k: int, j: int|
        0 <= k < legs.len() && 0 <= j < legs[k].blocks@.len() ==> (#[trigger] legs[k].blocks@[j]).0 < n
}

/// The printed names of the sectors, by sector id.
pub open spec fn names_view(names: Seq<String>) -> Seq<Seq<char>> {
    names.map_values(|t: String| t@)
}

/// The error text for a pair of legs that cannot be contracted, with each
/// sector printed as `names` gives it.
pub open spec fn mismatch_message(m: LegMismatch, names: Seq<Seq<char>>) -> Seq<char> {
    match m {
        LegMismatch::SameDirection { pair, lhs_axis, rhs_axis, direction } => "Contracted pair "@ + decimal(
            pair as nat,
        ) + ": axes ("@ + decimal(lhs_axis as nat) + ", "@ + decimal(rhs_axis as nat) + ") have same direction "@
            + direction_text(direction),
        LegMismatch::BlockCount { pair, lhs, rhs } => "Contracted pair "@ + decimal(pair as nat)
            + ": sector count mismatch "@ + decimal(lhs as nat) + " vs "@ + decimal(rhs as nat),
        LegMismatch::Sector { pair, block, lhs_sector, rhs_sector } => "Contracted pair "@ + decimal(pair as nat)
            + ": sector mismatch at block "@ + decimal(block as nat) + ": "@ + names[lhs_sector as int] + " vs "@
            + names[rhs_sector as int],
        LegMismatch::Dim { pair, block, lhs, rhs } => "Contracted pair "@ + decimal(pair as nat)
            + ": dim mismatch at block "@ + decimal(block as nat) + ": "@ + decimal(lhs as nat) + " vs "@ + decimal(
            rhs as nat,
        ),
    }
}

/// The sectors a block mismatch names are sectors of the two legs.
proof fn lemma_block_mismatch_sectors(l: Seq<(u64, usize)>, r: Seq<(u64, usize)>, pair: usize, j: int, n: nat)
    requires
        l.len() == r.len(),
        forall|b: int| 0 <= b < l.len() ==> (#[trigger] l[b]).0 < n,
        forall|b: int| 0 <= b < r.len() ==> (#[trigger] r[b]).0 < n,
    ensures
        first_block_mismatch(l, r, pair, j) matches Some(LegMismatch::Sector { lhs_sector, rhs_sector, .. })
            ==> lhs_sector < n && rhs_sector < n,
    decreases l.len() - j,
{
    if 0 <= j < l.len() && l[j].0 == r[j].0 && l[j].1 == r[j].1 {
        lemma_block_mismatch_sectors(l, r, pair, j + 1, n);
    }
}

/// The sectors a pair mismatch names are sectors of the legs.
proof fn lemma_pair_mismatch_sectors(
    lhs: Seq<LegShape>,
    rhs: Seq<LegShape>,
    axes_lhs: Seq<usize>,
    axes_rhs: Seq<usize>,
    i: int,
    n: nat,
)
    requires
        axes_lhs.len() == axes_rhs.len(),
        forall|k: int| 0 <= k < axes_lhs.len() ==> #[trigger] axes_lhs[k] < lhs.len(),
        forall|k: int| 0 <= k < axes_rhs.len() ==> #[trigger] axes_rhs[k] < rhs.len(),
        sectors_named(lhs, n),
        sectors_named(rhs, n),
    ensures
        first_pair_mismatch(lhs, rhs, axes_lhs, axes_rhs, i) matches Some(
            LegMismatch::Sector { lhs_sector, rhs_sector, .. },
        ) ==> lhs_sector < n && rhs_sector < n,
    decreases axes_lhs.len() - i,
{
    if 0 <= i < axes_lhs.len() {
        let l = lhs[axes_lhs[i] as int];
        let r = rhs[axes_rhs[i] as int];
        assert(axes_lhs[i] < lhs.len() && axes_rhs[i] < rhs.len());
        if l.direction != r.direction && l.blocks@.len() == r.blocks@.len() {
            assert forall|b: int| 0 <= b < l.blocks@.len() implies (#[trigger] l.blocks@[b]).0 < n by {
                assert(lhs[axes_lhs[i] as int].blocks@[b].0 < n);
            }
            assert forall|b: int| 0 <= b < r.blocks@.len() implies (#[trigger] r.blocks@[b]).0 < n by {
                assert(rhs[axes_rhs[i] as int].blocks@[b].0 < n);
            }
            lemma_block_mismatch_sectors(l.blocks@, r.blocks@, i as usize, 0, n);
        }
        lemma_pair_mismatch_sectors(lhs, rhs, axes_lhs, axes_rhs, i + 1, n);
    }
}

/// The error text for a pair of legs that cannot be contracted.
pub fn mismatch_error(m: &LegMismatch, sector_names: &[String]) -> (r: String)
    requires
        m matches LegMismatch::Sector { lhs_sector, rhs_sector, .. } ==> lhs_sector < sector_names@.len()
            && rhs_sector < sector_names@.len(),
    ensures
        r@ == mismatch_message(*m, names_view(sector_names@)),
{
    match m {
        LegMismatch::SameDirection { pair, lhs_axis, rhs_axis, direction } => {
            let mut t = "Contracted pair ".to_owned();
            push_usize(&mut t, *pair);
            push_str(&mut t, ": axes (");
            push_usize(&mut t, *lhs_axis);
            push_str(&mut t, ", ");
            push_usize(&mut t, *rhs_axis);
            push_str(&mut t, ") have same direction ");
            match direction {
                LegDirection::In => push_str(&mut t, "In"),
                LegDirection::Out => push_str(&mut t, "Out"),
            }
            t
        },
        LegMismatch::BlockCount { pair, lhs, rhs } => {
            let mut t = "Contracted pair ".to_owned();
            push_usize(&mut t, *pair);
            push_str(&mut t, ": sector count mismatch ");
            push_usize(&mut t, *lhs);
            push_str(&mut t, " vs ");
            push_usize(&mut t, *rhs);
            t
        },
        LegMismatch::Sector { pair, block, lhs_sector, rhs_sector } => {
            let mut t = "Contracted pair ".to_owned();
            push_usize(&mut t, *pair);
            push_str(&mut t, ": sector mismatch at block ");
            push_usize(&mut t, *block);
            push_str(&mut t, ": ");
            push_str(&mut t, sector_names[*lhs_sector as usize].as_str());
            push_str(&mut t, " vs ");
            push_str(&mut t, sector_names[*rhs_sector as usize].as_str());
            t
        },
        LegMismatch::Dim { pair, block, lhs, rhs } => {
            let mut t = "Contracted pair ".to_owned();
            push_usize(&mut t, *pair);
            push_str(&mut t, ": dim mismatch at block ");
            push_usize(&mut t, *block);
            push_str(&mut t, ": ");
            push_usize(&mut t, *lhs);
            push_str(&mut t, " vs ");
            push_usize(&mut t, *rhs);
            t
        },
    }
}

/// Checks the contracted axes of a block-sparse contraction: the axis
/// lists themselves (equal lengths, in range, no repeats), then each pair
/// of legs (opposite directions, the same sectors and dimensions block by
/// block), each sector printed as `sector_names` gives it by its id.
pub fn validate_contraction_legs(
    lhs: &[LegShape],
    rhs: &[LegShape],
    axes_lhs: &[usize],
    axes_rhs: &[usize],
    sector_names: &[String],
) -> (r: Result<(), LinalgError>)
    requires
        sectors_named(lhs@, sector_names@.len()),
        sectors_named(rhs@, sector_names@.len()),
    ensures
        match axes_pair_check(axes_lhs@, lhs@.len() as nat, axes_rhs@, rhs@.len() as nat) {
            Err(m) => is_invalid_argument(r, m),
            Ok(()) => match first_pair_mismatch(lhs@, rhs@, axes_lhs@, axes_rhs@, 0) {
                None => r is Ok,
                Some(mm) => is_invalid_argument(r, mismatch_message(mm, names_view(sector_names@))),
            },
        },
{
    if let Err(e) = validate_contraction_axes_pair(axes_lhs, lhs.len(), axes_rhs, rhs.len()) {
        return Err(e);
    }
    proof {
        lemma_axes_check_ok(axes_lhs@, lhs@.len() as nat, "axes_lhs"@);
        lemma_axes_check_ok(axes_rhs@, rhs@.len() as nat, "axes_rhs"@);
        lemma_pair_mismatch_sectors(lhs@, rhs@, axes_lhs@, axes_rhs@, 0, sector_names@.len());
    }
    match check_contracted_legs(lhs, rhs, axes_lhs, axes_rhs) {
        None => Ok(()),
        Some(m) => Err(LinalgError::InvalidArgument(mismatch_error(&m, sector_names))),
    }
}

} // verus!
