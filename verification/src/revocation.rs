//! C8, non-revocation, over an accumulator of revoked unit ranges.
//!
//! A leaf is one revoked range of unit indices together with the start of the
//! next: (start, end, next_start, 0). The inclusion proof exhibits the leaf,
//! and four comparisons place the payment's consumed run [lo, hi] beyond that
//! range's end and before the next range's start.
use crate::air::{
    lemma_range_block_bounds_gap, lemma_small_gap, push_range_blocks, range_block_spec, range_blocks_spec, weighted,
    DIGEST, RANGE_BITS,
};
use crate::expr::{all_hold, eval, lemma_all_hold_split, step_holds};
use crate::field::{all_canonical, P};
use vstd::arithmetic::power2::pow2;
use crate::expr::{col, minus, Expr, Step};
use crate::merkle::{level_width_spec, merkle_steps, merkle_width_spec, path_digest, MerkleAir};
use vstd::prelude::*;

verus! {

pub struct NonMembershipAir<const R: usize, const DEPTH: usize> {
    pub path: MerkleAir<R, DEPTH>,
}

/// Lanes of the exhibited leaf, which is the digest the path starts from.
pub const LEAF_START: usize = 0;

pub const LEAF_END: usize = 1;

pub const LEAF_NEXT: usize = 2;

pub const LEAF_PAD: usize = 3;

/// The run of units the payment consumes, immediately after the path.
pub const RUN_LO: usize = 0;

pub const RUN_HI: usize = 1;

pub const RUN_COLS: usize = 2;

/// lo - start, lo - end - 1, next - hi - 1, and hi - lo.
pub const RANGE_BLOCKS: usize = 4;

pub open spec fn nonmembership_width_spec(r: int, depth: int) -> int {
    merkle_width_spec(r, depth) + RUN_COLS + RANGE_BLOCKS * RANGE_BITS
}

/// The four gaps, for a path of width `pw` placed at column `off`.
pub open spec fn nm_gaps(off: int, pw: int) -> Seq<Expr> {
    let lo = Expr::Col((off + pw + RUN_LO) as usize);
    let hi = Expr::Col((off + pw + RUN_HI) as usize);
    let start = Expr::Col((off + LEAF_START) as usize);
    let end = Expr::Col((off + LEAF_END) as usize);
    let next = Expr::Col((off + LEAF_NEXT) as usize);
    seq![
        Expr::Sub(Box::new(lo), Box::new(start)),
        Expr::Sub(Box::new(Expr::Sub(Box::new(lo), Box::new(end))), Box::new(Expr::Const(1))),
        Expr::Sub(Box::new(Expr::Sub(Box::new(next), Box::new(hi))), Box::new(Expr::Const(1))),
        Expr::Sub(Box::new(hi), Box::new(lo)),
    ]
}

/// The constraints of C8 placed at column `off`: the path, the fixed pad
/// lane of the leaf, and the four comparisons.
pub open spec fn nonmembership_steps(r: int, depth: int, off: int) -> Seq<Step> {
    let pw = merkle_width_spec(r, depth);
    merkle_steps(r, off, depth) + seq![Step::Zero(Expr::Col((off + LEAF_PAD) as usize))]
        + range_blocks_spec(nm_gaps(off, pw), off + pw + RUN_COLS)
}

impl<const R: usize, const DEPTH: usize> NonMembershipAir<R, DEPTH> {
    pub fn new() -> (a: Self) {
        NonMembershipAir { path: MerkleAir::<R, DEPTH>::new() }
    }

    pub fn path_width(&self) -> (n: usize)
        requires
            R <= 1,
            merkle_width_spec(R as int, DEPTH as int) <= usize::MAX,
        ensures
            n == merkle_width_spec(R as int, DEPTH as int),
    {
        self.path.width()
    }

    /// Where the run columns sit, so the composed circuit can bind them to
    /// the units a payment actually consumes.
    pub fn run_offset(&self) -> (n: usize)
        requires
            R <= 1,
            merkle_width_spec(R as int, DEPTH as int) <= usize::MAX,
        ensures
            n == merkle_width_spec(R as int, DEPTH as int),
    {
        self.path_width()
    }

    pub fn range_base(&self) -> (n: usize)
        requires
            R <= 1,
            nonmembership_width_spec(R as int, DEPTH as int) <= usize::MAX,
        ensures
            n == merkle_width_spec(R as int, DEPTH as int) + RUN_COLS,
    {
        self.path_width() + RUN_COLS
    }

    pub fn root_offset(&self) -> (n: usize)
        requires
            R <= 1,
            merkle_width_spec(R as int, DEPTH as int) <= usize::MAX,
        ensures
            n == DEPTH * crate::merkle::level_width_spec(R as int),
    {
        self.path.root_offset()
    }

    pub fn width(&self) -> (n: usize)
        requires
            R <= 1,
            nonmembership_width_spec(R as int, DEPTH as int) <= usize::MAX,
        ensures
            n == nonmembership_width_spec(R as int, DEPTH as int),
    {
        self.range_base() + RANGE_BLOCKS * RANGE_BITS
    }

    /// C8's constraints with its columns starting at `off`.
    pub fn constrain(&self, off: usize) -> (steps: Vec<Step>)
        requires
            R <= 1,
            off + nonmembership_width_spec(R as int, DEPTH as int) <= usize::MAX,
        ensures
            steps@ == nonmembership_steps(R as int, DEPTH as int, off as int),
    {
        let pw = self.path_width();
        let mut steps = self.path.constrain(off);
        steps.push(Step::Zero(col(off + LEAF_PAD)));
        let lo = off + pw + RUN_LO;
        let hi = off + pw + RUN_HI;
        let mut gaps: Vec<Expr> = Vec::new();
        gaps.push(minus(col(lo), col(off + LEAF_START)));
        gaps.push(minus(minus(col(lo), col(off + LEAF_END)), Expr::Const(1)));
        gaps.push(minus(minus(col(off + LEAF_NEXT), col(hi)), Expr::Const(1)));
        gaps.push(minus(col(hi), col(lo)));
        assert(gaps@ =~= nm_gaps(off as int, pw as int));
        let ghost s0 = steps@;
        push_range_blocks(&mut steps, gaps, off + pw + RUN_COLS);
        steps
    }
}


/// C8 at column zero reads only its own columns.
pub proof fn lemma_nonmembership_within(r: int, depth: int)
    requires
        0 <= r <= 1,
        0 <= depth,
        nonmembership_width_spec(r, depth) <= usize::MAX,
    ensures
        crate::expr::steps_within(nonmembership_steps(r, depth, 0), r, nonmembership_width_spec(r, depth)),
{
    let pw = merkle_width_spec(r, depth);
    let w = nonmembership_width_spec(r, depth);
    assert(depth * crate::merkle::level_width_spec(r) >= 0) by (nonlinear_arith)
        requires
            depth >= 0,
            0 <= r <= 1,
    ;
    crate::merkle::lemma_merkle_within(r, 0, depth, depth);
    crate::expr::lemma_within_widen(merkle_steps(r, 0, depth), r, pw, w);
    let z = seq![Step::Zero(Expr::Col(LEAF_PAD))];
    assert(crate::expr::steps_within(z, r, w));
    let g = nm_gaps(0, pw);
    reveal_with_fuel(crate::expr::expr_cols_below, 4);
    assert forall|k: int| 0 <= k < g.len() implies crate::expr::expr_cols_below(#[trigger] g[k], w) by {}
    crate::air::lemma_range_blocks_within(g, pw + RUN_COLS, r, w);
    crate::expr::lemma_within_concat(merkle_steps(r, 0, depth), z, r, w);
    crate::expr::lemma_within_concat(merkle_steps(r, 0, depth) + z, range_blocks_spec(g, pw + RUN_COLS), r, w);
}

/// Every value of a C8 row that the comparisons read, below p - 2^(RANGE_BITS + 1).
pub open spec fn nm_values_small(row: Seq<u64>, pw: int) -> bool {
    let bound = (P as int) - pow2((RANGE_BITS + 1) as nat);
    &&& row[LEAF_START as int] < bound
    &&& row[LEAF_END as int] < bound
    &&& row[LEAF_NEXT as int] < bound
    &&& row[pw + RUN_LO] < bound
    &&& row[pw + RUN_HI] < bound
}

/// The exhibited leaf's pad lane is zero, and the run [lo, hi] held after a
/// path of width `pw` starts no earlier than the revoked range the leaf
/// exhibits, starts after that range ends, ends before the next revoked range
/// begins, and does not end before it starts, each within 2^RANGE_BITS.
pub open spec fn run_unrevoked(row: Seq<u64>, pw: int) -> bool {
    let (start, end, next) = (row[LEAF_START as int], row[LEAF_END as int], row[LEAF_NEXT as int]);
    let (lo, hi) = (row[pw + RUN_LO], row[pw + RUN_HI]);
    &&& row[LEAF_PAD as int] == 0
    &&& start <= lo < start + pow2(RANGE_BITS as nat)
    &&& end < lo <= end + pow2(RANGE_BITS as nat)
    &&& hi < next <= hi + pow2(RANGE_BITS as nat)
    &&& lo <= hi < lo + pow2(RANGE_BITS as nat)
}

/// What C8 guarantees of every row it accepts: the root its path columns end
/// in is the digest the exhibited leaf computes through the path, the leaf's
/// pad lane is zero, and the consumed run [lo, hi] starts no earlier than the
/// revoked range the leaf exhibits, starts after that range ends, ends before
/// the next revoked range begins, and does not end before it starts, each
/// comparison within 2^RANGE_BITS. The bit cells' and direction bits' own
/// constraints make each a root of x(x - 1), which is a bit because p is
/// prime; that primality is not proved here, so their being bits is taken as
/// given.
pub proof fn lemma_nonmembership_accepts_only_unrevoked_runs(r: int, depth: int, row: Seq<u64>, pv: Seq<u64>)
    requires
        0 <= r <= 1,
        0 <= depth,
        nonmembership_width_spec(r, depth) <= usize::MAX,
        row.len() >= nonmembership_width_spec(r, depth),
        all_canonical(row),
        all_hold(nonmembership_steps(r, depth, 0), r, row, pv),
        forall|k: int|
            merkle_width_spec(r, depth) + RUN_COLS <= k < nonmembership_width_spec(r, depth)
                ==> #[trigger] row[k] <= 1,
        forall|l: int| 0 <= l < depth ==> #[trigger] row[l * level_width_spec(r) + 2 * DIGEST] <= 1,
        nm_values_small(row, merkle_width_spec(r, depth)),
    ensures
        row.subrange(depth * level_width_spec(r), depth * level_width_spec(r) + DIGEST) == path_digest(
            r,
            row,
            depth as nat,
        ),
        run_unrevoked(row, merkle_width_spec(r, depth)),
{
    let pw = merkle_width_spec(r, depth);
    assert(depth * crate::merkle::level_width_spec(r) >= 0) by (nonlinear_arith)
        requires
            depth >= 0,
            0 <= r <= 1,
    ;
    vstd::arithmetic::power2::lemma2_to64();
    vstd::arithmetic::power2::lemma2_to64_rest();
    let g = nm_gaps(0, pw);
    let first = pw + RUN_COLS;
    let m = merkle_steps(r, 0, depth);
    let z = seq![Step::Zero(Expr::Col(LEAF_PAD))];
    let b0 = range_block_spec(g[0], first);
    let b1 = range_block_spec(g[1], first + RANGE_BITS);
    let b2 = range_block_spec(g[2], first + 2 * RANGE_BITS);
    let b3 = range_block_spec(g[3], first + 3 * RANGE_BITS);
    reveal_with_fuel(range_blocks_spec, 5);
    assert(g.drop_last().drop_last().drop_last().drop_last() =~= Seq::<Expr>::empty());
    assert(g.drop_last().drop_last().drop_last() =~= seq![g[0]]);
    assert(g.drop_last().drop_last() =~= seq![g[0], g[1]]);
    assert(g.drop_last() =~= seq![g[0], g[1], g[2]]);
    assert(range_blocks_spec(g, first) =~= b0 + b1 + b2 + b3);
    lemma_all_hold_split(m + z, b0 + b1 + b2 + b3, r, row, pv);
    lemma_all_hold_split(m, z, r, row, pv);
    crate::merkle::lemma_merkle_path_computes_root(r, depth, depth, row, pv);
    lemma_all_hold_split(b0 + b1 + b2, b3, r, row, pv);
    lemma_all_hold_split(b0 + b1, b2, r, row, pv);
    lemma_all_hold_split(b0, b1, r, row, pv);
    assert(step_holds(z[0], r, row, pv));
    vstd::arithmetic::div_mod::lemma_small_mod(row[LEAF_PAD as int] as nat, P as nat);
    assert forall|k: int| 0 <= k < RANGE_BITS implies #[trigger] row[first + k] <= 1 by {}
    assert forall|k: int| 0 <= k < RANGE_BITS implies #[trigger] row[first + RANGE_BITS + k] <= 1 by {}
    assert forall|k: int| 0 <= k < RANGE_BITS implies #[trigger] row[first + 2 * RANGE_BITS + k] <= 1 by {}
    assert forall|k: int| 0 <= k < RANGE_BITS implies #[trigger] row[first + 3 * RANGE_BITS + k] <= 1 by {}
    lemma_range_block_bounds_gap(g[0], first, row, pv, r);
    lemma_range_block_bounds_gap(g[1], first + RANGE_BITS, row, pv, r);
    lemma_range_block_bounds_gap(g[2], first + 2 * RANGE_BITS, row, pv, r);
    lemma_range_block_bounds_gap(g[3], first + 3 * RANGE_BITS, row, pv, r);
    reveal_with_fuel(eval, 3);
    let (start, end, next) = (row[LEAF_START as int], row[LEAF_END as int], row[LEAF_NEXT as int]);
    let (lo, hi) = (row[pw + RUN_LO], row[pw + RUN_HI]);
    assert(eval(g[0], row, pv) == lo - start);
    assert(eval(g[1], row, pv) == lo - end - 1);
    assert(eval(g[2], row, pv) == next - hi - 1);
    assert(eval(g[3], row, pv) == hi - lo);
    lemma_small_gap(lo - start, weighted(row, first, 0, RANGE_BITS as int));
    lemma_small_gap(lo - end - 1, weighted(row, first + RANGE_BITS, 0, RANGE_BITS as int));
    lemma_small_gap(next - hi - 1, weighted(row, first + 2 * RANGE_BITS, 0, RANGE_BITS as int));
    lemma_small_gap(hi - lo, weighted(row, first + 3 * RANGE_BITS, 0, RANGE_BITS as int));
}
} // verus!
