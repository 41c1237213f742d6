//! One payment's spend against the budget: which units it consumes, that
//! their keys belong to the positions claimed, and the shares published under
//! them.
//!
//! Consumption is at the level of single units. A unit's key is one
//! application of the permutation to the root key and the unit's index; a
//! padded slot derives from the root key, the payload digest and its own
//! position under a separator of its own.
use crate::air::{push_range_blocks, range_block_spec, range_blocks_spec, RANGE_BITS};
use vstd::arithmetic::power2::pow2;
use crate::expr::{all_hold, col, eval, hash_block_holds, lemma_all_hold_split, minus, plus, step_holds, times, twice, Expr, Step};
use crate::field::{all_canonical, lemma_canonical_eq, lemma_canonical_reduces, P};
use crate::gen::{perm_out, poseidon2_trace_row};
use crate::hash::{block_width, block_width_spec, output_offset, DOMAIN_KEY, DOMAIN_PAD, WIDTH};
use vstd::prelude::*;

verus! {

pub struct SpendAir<const R: usize, const DEPTH: usize, const COVER: usize> {}

/// Field elements in the secret and in a key.
pub const SECRET_ELEMS: usize = 2;

/// r is non-negative; the run ends within the units the delegation kept for
/// itself; the padded range lies inside the index space; and what the
/// delegation kept does not exceed what it holds.
pub const RANGE_BLOCKS: usize = 4;

pub const COL_SECRET: usize = 0;

pub const COL_INDEX: usize = COL_SECRET + SECRET_ELEMS;

pub const COL_INDEX_INV: usize = COL_INDEX + 1;

pub const COL_ROOT_KEY: usize = COL_INDEX_INV + 1;

/// The spendable unit count, m = B/u, committed with the policy.
pub const COL_M: usize = COL_ROOT_KEY + SECRET_ELEMS;

/// The units the delegation may consume itself.
pub const COL_SELF: usize = COL_M + 1;

/// Where the payment's run starts, and how many units it charges.
pub const COL_R: usize = COL_SELF + 1;

pub const COL_UNITS: usize = COL_R + 1;

/// The first index of the delegation's padded range.
pub const COL_BASE: usize = COL_UNITS + 1;

pub const FIXED_COLS: usize = COL_BASE + 1;

/// Per slot.
pub const NODE_ACTIVE: usize = 0;

pub const NODE_KEY: usize = 1;

pub const NODE_SHARE: usize = NODE_KEY + SECRET_ELEMS;

pub const NODE_NULL: usize = NODE_SHARE + SECRET_ELEMS;

pub const PER_NODE: usize = NODE_NULL + 1;

/// The running positions: one column per slot boundary.
pub open spec fn pos_base_spec() -> int {
    FIXED_COLS as int
}

pub open spec fn range_base_spec(cover: int) -> int {
    FIXED_COLS + cover + 1
}

pub open spec fn node_base_spec(cover: int) -> int {
    range_base_spec(cover) + RANGE_BLOCKS * RANGE_BITS
}

pub open spec fn value_cols_spec(cover: int) -> int {
    node_base_spec(cover) + PER_NODE * cover
}

pub open spec fn spend_width_spec(r: int, cover: int) -> int {
    value_cols_spec(cover) + cover * block_width_spec(r)
}

/// The spend circuit's width is affine in the slot count, with no term in
/// the tree depth: 172 + 187c columns at one S-box register, 172 + 101c at
/// none.
pub proof fn lemma_spend_width_law(cover: int)
    ensures
        spend_width_spec(1, cover) == 172 + 187 * cover,
        spend_width_spec(0, cover) == 172 + 101 * cover,
{
    let (b1, b0) = (block_width_spec(1), block_width_spec(0));
    assert(b1 == 180 && b0 == 94);
    assert(PER_NODE * cover == 6 * cover) by (nonlinear_arith)
        requires
            PER_NODE == 6,
    ;
    assert(value_cols_spec(cover) == 172 + 7 * cover);
    assert(cover * b1 + 7 * cover == 187 * cover) by (nonlinear_arith)
        requires
            b1 == 180,
    ;
    assert(cover * b0 + 7 * cover == 101 * cover) by (nonlinear_arith)
        requires
            b0 == 94,
    ;
}

/// 2^k, built by doubling from one.
pub open spec fn pow_expr(k: nat) -> Expr
    decreases k,
{
    if k == 0 {
        Expr::Const(1)
    } else {
        Expr::Double(Box::new(pow_expr((k - 1) as nat)))
    }
}

/// The sum of the active flags of the first `k` slots, from zero.
pub open spec fn charged_expr(nb: int, k: nat) -> Expr
    decreases k,
{
    if k == 0 {
        Expr::Const(0)
    } else {
        Expr::Add(
            Box::new(charged_expr(nb, (k - 1) as nat)),
            Box::new(Expr::Col((nb + (k - 1) * PER_NODE + NODE_ACTIVE) as usize)),
        )
    }
}

pub open spec fn c(i: int) -> Expr {
    Expr::Col(i as usize)
}

pub open spec fn sub_e(a: Expr, b: Expr) -> Expr {
    Expr::Sub(Box::new(a), Box::new(b))
}

pub open spec fn add_e(a: Expr, b: Expr) -> Expr {
    Expr::Add(Box::new(a), Box::new(b))
}

pub open spec fn mul_e(a: Expr, b: Expr) -> Expr {
    Expr::Mul(Box::new(a), Box::new(b))
}

/// The four gaps the spend component range-checks, at column offset `base`.
pub open spec fn spend_gaps(depth: nat, base: int) -> Seq<Expr> {
    let r = c(base + COL_R);
    let self_units = c(base + COL_SELF);
    let units = c(base + COL_UNITS);
    let m = c(base + COL_M);
    let pbase = c(base + COL_BASE);
    seq![
        r,
        sub_e(sub_e(self_units, r), units),
        sub_e(sub_e(pow_expr(depth), pbase), m),
        sub_e(m, self_units),
    ]
}

/// The constraints of slot `k`.
pub open spec fn slot_steps(r: int, cover: int, base: int, k: int, external_nullifier: bool) -> Seq<
    Step,
> {
    let nb = base + node_base_spec(cover);
    let n = nb + k * PER_NODE;
    let posb = base + pos_base_spec();
    let vals = base + value_cols_spec(cover);
    let blk = vals + k * block_width_spec(r);
    let oo = block_width_spec(r) - WIDTH;
    let active = c(n + NODE_ACTIVE);
    let inactive = sub_e(Expr::Const(1), active);
    let index = c(base + COL_INDEX);
    seq![
        Step::Bool(active),
        Step::Eq(c(posb + k + 1), add_e(c(posb + k), active)),
        Step::Eq(c(blk), c(base + COL_ROOT_KEY)),
        Step::Eq(c(blk + 1), c(base + COL_ROOT_KEY + 1)),
        Step::Eq(
            c(blk + SECRET_ELEMS),
            add_e(
                mul_e(active, add_e(c(base + COL_BASE), c(posb + k))),
                mul_e(inactive, index),
            ),
        ),
        Step::Eq(
            c(blk + SECRET_ELEMS + 1),
            add_e(
                mul_e(active, Expr::Const(DOMAIN_KEY)),
                mul_e(inactive, Expr::Const(DOMAIN_PAD)),
            ),
        ),
        Step::Eq(c(blk + SECRET_ELEMS + 2), mul_e(inactive, Expr::Const((k + 1) as u64))),
        Step::Zero(c(blk + SECRET_ELEMS + 3)),
        Step::Zero(c(blk + SECRET_ELEMS + 4)),
        Step::Zero(c(blk + SECRET_ELEMS + 5)),
        Step::Eq(c(n + NODE_KEY), c(blk + oo)),
        Step::Eq(c(n + NODE_SHARE), add_e(c(base + COL_SECRET), mul_e(c(n + NODE_KEY), index))),
        Step::Eq(c(n + NODE_KEY + 1), c(blk + oo + 1)),
        Step::Eq(
            c(n + NODE_SHARE + 1),
            add_e(c(base + COL_SECRET + 1), mul_e(c(n + NODE_KEY + 1), index)),
        ),
    ] + if external_nullifier {
        seq![]
    } else {
        seq![Step::Eq(c(n + NODE_NULL), c(blk + oo + SECRET_ELEMS))]
    }
}

pub open spec fn slots_spec(r: int, cover: int, base: int, k: int, external_nullifier: bool) -> Seq<
    Step,
>
    decreases k,
{
    if k <= 0 {
        seq![]
    } else {
        slots_spec(r, cover, base, k - 1, external_nullifier) + slot_steps(
            r,
            cover,
            base,
            k - 1,
            external_nullifier,
        )
    }
}

/// Slot `k`'s nullifier check: the node's nullifier is the first lane of
/// the slot permutation's output past the key.
pub open spec fn nullifier_step(r: int, cover: int, base: int, k: int) -> Step {
    let n = base + node_base_spec(cover) + k * PER_NODE;
    let blk = base + value_cols_spec(cover) + k * block_width_spec(r);
    let oo = block_width_spec(r) - WIDTH;
    Step::Eq(c(n + NODE_NULL), c(blk + oo + SECRET_ELEMS))
}

/// The spend constraints before and after the slots, which do not depend on
/// where the nullifier is checked.
pub open spec fn spend_head(r: int, depth: nat, cover: int, base: int) -> Seq<Step> {
    let index = c(base + COL_INDEX);
    let posb = base + pos_base_spec();
    spend_hashes(r, cover, base) + seq![
        Step::Eq(index, Expr::Pub(0)),
        Step::One(mul_e(index, c(base + COL_INDEX_INV))),
    ] + range_blocks_spec(spend_gaps(depth, base), base + range_base_spec(cover)) + seq![
        Step::Eq(c(posb), c(base + COL_R)),
    ]
}

pub open spec fn spend_tail(cover: int, base: int) -> Seq<Step> {
    seq![Step::Eq(charged_expr(base + node_base_spec(cover), cover as nat), c(base + COL_UNITS))]
}

proof fn lemma_slots_len(r: int, cover: int, base: int, k: int, ext: bool)
    requires
        0 <= k,
    ensures
        slots_spec(r, cover, base, k, ext).len() == k * (if ext { 14int } else { 15int }),
    decreases k,
{
    if k > 0 {
        lemma_slots_len(r, cover, base, k - 1, ext);
    }
}

/// Moving the nullifier check out of the circuit removes exactly the slots'
/// nullifier equalities and nothing else: both constraint lists are the same
/// head, then the slots, then the same tail, and each slot's constraints with
/// the check are its constraints without it followed by that one equality,
/// so the list without it is `cover` steps shorter.
pub proof fn lemma_external_nullifier_drops_only_nullifiers(r: int, depth: nat, cover: int, base: int)
    requires
        0 <= cover,
    ensures
        spend_steps(r, depth, cover, base, false) == spend_head(r, depth, cover, base) + slots_spec(
            r,
            cover,
            base,
            cover,
            false,
        ) + spend_tail(cover, base),
        spend_steps(r, depth, cover, base, true) == spend_head(r, depth, cover, base) + slots_spec(
            r,
            cover,
            base,
            cover,
            true,
        ) + spend_tail(cover, base),
        forall|k: int|
            0 <= k < cover ==> #[trigger] slot_steps(r, cover, base, k, false) == slot_steps(
                r,
                cover,
                base,
                k,
                true,
            ).push(nullifier_step(r, cover, base, k)),
        spend_steps(r, depth, cover, base, false).len() == spend_steps(r, depth, cover, base, true).len()
            + cover,
{
    assert forall|k: int| 0 <= k < cover implies #[trigger] slot_steps(r, cover, base, k, false)
        == slot_steps(r, cover, base, k, true).push(nullifier_step(r, cover, base, k)) by {
        assert(slot_steps(r, cover, base, k, false) =~= slot_steps(r, cover, base, k, true).push(
            nullifier_step(r, cover, base, k),
        ));
    }
    lemma_slots_len(r, cover, base, cover, false);
    lemma_slots_len(r, cover, base, cover, true);
    assert(spend_steps(r, depth, cover, base, false) =~= spend_head(r, depth, cover, base) + slots_spec(
        r,
        cover,
        base,
        cover,
        false,
    ) + spend_tail(cover, base));
    assert(spend_steps(r, depth, cover, base, true) =~= spend_head(r, depth, cover, base) + slots_spec(
        r,
        cover,
        base,
        cover,
        true,
    ) + spend_tail(cover, base));
}

/// One permutation block per slot.
pub open spec fn spend_hashes(r: int, cover: int, base: int) -> Seq<Step> {
    Seq::new(
        cover as nat,
        |i: int| Step::Hash((base + value_cols_spec(cover) + i * block_width_spec(r)) as usize),
    )
}

/// The spend component's constraints at column offset `base`.
pub open spec fn spend_steps(
    r: int,
    depth: nat,
    cover: int,
    base: int,
    external_nullifier: bool,
) -> Seq<Step> {
    let index = c(base + COL_INDEX);
    let posb = base + pos_base_spec();
    spend_hashes(r, cover, base) + seq![
        Step::Eq(index, Expr::Pub(0)),
        Step::One(mul_e(index, c(base + COL_INDEX_INV))),
    ] + range_blocks_spec(spend_gaps(depth, base), base + range_base_spec(cover)) + seq![
        Step::Eq(c(posb), c(base + COL_R)),
    ] + slots_spec(r, cover, base, cover, external_nullifier) + seq![
        Step::Eq(charged_expr(base + node_base_spec(cover), cover as nat), c(base + COL_UNITS)),
    ]
}

/// Build 2^k by doubling from one.
pub fn build_pow(k: usize) -> (e: Expr)
    ensures
        e == pow_expr(k as nat),
{
    let mut p = Expr::Const(1);
    let mut i: usize = 0;
    while i < k
        invariant
            i <= k,
            p == pow_expr(i as nat),
        decreases k - i,
    {
        p = twice(p);
        i += 1;
    }
    p
}

impl<const R: usize, const DEPTH: usize, const COVER: usize> SpendAir<R, DEPTH, COVER> {
    pub fn new() -> (a: Self) {
        SpendAir {  }
    }

    pub fn block_width(&self) -> (n: usize)
        requires
            R <= 1,
        ensures
            n == block_width_spec(R as int),
    {
        block_width::<R>()
    }

    pub fn node_base_pub(&self) -> (n: usize)
        requires
            value_cols_spec(COVER as int) <= usize::MAX,
        ensures
            n == node_base_spec(COVER as int),
    {
        self.node_base()
    }

    /// One derivation per slot and nothing else.
    pub fn permutations() -> (n: usize)
        ensures
            n == COVER,
    {
        COVER
    }

    /// The running offset of the consumed units within the delegation's range.
    pub fn pos_base(&self) -> (n: usize)
        ensures
            n == pos_base_spec(),
    {
        FIXED_COLS
    }

    pub fn range_base(&self) -> (n: usize)
        requires
            value_cols_spec(COVER as int) <= usize::MAX,
        ensures
            n == range_base_spec(COVER as int),
    {
        self.pos_base() + COVER + 1
    }

    pub fn node_base(&self) -> (n: usize)
        requires
            value_cols_spec(COVER as int) <= usize::MAX,
        ensures
            n == node_base_spec(COVER as int),
    {
        self.range_base() + RANGE_BLOCKS * RANGE_BITS
    }

    pub fn value_cols(&self) -> (n: usize)
        requires
            value_cols_spec(COVER as int) <= usize::MAX,
        ensures
            n == value_cols_spec(COVER as int),
    {
        self.node_base() + PER_NODE * COVER
    }

    pub fn width(&self) -> (n: usize)
        requires
            R <= 1,
            spend_width_spec(R as int, COVER as int) <= usize::MAX,
        ensures
            n == spend_width_spec(R as int, COVER as int),
    {
        proof {
            assert(COVER * block_width_spec(R as int) >= 0) by (nonlinear_arith)
                requires
                    R <= 1,
            ;
        }
        self.value_cols() + Self::permutations() * self.block_width()
    }

    /// The payload digest, which is the share index.
    pub fn num_public_values(&self) -> (n: usize)
        ensures
            n == 1,
    {
        1
    }

    /// Append the constraints of slot `k`.
    fn push_slot(&self, steps: &mut Vec<Step>, base: usize, k: usize, external_nullifier: bool)
        requires
            R <= 1,
            k < COVER,
            base + spend_width_spec(R as int, COVER as int) + COVER + 1 <= usize::MAX,
        ensures
            final(steps)@ == old(steps)@ + slot_steps(
                R as int,
                COVER as int,
                base as int,
                k as int,
                external_nullifier,
            ),
    {
        proof {
            assert(k * PER_NODE + PER_NODE <= COVER * PER_NODE) by (nonlinear_arith)
                requires
                    k < COVER,
            ;
            assert(k * block_width_spec(R as int) + block_width_spec(R as int) <= COVER
                * block_width_spec(R as int)) by (nonlinear_arith)
                requires
                    k < COVER,
                    R <= 1,
            ;
            assert(COVER * block_width_spec(R as int) >= 0) by (nonlinear_arith)
                requires
                    R <= 1,
            ;
        }
        let bw = self.block_width();
        let oo = output_offset::<R>();
        let vals = base + self.value_cols();
        let nb = base + self.node_base();
        let posb = base + self.pos_base();
        let index = base + COL_INDEX;
        assert(PER_NODE == 6);
        assert(nb + k * PER_NODE + PER_NODE <= base + value_cols_spec(COVER as int));
        assert(base + value_cols_spec(COVER as int) <= usize::MAX);
        let n = nb + k * PER_NODE;
        let blk = vals + k * bw;
        let active = n + NODE_ACTIVE;
        steps.push(Step::Bool(col(active)));
        steps.push(Step::Eq(col(posb + k + 1), plus(col(posb + k), col(active))));
        steps.push(Step::Eq(col(blk), col(base + COL_ROOT_KEY)));
        steps.push(Step::Eq(col(blk + 1), col(base + COL_ROOT_KEY + 1)));
        let inactive = minus(Expr::Const(1), col(active));
        steps.push(
            Step::Eq(
                col(blk + SECRET_ELEMS),
                plus(
                    times(col(active), plus(col(base + COL_BASE), col(posb + k))),
                    times(inactive.duplicate(), col(index)),
                ),
            ),
        );
        steps.push(
            Step::Eq(
                col(blk + SECRET_ELEMS + 1),
                plus(
                    times(col(active), Expr::Const(DOMAIN_KEY)),
                    times(inactive.duplicate(), Expr::Const(DOMAIN_PAD)),
                ),
            ),
        );
        steps.push(
            Step::Eq(col(blk + SECRET_ELEMS + 2), times(inactive, Expr::Const(k as u64 + 1))),
        );
        steps.push(Step::Zero(col(blk + SECRET_ELEMS + 3)));
        steps.push(Step::Zero(col(blk + SECRET_ELEMS + 4)));
        steps.push(Step::Zero(col(blk + SECRET_ELEMS + 5)));
        steps.push(Step::Eq(col(n + NODE_KEY), col(blk + oo)));
        steps.push(
            Step::Eq(
                col(n + NODE_SHARE),
                plus(col(base + COL_SECRET), times(col(n + NODE_KEY), col(index))),
            ),
        );
        steps.push(Step::Eq(col(n + NODE_KEY + 1), col(blk + oo + 1)));
        steps.push(
            Step::Eq(
                col(n + NODE_SHARE + 1),
                plus(col(base + COL_SECRET + 1), times(col(n + NODE_KEY + 1), col(index))),
            ),
        );
        if !external_nullifier {
            steps.push(Step::Eq(col(n + NODE_NULL), col(blk + oo + SECRET_ELEMS)));
        }
        proof {
            assert(final(steps)@ =~= old(steps)@ + slot_steps(
                R as int,
                COVER as int,
                base as int,
                k as int,
                external_nullifier,
            ));
        }
    }

    pub fn constrain(&self, base: usize) -> (steps: Vec<Step>)
        requires
            R <= 1,
            base + spend_width_spec(R as int, COVER as int) + COVER + 1 <= usize::MAX,
        ensures
            steps@ == spend_steps(R as int, DEPTH as nat, COVER as int, base as int, false),
    {
        self.constrain_with(base, false)
    }

    /// The same constraints, with the nullifier optionally left to the
    /// caller: `external_nullifier` omits only the equality tying a slot's
    /// nullifier to a spare lane of the permutation that produced its key.
    pub fn constrain_with(&self, base: usize, external_nullifier: bool) -> (steps: Vec<Step>)
        requires
            R <= 1,
            base + spend_width_spec(R as int, COVER as int) + COVER + 1 <= usize::MAX,
        ensures
            steps@ == spend_steps(
                R as int,
                DEPTH as nat,
                COVER as int,
                base as int,
                external_nullifier,
            ),
    {
        proof {
            assert(COVER * block_width_spec(R as int) >= 0) by (nonlinear_arith)
                requires
                    R <= 1,
            ;
        }
        let bw = self.block_width();
        let vals = base + self.value_cols();
        let oo = output_offset::<R>();
        let mut steps: Vec<Step> = Vec::new();
        let mut i: usize = 0;
        while i < COVER
            invariant
                R <= 1,
                bw == block_width_spec(R as int),
                vals == base + value_cols_spec(COVER as int),
                base + spend_width_spec(R as int, COVER as int) + COVER + 1 <= usize::MAX,
                i <= COVER,
                steps@ == spend_hashes(R as int, COVER as int, base as int).take(i as int),
            decreases COVER - i,
        {
            assert(i * bw + bw <= COVER * bw) by (nonlinear_arith)
                requires
                    i < COVER,
            ;
            steps.push(Step::Hash(vals + i * bw));
            i += 1;
            assert(steps@ =~= spend_hashes(R as int, COVER as int, base as int).take(i as int));
        }
        let ghost hs = steps@;
        assert(hs =~= spend_hashes(R as int, COVER as int, base as int));
        let index = base + COL_INDEX;
        steps.push(Step::Eq(col(index), Expr::Pub(0)));
        steps.push(Step::One(times(col(index), col(base + COL_INDEX_INV))));
        let r = base + COL_R;
        let self_units = base + COL_SELF;
        let units = base + COL_UNITS;
        let m = base + COL_M;
        let pbase = base + COL_BASE;
        let mut gaps: Vec<Expr> = Vec::new();
        gaps.push(col(r));
        gaps.push(minus(minus(col(self_units), col(r)), col(units)));
        gaps.push(minus(minus(build_pow(DEPTH), col(pbase)), col(m)));
        gaps.push(minus(col(m), col(self_units)));
        assert(gaps@ =~= spend_gaps(DEPTH as nat, base as int));
        let rb = base + self.range_base();
        push_range_blocks(&mut steps, gaps, rb);
        let posb = base + self.pos_base();
        let nb = base + self.node_base();
        steps.push(Step::Eq(col(posb), col(r)));
        let ghost pre = steps@;
        assert(pre =~= hs + seq![
            Step::Eq(c(base + COL_INDEX), Expr::Pub(0)),
            Step::One(mul_e(c(base + COL_INDEX), c(base + COL_INDEX_INV))),
        ] + range_blocks_spec(spend_gaps(DEPTH as nat, base as int), base + range_base_spec(COVER as int)) + seq![
            Step::Eq(c(posb as int), c(base + COL_R)),
        ]);
        let mut charged = Expr::Const(0);
        let mut k: usize = 0;
        while k < COVER
            invariant
                R <= 1,
                nb == base + node_base_spec(COVER as int),
                base + spend_width_spec(R as int, COVER as int) + COVER + 1 <= usize::MAX,
                k <= COVER,
                charged == charged_expr(nb as int, k as nat),
                steps@ == pre + slots_spec(R as int, COVER as int, base as int, k as int, external_nullifier),
            decreases COVER - k,
        {
            assert(k * PER_NODE + PER_NODE <= COVER * PER_NODE) by (nonlinear_arith)
                requires
                    k < COVER,
            ;
            assert(COVER * block_width_spec(R as int) >= 0) by (nonlinear_arith)
                requires
                    R <= 1,
            ;
            assert(PER_NODE == 6);
            assert(nb + k * PER_NODE + PER_NODE <= base + value_cols_spec(COVER as int));
            self.push_slot(&mut steps, base, k, external_nullifier);
            charged = plus(charged, col(nb + k * PER_NODE + NODE_ACTIVE));
            k += 1;
        }
        steps.push(Step::Eq(charged, col(units)));
        steps
    }
}


/// The permutation input slot `k` of a spend row at `base` selects: the root
/// key; then, for an active slot, the consumed unit's index (the range base
/// plus the running position) and the key domain; for a padding slot, the
/// payload digest, the padding domain and the slot's number; zeros after.
pub open spec fn slot_input(row: Seq<u64>, cover: int, base: int, k: int) -> Seq<u64> {
    let n = base + node_base_spec(cover) + k * PER_NODE;
    let posb = base + pos_base_spec();
    if row[n + NODE_ACTIVE] == 1 {
        seq![
            row[base + COL_ROOT_KEY],
            row[base + COL_ROOT_KEY + 1],
            ((row[base + COL_BASE] + row[posb + k]) % (P as int)) as u64,
            DOMAIN_KEY,
            0,
            0,
            0,
            0,
        ]
    } else {
        seq![
            row[base + COL_ROOT_KEY],
            row[base + COL_ROOT_KEY + 1],
            row[base + COL_INDEX],
            DOMAIN_PAD,
            (k + 1) as u64,
            0,
            0,
            0,
        ]
    }
}

/// What slot `k` of an accepted spend row holds: the running position
/// advances by the slot's active flag; the key is the first lanes of the
/// permutation of the slot's input; each share is the secret plus the key
/// times the payload digest; and, unless the nullifier is left to another
/// permutation, the nullifier is the next lane.
pub open spec fn slot_keeps(r: int, row: Seq<u64>, cover: int, base: int, k: int, external_nullifier: bool) -> bool {
    let n = base + node_base_spec(cover) + k * PER_NODE;
    let posb = base + pos_base_spec();
    let out = perm_out(poseidon2_trace_row(r, slot_input(row, cover, base, k)));
    let index = row[base + COL_INDEX] as int;
    &&& row[posb + k + 1] == (row[posb + k] + row[n + NODE_ACTIVE]) % (P as int)
    &&& row[n + NODE_KEY] == out[0]
    &&& row[n + NODE_KEY + 1] == out[1]
    &&& row[n + NODE_SHARE] == (row[base + COL_SECRET] + out[0] * index) % (P as int)
    &&& row[n + NODE_SHARE + 1] == (row[base + COL_SECRET + 1] + out[1] * index) % (P as int)
    &&& !external_nullifier ==> row[n + NODE_NULL] == out[2]
}

/// Every slot's constraints hold where all the slots' do.
proof fn lemma_slot_holds(r: int, cover: int, base: int, m: int, k: int, ext: bool, row: Seq<u64>, pv: Seq<u64>)
    requires
        0 <= k < m,
        all_hold(slots_spec(r, cover, base, m, ext), r, row, pv),
    ensures
        all_hold(slot_steps(r, cover, base, k, ext), r, row, pv),
    decreases m,
{
    lemma_all_hold_split(slots_spec(r, cover, base, m - 1, ext), slot_steps(r, cover, base, m - 1, ext), r, row, pv);
    if k < m - 1 {
        lemma_slot_holds(r, cover, base, m - 1, k, ext, row, pv);
    }
}

/// One slot of an accepted spend row keeps what `slot_keeps` says.
proof fn lemma_slot_sound(r: int, cover: int, base: int, k: int, ext: bool, row: Seq<u64>, pv: Seq<u64>)
    requires
        0 <= r <= 1,
        0 <= k < cover,
        0 <= base,
        base + spend_width_spec(r, cover) <= row.len(),
        row.len() <= usize::MAX,
        all_canonical(row),
        all_hold(slot_steps(r, cover, base, k, ext), r, row, pv),
        hash_block_holds(r, base + value_cols_spec(cover) + k * block_width_spec(r), row),
        row[base + node_base_spec(cover) + k * PER_NODE + NODE_ACTIVE] <= 1,
    ensures
        slot_keeps(r, row, cover, base, k, ext),
{
    let bw = block_width_spec(r);
    let oo = bw - WIDTH;
    let n = base + node_base_spec(cover) + k * PER_NODE;
    let posb = base + pos_base_spec();
    let blk = base + value_cols_spec(cover) + k * bw;
    assert(k * bw + bw <= cover * bw && 0 <= k * bw && k * PER_NODE + PER_NODE <= PER_NODE * cover
        && 0 <= k * PER_NODE) by (nonlinear_arith)
        requires
            0 <= k < cover,
            bw >= 0,
    ;
    let st = slot_steps(r, cover, base, k, ext);
    assert(blk + bw <= row.len());
    assert(n + PER_NODE <= blk);
    let len = row.len() as int;
    assert(cover * bw <= len);
    assert(k + 1 < P) by (nonlinear_arith)
        requires
            0 <= k < cover,
            cover * bw <= len,
            len <= 0xFFFF_FFFF_FFFF_FFFFint,
            bw >= 94,
    ;
    assert(posb + cover + 1 <= n);
    let a = row[n + NODE_ACTIVE] as int;
    let index = row[base + COL_INDEX] as int;
    let input = row.subrange(blk, blk + WIDTH);
    let out = perm_out(poseidon2_trace_row(r, input));
    assert(row.subrange(blk, blk + bw) == poseidon2_trace_row(r, input));
    reveal_with_fuel(eval, 5);
    assert(step_holds(st[0], r, row, pv) && step_holds(st[1], r, row, pv)
        && step_holds(st[2], r, row, pv) && step_holds(st[3], r, row, pv) && step_holds(st[4], r, row, pv)
        && step_holds(st[5], r, row, pv) && step_holds(st[6], r, row, pv) && step_holds(st[7], r, row, pv)
        && step_holds(st[8], r, row, pv) && step_holds(st[9], r, row, pv) && step_holds(st[10], r, row, pv)
        && step_holds(st[11], r, row, pv) && step_holds(st[12], r, row, pv) && step_holds(st[13], r, row, pv));
    // Positions.
    assert(st[1] == Step::Eq(c(posb + k + 1), add_e(c(posb + k), c(n + NODE_ACTIVE))));
    assert(step_holds(st[1], r, row, pv));
    assert(eval(c(posb + k + 1), row, pv) == row[posb + k + 1]);
    assert(eval(add_e(c(posb + k), c(n + NODE_ACTIVE)), row, pv) == row[posb + k] + a);
    lemma_canonical_reduces(row[posb + k + 1] as int, row[posb + k] + a);
    // The input lanes.
    lemma_canonical_eq(row[blk] as int, row[base + COL_ROOT_KEY] as int);
    lemma_canonical_eq(row[blk + 1] as int, row[base + COL_ROOT_KEY + 1] as int);
    let bp = row[base + COL_BASE] + row[posb + k];
    if a == 1 {
        assert(a * bp + (1 - a) * index == bp) by (nonlinear_arith)
            requires
                a == 1,
        ;
        assert(a * DOMAIN_KEY + (1 - a) * DOMAIN_PAD == DOMAIN_KEY) by (nonlinear_arith)
            requires
                a == 1,
        ;
        assert((1 - a) * (k + 1) == 0) by (nonlinear_arith)
            requires
                a == 1,
        ;
        lemma_canonical_reduces(row[blk + 2] as int, bp);
        lemma_canonical_eq(row[blk + 3] as int, DOMAIN_KEY as int);
        lemma_canonical_eq(row[blk + 4] as int, 0);
    } else {
        assert(a * bp + (1 - a) * index == index) by (nonlinear_arith)
            requires
                a == 0,
        ;
        assert(a * DOMAIN_KEY + (1 - a) * DOMAIN_PAD == DOMAIN_PAD) by (nonlinear_arith)
            requires
                a == 0,
        ;
        assert((1 - a) * (k + 1) == k + 1) by (nonlinear_arith)
            requires
                a == 0,
        ;
        lemma_canonical_eq(row[blk + 2] as int, index);
        lemma_canonical_eq(row[blk + 3] as int, DOMAIN_PAD as int);
        lemma_canonical_eq(row[blk + 4] as int, k + 1);
    }
    lemma_canonical_eq(row[blk + 5] as int, 0);
    lemma_canonical_eq(row[blk + 6] as int, 0);
    lemma_canonical_eq(row[blk + 7] as int, 0);
    assert(input =~= slot_input(row, cover, base, k));
    // Keys, shares and the nullifier.
    assert(row.subrange(blk, blk + bw)[oo] == poseidon2_trace_row(r, input)[oo]);
    assert(row.subrange(blk, blk + bw)[oo + 1] == poseidon2_trace_row(r, input)[oo + 1]);
    assert(row.subrange(blk, blk + bw)[oo + 2] == poseidon2_trace_row(r, input)[oo + 2]);
    lemma_canonical_eq(row[n + NODE_KEY] as int, row[blk + oo] as int);
    lemma_canonical_eq(row[n + NODE_KEY + 1] as int, row[blk + oo + 1] as int);
    lemma_canonical_reduces(row[n + NODE_SHARE] as int, row[base + COL_SECRET] + row[n + NODE_KEY] * index);
    lemma_canonical_reduces(row[n + NODE_SHARE + 1] as int, row[base + COL_SECRET + 1] + row[n + NODE_KEY + 1] * index);
    if !ext {
        assert(step_holds(st[14], r, row, pv));
        lemma_canonical_eq(row[n + NODE_NULL] as int, row[blk + oo + 2] as int);
    }
}

/// What the accountability circuit guarantees of every row it accepts, with
/// the slots' active flags taken to be bits (each is a root of x(x - 1),
/// which is a bit because p is prime; that primality is not proved here):
/// the share index is the payload digest the verifier supplies and is not
/// zero, the run starts at the committed offset, and every slot keeps what
/// `slot_keeps` says: its key comes from the root key and either the consumed
/// unit's index or the payload digest and its own number, and it publishes the
/// shares secret + key * digest and the nullifier of that key.
pub proof fn lemma_spend_sound(
    r: int,
    depth: nat,
    cover: int,
    base: int,
    ext: bool,
    row: Seq<u64>,
    pv: Seq<u64>,
)
    requires
        0 <= r <= 1,
        0 <= cover,
        0 <= base,
        base + spend_width_spec(r, cover) <= row.len(),
        row.len() <= usize::MAX,
        all_canonical(row),
        all_canonical(pv),
        pv.len() >= 1,
        all_hold(spend_steps(r, depth, cover, base, ext), r, row, pv),
        forall|k: int| 0 <= k < cover ==> #[trigger] row[base + node_base_spec(cover) + k * PER_NODE + NODE_ACTIVE] <= 1,
    ensures
        row[base + COL_INDEX] == pv[0],
        row[base + COL_INDEX] != 0,
        row[base + pos_base_spec()] == row[base + COL_R],
        forall|k: int| 0 <= k < cover ==> #[trigger] slot_keeps(r, row, cover, base, k, ext),
{
    let index = c(base + COL_INDEX);
    let posb = base + pos_base_spec();
    let h = spend_hashes(r, cover, base);
    let t1 = seq![Step::Eq(index, Expr::Pub(0)), Step::One(mul_e(index, c(base + COL_INDEX_INV)))];
    let rb = range_blocks_spec(spend_gaps(depth, base), base + range_base_spec(cover));
    let t2 = seq![Step::Eq(c(posb), c(base + COL_R))];
    let sl = slots_spec(r, cover, base, cover, ext);
    let t3 = seq![Step::Eq(charged_expr(base + node_base_spec(cover), cover as nat), c(base + COL_UNITS))];
    let bw0 = block_width_spec(r);
    assert(cover * bw0 >= 0) by (nonlinear_arith)
        requires
            cover >= 0,
            bw0 >= 0,
    ;
    assert(spend_steps(r, depth, cover, base, ext) == h + t1 + rb + t2 + sl + t3);
    lemma_all_hold_split(h + t1 + rb + t2 + sl, t3, r, row, pv);
    lemma_all_hold_split(h + t1 + rb + t2, sl, r, row, pv);
    lemma_all_hold_split(h + t1 + rb, t2, r, row, pv);
    lemma_all_hold_split(h + t1, rb, r, row, pv);
    lemma_all_hold_split(h, t1, r, row, pv);
    reveal_with_fuel(eval, 3);
    assert(step_holds(t1[0], r, row, pv));
    assert(step_holds(t1[1], r, row, pv));
    assert(step_holds(t2[0], r, row, pv));
    lemma_canonical_eq(row[base + COL_INDEX] as int, pv[0] as int);
    lemma_canonical_eq(row[posb] as int, row[base + COL_R] as int);
    if row[base + COL_INDEX] == 0 {
        assert(eval(index, row, pv) == 0);
        let inv = eval(c(base + COL_INDEX_INV), row, pv);
        assert(0 * inv == 0) by (nonlinear_arith);
        assert(eval(mul_e(index, c(base + COL_INDEX_INV)), row, pv) == 0 * inv);
        assert((0int - 1) % (P as int) != 0);
    }
    let bw = block_width_spec(r);
    assert forall|k: int| 0 <= k < cover implies #[trigger] slot_keeps(r, row, cover, base, k, ext) by {
        lemma_slot_holds(r, cover, base, cover, k, ext, row, pv);
        assert(h[k] == Step::Hash((base + value_cols_spec(cover) + k * bw) as usize));
        assert(step_holds(h[k], r, row, pv));
        assert(k * bw + bw <= cover * bw) by (nonlinear_arith)
            requires
                0 <= k < cover,
                bw >= 0,
        ;
        lemma_slot_sound(r, cover, base, k, ext, row, pv);
    }
}


/// Two shares published under one key for two payload digests determine the
/// secret: with s1 = secret + key * m1 and s2 = secret + key * m2 in the field,
/// (m2 - m1) * secret = s1 * m2 - s2 * m1 in the field.
pub proof fn lemma_two_shares_reveal_the_secret(secret: int, key: int, m1: int, m2: int, s1: int, s2: int)
    requires
        s1 == (secret + key * m1) % (P as int),
        s2 == (secret + key * m2) % (P as int),
    ensures
        ((m2 - m1) * secret - (s1 * m2 - s2 * m1)) % (P as int) == 0,
{
    let p = P as int;
    let x1 = secret + key * m1;
    let x2 = secret + key * m2;
    vstd::arithmetic::div_mod::lemma_fundamental_div_mod(x1, p);
    vstd::arithmetic::div_mod::lemma_fundamental_div_mod(x2, p);
    let q1 = x1 / p;
    let q2 = x2 / p;
    assert(s1 * m2 == x1 * m2 - (p * q1) * m2) by (nonlinear_arith)
        requires
            s1 == x1 - p * q1,
    ;
    assert(s2 * m1 == x2 * m1 - (p * q2) * m1) by (nonlinear_arith)
        requires
            s2 == x2 - p * q2,
    ;
    assert(x1 * m2 - x2 * m1 == (m2 - m1) * secret) by (nonlinear_arith)
        requires
            x1 == secret + key * m1,
            x2 == secret + key * m2,
    ;
    assert((p * q1) * m2 - (p * q2) * m1 == (q1 * m2 - q2 * m1) * p) by (nonlinear_arith);
    assert((m2 - m1) * secret - (s1 * m2 - s2 * m1) == (q1 * m2 - q2 * m1) * p);
    vstd::arithmetic::div_mod::lemma_mod_multiples_basic(q1 * m2 - q2 * m1, p);
}

/// A shared unit is a shared key. Two accepted spend rows under one root key
/// that consume the same unit, each in an active slot, derive the same key
/// there; with the same secret, their shares for two payload digests then
/// reveal the secret, so a unit cannot be spent twice without exposing it.
pub proof fn lemma_shared_unit_reveals_the_secret(
    r: int,
    cover: int,
    base: int,
    ext: bool,
    row1: Seq<u64>,
    k1: int,
    row2: Seq<u64>,
    k2: int,
)
    requires
        slot_keeps(r, row1, cover, base, k1, ext),
        slot_keeps(r, row2, cover, base, k2, ext),
        row1[base + node_base_spec(cover) + k1 * PER_NODE + NODE_ACTIVE] == 1,
        row2[base + node_base_spec(cover) + k2 * PER_NODE + NODE_ACTIVE] == 1,
        row1[base + COL_ROOT_KEY] == row2[base + COL_ROOT_KEY],
        row1[base + COL_ROOT_KEY + 1] == row2[base + COL_ROOT_KEY + 1],
        (row1[base + COL_BASE] + row1[base + pos_base_spec() + k1]) % (P as int) == (row2[base + COL_BASE]
            + row2[base + pos_base_spec() + k2]) % (P as int),
        row1[base + COL_SECRET] == row2[base + COL_SECRET],
    ensures
        row1[base + node_base_spec(cover) + k1 * PER_NODE + NODE_KEY] == row2[base + node_base_spec(cover) + k2
            * PER_NODE + NODE_KEY],
        row1[base + node_base_spec(cover) + k1 * PER_NODE + NODE_KEY + 1] == row2[base + node_base_spec(cover)
            + k2 * PER_NODE + NODE_KEY + 1],
        ({
            let m1 = row1[base + COL_INDEX] as int;
            let m2 = row2[base + COL_INDEX] as int;
            let s1 = row1[base + node_base_spec(cover) + k1 * PER_NODE + NODE_SHARE] as int;
            let s2 = row2[base + node_base_spec(cover) + k2 * PER_NODE + NODE_SHARE] as int;
            ((m2 - m1) * row1[base + COL_SECRET] - (s1 * m2 - s2 * m1)) % (P as int) == 0
        }),
{
    assert(slot_input(row1, cover, base, k1) =~= slot_input(row2, cover, base, k2));
    let out = perm_out(poseidon2_trace_row(r, slot_input(row1, cover, base, k1)));
    lemma_two_shares_reveal_the_secret(
        row1[base + COL_SECRET] as int,
        out[0] as int,
        row1[base + COL_INDEX] as int,
        row2[base + COL_INDEX] as int,
        row1[base + node_base_spec(cover) + k1 * PER_NODE + NODE_SHARE] as int,
        row2[base + node_base_spec(cover) + k2 * PER_NODE + NODE_SHARE] as int,
    );
}

/// The number of active cells among the first `k` slots' nodes.
pub open spec fn active_sum(row: Seq<u64>, nb: int, k: nat) -> int
    decreases k,
{
    if k == 0 {
        0
    } else {
        active_sum(row, nb, (k - 1) as nat) + row[nb + (k - 1) * PER_NODE + NODE_ACTIVE]
    }
}

proof fn lemma_charged_is_active_sum(nb: int, k: nat, row: Seq<u64>, pv: Seq<u64>)
    requires
        0 <= nb,
        nb + PER_NODE * k <= usize::MAX,
        forall|q: int| 0 <= q < k ==> #[trigger] row[nb + q * PER_NODE + NODE_ACTIVE] <= 1,
    ensures
        eval(charged_expr(nb, k), row, pv) == active_sum(row, nb, k),
        0 <= active_sum(row, nb, k) <= k,
    decreases k,
{
    if k > 0 {
        assert(PER_NODE * (k - 1) + PER_NODE == PER_NODE * k && (k - 1) * PER_NODE == PER_NODE * (k - 1))
            by (nonlinear_arith)
            requires
                k >= 1,
        ;
        lemma_charged_is_active_sum(nb, (k - 1) as nat, row, pv);
        let i = nb + (k - 1) * PER_NODE + NODE_ACTIVE;
        assert(row[i] <= 1);
        assert(eval(Expr::Col(i as usize), row, pv) == row[i] as int);
    }
}

/// What the accountability circuit guarantees of the counts of every row it
/// accepts, with the slots' active flags and the range checks' cells taken
/// to be bits: the units the row charges are the number of active slots,
/// and the run's start, the units left after the run, the room between the
/// padded range's end and 2^depth, and the holding less the self-region,
/// each reduced into [0, p), lie below 2^RANGE_BITS.
pub proof fn lemma_spend_counts(
    r: int,
    depth: nat,
    cover: int,
    base: int,
    ext: bool,
    row: Seq<u64>,
    pv: Seq<u64>,
)
    requires
        0 <= r <= 1,
        0 <= cover,
        0 <= base,
        base + spend_width_spec(r, cover) <= row.len(),
        row.len() <= usize::MAX,
        all_canonical(row),
        all_hold(spend_steps(r, depth, cover, base, ext), r, row, pv),
        forall|k: int| 0 <= k < cover ==> #[trigger] row[base + node_base_spec(cover) + k * PER_NODE + NODE_ACTIVE] <= 1,
        forall|k: int|
            base + range_base_spec(cover) <= k < base + node_base_spec(cover) ==> #[trigger] row[k] <= 1,
    ensures
        row[base + COL_UNITS] == active_sum(row, base + node_base_spec(cover), cover as nat),
        forall|k: int|
            0 <= k < 4 ==> #[trigger] eval(spend_gaps(depth, base)[k], row, pv) % (P as int) < pow2(
                RANGE_BITS as nat,
            ),
{
    let index = c(base + COL_INDEX);
    let posb = base + pos_base_spec();
    let h = spend_hashes(r, cover, base);
    let t1 = seq![Step::Eq(index, Expr::Pub(0)), Step::One(mul_e(index, c(base + COL_INDEX_INV)))];
    let first = base + range_base_spec(cover);
    let gaps = spend_gaps(depth, base);
    let rb = range_blocks_spec(gaps, first);
    let t2 = seq![Step::Eq(c(posb), c(base + COL_R))];
    let sl = slots_spec(r, cover, base, cover, ext);
    let nb = base + node_base_spec(cover);
    let t3 = seq![Step::Eq(charged_expr(nb, cover as nat), c(base + COL_UNITS))];
    let bw0 = block_width_spec(r);
    assert(cover * bw0 >= 0) by (nonlinear_arith)
        requires
            cover >= 0,
            bw0 >= 0,
    ;
    assert(spend_steps(r, depth, cover, base, ext) == h + t1 + rb + t2 + sl + t3);
    lemma_all_hold_split(h + t1 + rb + t2 + sl, t3, r, row, pv);
    lemma_all_hold_split(h + t1 + rb + t2, sl, r, row, pv);
    lemma_all_hold_split(h + t1 + rb, t2, r, row, pv);
    lemma_all_hold_split(h + t1, rb, r, row, pv);
    // The unit count.
    assert(nb + PER_NODE * cover <= usize::MAX);
    lemma_charged_is_active_sum(nb, cover as nat, row, pv);
    assert(step_holds(t3[0], r, row, pv));
    assert(cover < P) by {
        assert(cover * bw0 >= cover) by (nonlinear_arith)
            requires
                cover >= 0,
                bw0 >= 1,
        ;
    }
    let a = active_sum(row, nb, cover as nat);
    assert(row[base + COL_UNITS] < P);
    lemma_canonical_eq(a, row[base + COL_UNITS] as int);
    // The four gaps.
    let b0 = range_block_spec(gaps[0], first);
    let b1 = range_block_spec(gaps[1], first + RANGE_BITS);
    let b2 = range_block_spec(gaps[2], first + 2 * RANGE_BITS);
    let b3 = range_block_spec(gaps[3], first + 3 * RANGE_BITS);
    reveal_with_fuel(range_blocks_spec, 5);
    assert(gaps.drop_last().drop_last().drop_last().drop_last() =~= Seq::<Expr>::empty());
    assert(gaps.drop_last().drop_last().drop_last() =~= seq![gaps[0]]);
    assert(gaps.drop_last().drop_last() =~= seq![gaps[0], gaps[1]]);
    assert(gaps.drop_last() =~= seq![gaps[0], gaps[1], gaps[2]]);
    assert(rb =~= b0 + b1 + b2 + b3);
    lemma_all_hold_split(b0 + b1 + b2, b3, r, row, pv);
    lemma_all_hold_split(b0 + b1, b2, r, row, pv);
    lemma_all_hold_split(b0, b1, r, row, pv);
    assert forall|j: int| 0 <= j < RANGE_BITS implies #[trigger] row[first + j] <= 1 by {}
    assert forall|j: int| 0 <= j < RANGE_BITS implies #[trigger] row[first + RANGE_BITS + j] <= 1 by {}
    assert forall|j: int| 0 <= j < RANGE_BITS implies #[trigger] row[first + 2 * RANGE_BITS + j] <= 1 by {}
    assert forall|j: int| 0 <= j < RANGE_BITS implies #[trigger] row[first + 3 * RANGE_BITS + j] <= 1 by {}
    crate::air::lemma_range_block_bounds_gap(gaps[0], first, row, pv, r);
    crate::air::lemma_range_block_bounds_gap(gaps[1], first + RANGE_BITS, row, pv, r);
    crate::air::lemma_range_block_bounds_gap(gaps[2], first + 2 * RANGE_BITS, row, pv, r);
    crate::air::lemma_range_block_bounds_gap(gaps[3], first + 3 * RANGE_BITS, row, pv, r);
}

} // verus!
