//! The accountability half with the nullifier derived by a second invocation
//! of the permutation rather than read from a spare lane of the first: the key
//! comes from the first permutation and the nullifier is F(key, null) from a
//! second, at the cost of one further permutation per slot.
use crate::expr::{col, Expr, Step};
use crate::full::{block_steps, push_blocks};
use crate::hash::{block_width_spec, output_offset, DOMAIN_NULL, WIDTH};
use crate::spend::{
    node_base_spec, spend_steps, spend_width_spec, value_cols_spec, SpendAir, NODE_KEY, NODE_NULL,
    PER_NODE, SECRET_ELEMS,
};
use vstd::prelude::*;

verus! {

pub struct SpendTwoAir<const R: usize, const DEPTH: usize, const COVER: usize> {
    pub inner: SpendAir<R, DEPTH, COVER>,
}

/// The second invocation of slot `k`: its input is the slot's key and the
/// nullifier separator, and its first output lane is the slot's nullifier.
pub open spec fn null_slot_steps(r: int, cover: int, k: int) -> Seq<Step> {
    let bw = block_width_spec(r);
    let blk = spend_width_spec(r, cover) + k * bw;
    let n = node_base_spec(cover) + k * PER_NODE;
    seq![
        Step::Eq(Expr::Col(blk as usize), Expr::Col((n + NODE_KEY) as usize)),
        Step::Eq(Expr::Col((blk + 1) as usize), Expr::Col((n + NODE_KEY + 1) as usize)),
        Step::Eq(Expr::Col((blk + SECRET_ELEMS) as usize), Expr::Const(DOMAIN_NULL)),
        Step::Zero(Expr::Col((blk + 3) as usize)),
        Step::Zero(Expr::Col((blk + 4) as usize)),
        Step::Zero(Expr::Col((blk + 5) as usize)),
        Step::Zero(Expr::Col((blk + 6) as usize)),
        Step::Zero(Expr::Col((blk + 7) as usize)),
        Step::Eq(Expr::Col((n + NODE_NULL) as usize), Expr::Col((blk + bw - WIDTH) as usize)),
    ]
}

pub open spec fn null_slots(r: int, cover: int, k: int) -> Seq<Step>
    decreases k,
{
    if k <= 0 {
        seq![]
    } else {
        null_slots(r, cover, k - 1) + null_slot_steps(r, cover, k - 1)
    }
}

/// Everything the single-invocation circuit constrains except the tie of each
/// nullifier to a lane of its key's permutation, then one more permutation
/// per slot and its bindings.
pub open spec fn spend_two_steps(r: int, depth: int, cover: int) -> Seq<Step> {
    spend_steps(r, depth as nat, cover, 0, true) + block_steps(
        spend_width_spec(r, cover),
        cover,
        block_width_spec(r),
    ) + null_slots(r, cover, cover)
}

pub open spec fn spend_two_width_spec(r: int, cover: int) -> int {
    spend_width_spec(r, cover) + cover * block_width_spec(r)
}

impl<const R: usize, const DEPTH: usize, const COVER: usize> SpendTwoAir<R, DEPTH, COVER> {
    /// The dimensions the circuit supports.
    pub open spec fn fits() -> bool {
        &&& R <= 1
        &&& spend_two_width_spec(R as int, COVER as int) + COVER + 1 <= usize::MAX
    }

    pub fn new() -> (a: Self) {
        SpendTwoAir { inner: SpendAir::<R, DEPTH, COVER>::new() }
    }

    proof fn lemma_widths()
        requires
            Self::fits(),
        ensures
            COVER * block_width_spec(R as int) >= 0,
    {
        assert(COVER * block_width_spec(R as int) >= 0) by (nonlinear_arith)
            requires
                R <= 1,
        ;
    }

    /// Where the second round of permutations begins: after everything the
    /// single-invocation circuit uses.
    pub fn null_base(&self) -> (n: usize)
        requires
            Self::fits(),
        ensures
            n == spend_width_spec(R as int, COVER as int),
    {
        proof {
            Self::lemma_widths();
        }
        self.inner.width()
    }

    pub fn width(&self) -> (n: usize)
        requires
            Self::fits(),
        ensures
            n == spend_two_width_spec(R as int, COVER as int),
    {
        proof {
            Self::lemma_widths();
        }
        self.null_base() + COVER * self.inner.block_width()
    }

    pub fn num_public_values(&self) -> (n: usize)
        ensures
            n == 1,
    {
        1
    }

    /// Append the second invocation's bindings for slot `k`.
    fn push_null_slot(&self, steps: &mut Vec<Step>, k: usize)
        requires
            Self::fits(),
            k < COVER,
        ensures
            final(steps)@ == old(steps)@ + null_slot_steps(R as int, COVER as int, k as int),
    {
        proof {
            Self::lemma_widths();
            assert(k * block_width_spec(R as int) + block_width_spec(R as int) <= COVER
                * block_width_spec(R as int)) by (nonlinear_arith)
                requires
                    k < COVER,
                    R <= 1,
            ;
        }
        assert(PER_NODE == 6);
        let bw = self.inner.block_width();
        let oo = output_offset::<R>();
        let nb = self.null_base();
        let node = self.inner.node_base_pub();
        let blk = nb + k * bw;
        assert(k * 6 + 6 <= 6 * COVER) by (nonlinear_arith)
            requires
                k < COVER,
        ;
        assert(node == node_base_spec(COVER as int));
        assert(node + k * PER_NODE + PER_NODE <= value_cols_spec(COVER as int));
        let n = node + k * PER_NODE;
        steps.push(Step::Eq(col(blk), col(n + NODE_KEY)));
        steps.push(Step::Eq(col(blk + 1), col(n + NODE_KEY + 1)));
        steps.push(Step::Eq(col(blk + SECRET_ELEMS), Expr::Const(DOMAIN_NULL)));
        steps.push(Step::Zero(col(blk + 3)));
        steps.push(Step::Zero(col(blk + 4)));
        steps.push(Step::Zero(col(blk + 5)));
        steps.push(Step::Zero(col(blk + 6)));
        steps.push(Step::Zero(col(blk + 7)));
        steps.push(Step::Eq(col(n + NODE_NULL), col(blk + oo)));
        assert(final(steps)@ =~= old(steps)@ + null_slot_steps(R as int, COVER as int, k as int));
    }

    /// The constraints.
    pub fn constrain(&self) -> (steps: Vec<Step>)
        requires
            Self::fits(),
        ensures
            steps@ == spend_two_steps(R as int, DEPTH as int, COVER as int),
    {
        proof {
            Self::lemma_widths();
        }
        let mut steps = self.inner.constrain_with(0, true);
        let bw = self.inner.block_width();
        let nb = self.null_base();
        push_blocks(&mut steps, nb, COVER, bw);
        let ghost pre = steps@;
        let mut k: usize = 0;
        while k < COVER
            invariant
                Self::fits(),
                k <= COVER,
                steps@ == pre + null_slots(R as int, COVER as int, k as int),
            decreases COVER - k,
        {
            self.push_null_slot(&mut steps, k);
            k += 1;
        }
        steps
    }
}

} // verus!
