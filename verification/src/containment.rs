//! Delegation containment: a sub-delegation may not grant more than its
//! parent holds, and the units it is granted must leave the parent's reach.
//!
//! Both policies are opened here rather than assumed: each party's block is
//! absorbed by its own sponge and the two outputs are public, so the values
//! compared are the values the two records commit to. Allowlist containment
//! is one Merkle inclusion of the child's root under the parent's for each
//! list.
use crate::air::{push_range_blocks, range_blocks_spec, DIGEST, RANGE_BITS};
use crate::expr::{col, minus, times, Expr, Step};
use crate::full::{binding_steps, block_steps, push_bindings, push_blocks, push_start, start_steps, C9_PERMUTATIONS};
use crate::hash::{block_width, block_width_spec, output_offset, DOMAIN_OPENING, WIDTH};
use crate::merkle::{level_width_spec, merkle_steps, merkle_width_spec, MerkleAir};
use crate::whole::{chain_steps, push_chain};
use vstd::prelude::*;

verus! {

// A policy block, laid out in the order the opening sponge absorbs it, so the
// column of absorbed element e is e.
pub const P_B: usize = 0;

pub const P_C: usize = 1;

pub const P_TSTART: usize = 2;

pub const P_TEXP: usize = 3;

pub const P_N: usize = 4;

pub const P_W: usize = 5;

pub const P_G: usize = 6;

pub const P_MROOT: usize = 7;

pub const P_CROOT: usize = P_MROOT + DIGEST;

pub const P_R: usize = P_CROOT + DIGEST;

pub const POLICY_COLS: usize = P_R + 1;

pub const PARENT: usize = 0;

pub const CHILD: usize = POLICY_COLS;

/// The canonical unit, which turns the two committed values into unit counts.
pub const C_UNIT: usize = 2 * POLICY_COLS;

pub const C_CM: usize = C_UNIT + 1;

pub const C_CG: usize = C_CM + 1;

/// Public, from the child's record: the length of the range it was granted,
/// and the offset and length of the block it publishes for its own
/// sub-delegations.
pub const C_LEN: usize = C_CG + 1;

pub const C_P: usize = C_LEN + 1;

pub const C_BLK: usize = C_P + 1;

pub const VALUE_COLS: usize = C_BLK + 1;

/// Windows, caps, counts, the units the child may commit, and the two ends
/// of the block it publishes.
pub const GAPS: usize = 7;

/// Both commitments, then the granted length and the child's published block.
pub const PUBLIC_VALUES: usize = 2 * DIGEST + 3;

pub struct ContainmentAir<const R: usize, const DEPTH: usize> {
    pub merchant: MerkleAir<R, DEPTH>,
    pub category: MerkleAir<R, DEPTH>,
}

/// Where each region starts: the merchant path, the category path, the
/// parent's sponge, the child's sponge, and the gap decompositions.
pub open spec fn containment_offsets(r: int, depth: int) -> (int, int, int, int, int) {
    let pw = merkle_width_spec(r, depth);
    let bw = block_width_spec(r);
    let m0 = VALUE_COLS as int;
    let c0 = m0 + pw;
    let s0 = c0 + pw;
    let s1 = s0 + C9_PERMUTATIONS * bw;
    let g0 = s1 + C9_PERMUTATIONS * bw;
    (m0, c0, s0, s1, g0)
}

pub open spec fn containment_width_spec(r: int, depth: int) -> int {
    containment_offsets(r, depth).4 + GAPS * RANGE_BITS
}

/// The columns of a party's policy block, in absorption order.
pub open spec fn block_sources(block: int) -> Seq<usize> {
    Seq::new(POLICY_COLS as nat, |e: int| (block + e) as usize)
}

/// One party's opening: its block absorbed lane for lane, the sponge's
/// starting state and chaining, and the output equal to its public
/// commitment.
pub open spec fn party_steps(r: int, party: int, block: int, sbase: int) -> Seq<Step> {
    let bw = block_width_spec(r);
    let last = sbase + (C9_PERMUTATIONS - 1) * bw + bw - WIDTH;
    binding_steps(block_sources(block), sbase, bw) + start_steps(sbase, DOMAIN_OPENING) + chain_steps(
        sbase,
        POLICY_COLS as int,
        bw,
        C9_PERMUTATIONS as int,
    ) + Seq::new(
        DIGEST as nat,
        |j: int| Step::Eq(Expr::Col((last + j) as usize), Expr::Pub((party * DIGEST + j) as usize)),
    )
}

/// The path from the child's committed root up to the parent's, for both
/// allowlists, lane by lane.
pub open spec fn containment_roots(mroot: int, m0: int, croot: int, c0: int) -> Seq<Step> {
    Seq::new(
        4 * DIGEST as nat,
        |q: int|
            if q % 4 == 0 {
                Step::Eq(Expr::Col((PARENT + P_MROOT + q / 4) as usize), Expr::Col((mroot + q / 4) as usize))
            } else if q % 4 == 1 {
                Step::Eq(Expr::Col((CHILD + P_MROOT + q / 4) as usize), Expr::Col((m0 + q / 4) as usize))
            } else if q % 4 == 2 {
                Step::Eq(Expr::Col((PARENT + P_CROOT + q / 4) as usize), Expr::Col((croot + q / 4) as usize))
            } else {
                Step::Eq(Expr::Col((CHILD + P_CROOT + q / 4) as usize), Expr::Col((c0 + q / 4) as usize))
            },
    )
}

/// The counts are the committed values over the unit, the windows are
/// equal, and the granted length and published block are the record's.
pub open spec fn containment_counts() -> Seq<Step> {
    let u = Expr::Col(C_UNIT);
    seq![
        Step::Eq(Expr::Mul(Box::new(u), Box::new(Expr::Col(C_CM))), Expr::Col((CHILD + P_B) as usize)),
        Step::Eq(Expr::Mul(Box::new(u), Box::new(Expr::Col(C_CG))), Expr::Col((CHILD + P_G) as usize)),
        Step::Eq(Expr::Col((PARENT + P_W) as usize), Expr::Col((CHILD + P_W) as usize)),
        Step::Eq(Expr::Col(C_LEN), Expr::Pub((2 * DIGEST) as usize)),
        Step::Eq(Expr::Col(C_P), Expr::Pub((2 * DIGEST + 1) as usize)),
        Step::Eq(Expr::Col(C_BLK), Expr::Pub((2 * DIGEST + 2) as usize)),
    ]
}

pub open spec fn diff(a: int, b: int) -> Expr {
    Expr::Sub(Box::new(Expr::Col(a as usize)), Box::new(Expr::Col(b as usize)))
}

/// The child's window inside the parent's, its cap, count and units within
/// the parent's, and its published block inside what it holds and after its
/// own units.
pub open spec fn containment_gaps() -> Seq<Expr> {
    seq![
        diff(CHILD + P_TSTART, PARENT + P_TSTART),
        diff(PARENT + P_TEXP, CHILD + P_TEXP),
        diff(PARENT + P_C, CHILD + P_C),
        diff(PARENT + P_N, CHILD + P_N),
        diff(C_LEN as int, C_CM as int),
        diff(C_P as int, C_CG as int),
        Expr::Sub(Box::new(diff(C_CM as int, C_P as int)), Box::new(Expr::Col(C_BLK))),
    ]
}

/// The containment circuit's constraints.
pub open spec fn containment_steps(r: int, depth: int) -> Seq<Step> {
    let (m0, c0, s0, s1, g0) = containment_offsets(r, depth);
    let bw = block_width_spec(r);
    let root = depth * level_width_spec(r);
    merkle_steps(r, m0, depth) + merkle_steps(r, c0, depth) + block_steps(
        s0,
        2 * C9_PERMUTATIONS as int,
        bw,
    ) + party_steps(r, 0, PARENT as int, s0) + party_steps(r, 1, CHILD as int, s1)
        + containment_roots(m0 + root, m0, c0 + root, c0) + containment_counts() + range_blocks_spec(
        containment_gaps(),
        g0,
    )
}

/// The columns of a party's policy block.
fn block_source_cols(block: usize) -> (v: Vec<usize>)
    requires
        block + POLICY_COLS <= usize::MAX,
    ensures
        v@ == block_sources(block as int),
{
    let mut v: Vec<usize> = Vec::new();
    let mut e: usize = 0;
    while e < POLICY_COLS
        invariant
            e <= POLICY_COLS,
            block + POLICY_COLS <= usize::MAX,
            v@ == block_sources(block as int).take(e as int),
        decreases POLICY_COLS - e,
    {
        v.push(block + e);
        e += 1;
        assert(v@ =~= block_sources(block as int).take(e as int));
    }
    assert(block_sources(block as int).take(e as int) =~= block_sources(block as int));
    v
}

impl<const R: usize, const DEPTH: usize> ContainmentAir<R, DEPTH> {
    /// The dimensions the circuit supports.
    pub open spec fn fits() -> bool {
        &&& R <= 1
        &&& containment_width_spec(R as int, DEPTH as int) <= usize::MAX
    }

    pub fn new() -> (a: Self) {
        ContainmentAir { merchant: MerkleAir::<R, DEPTH>::new(), category: MerkleAir::<R, DEPTH>::new() }
    }

    proof fn lemma_offsets()
        requires
            Self::fits(),
        ensures
            merkle_width_spec(R as int, DEPTH as int) >= DIGEST,
            DEPTH * level_width_spec(R as int) >= 0,
            containment_offsets(R as int, DEPTH as int).4 == VALUE_COLS + 2 * merkle_width_spec(
                R as int,
                DEPTH as int,
            ) + 8 * block_width_spec(R as int),
            containment_offsets(R as int, DEPTH as int).3 == VALUE_COLS + 2 * merkle_width_spec(
                R as int,
                DEPTH as int,
            ) + 4 * block_width_spec(R as int),
    {
        assert(C9_PERMUTATIONS == 4);
        assert(DEPTH * level_width_spec(R as int) >= 0) by (nonlinear_arith)
            requires
                R <= 1,
        ;
    }

    pub fn path_width(&self) -> (n: usize)
        requires
            Self::fits(),
        ensures
            n == merkle_width_spec(R as int, DEPTH as int),
    {
        proof {
            Self::lemma_offsets();
        }
        self.merchant.width()
    }

    pub fn block_width(&self) -> (n: usize)
        requires
            R <= 1,
        ensures
            n == block_width_spec(R as int),
    {
        block_width::<R>()
    }

    pub fn width(&self) -> (n: usize)
        requires
            Self::fits(),
        ensures
            n == containment_width_spec(R as int, DEPTH as int),
    {
        proof {
            Self::lemma_offsets();
        }
        assert(C9_PERMUTATIONS == 4);
        VALUE_COLS + 2 * self.path_width() + 2 * C9_PERMUTATIONS * self.block_width() + GAPS
            * RANGE_BITS
    }

    pub fn num_public_values(&self) -> (n: usize)
        ensures
            n == PUBLIC_VALUES,
    {
        PUBLIC_VALUES
    }

    /// Append one party's opening.
    fn push_party(&self, steps: &mut Vec<Step>, party: usize, block: usize, sbase: usize)
        requires
            Self::fits(),
            party <= 1,
            block <= CHILD,
            sbase + C9_PERMUTATIONS * block_width_spec(R as int) + GAPS * RANGE_BITS <= containment_width_spec(
                R as int,
                DEPTH as int,
            ),
        ensures
            final(steps)@ == old(steps)@ + party_steps(R as int, party as int, block as int, sbase as int),
    {
        assert(C9_PERMUTATIONS == 4);
        let bw = self.block_width();
        let oo = output_offset::<R>();
        assert(C9_PERMUTATIONS * bw == 4 * bw) by (nonlinear_arith)
            requires
                C9_PERMUTATIONS == 4,
        ;
        assert(sbase + 4 * bw + GAPS * RANGE_BITS <= usize::MAX);
        let srcs = block_source_cols(block);
        let ghost s0 = steps@;
        push_bindings(steps, srcs.as_slice(), sbase, bw);
        push_start(steps, sbase, DOMAIN_OPENING);
        push_chain(steps, sbase, C9_PERMUTATIONS, POLICY_COLS, bw);
        assert((C9_PERMUTATIONS - 1) * bw == 3 * bw) by (nonlinear_arith)
            requires
                C9_PERMUTATIONS == 4,
        ;
        assert(oo + WIDTH == bw);
        let last = sbase + (C9_PERMUTATIONS - 1) * bw + oo;
        let ghost s1 = steps@;
        let mut j: usize = 0;
        while j < DIGEST
            invariant
                j <= DIGEST,
                party <= 1,
                last + DIGEST <= usize::MAX,
                steps@ == s1 + Seq::new(
                    j as nat,
                    |q: int| Step::Eq(Expr::Col((last + q) as usize), Expr::Pub((party * DIGEST + q) as usize)),
                ),
            decreases DIGEST - j,
        {
            steps.push(Step::Eq(col(last + j), Expr::Pub(party * DIGEST + j)));
            j += 1;
            assert(steps@ =~= s1 + Seq::new(
                j as nat,
                |q: int| Step::Eq(Expr::Col((last + q) as usize), Expr::Pub((party * DIGEST + q) as usize)),
            ));
        }
        assert(steps@ =~= s0 + party_steps(R as int, party as int, block as int, sbase as int));
    }

    /// Append the root bindings of both allowlists, lane by lane.
    fn push_containment_roots(&self, steps: &mut Vec<Step>, mroot: usize, m0: usize, croot: usize, c0: usize)
        requires
            mroot + DIGEST <= usize::MAX,
            m0 + DIGEST <= usize::MAX,
            croot + DIGEST <= usize::MAX,
            c0 + DIGEST <= usize::MAX,
        ensures
            final(steps)@ == old(steps)@ + containment_roots(mroot as int, m0 as int, croot as int, c0 as int),
    {
        let ghost all = containment_roots(mroot as int, m0 as int, croot as int, c0 as int);
        let mut j: usize = 0;
        while j < DIGEST
            invariant
                j <= DIGEST,
                mroot + DIGEST <= usize::MAX,
                m0 + DIGEST <= usize::MAX,
                croot + DIGEST <= usize::MAX,
                c0 + DIGEST <= usize::MAX,
                all == containment_roots(mroot as int, m0 as int, croot as int, c0 as int),
                steps@ == old(steps)@ + all.take(4 * j),
            decreases DIGEST - j,
        {
            steps.push(Step::Eq(col(PARENT + P_MROOT + j), col(mroot + j)));
            steps.push(Step::Eq(col(CHILD + P_MROOT + j), col(m0 + j)));
            steps.push(Step::Eq(col(PARENT + P_CROOT + j), col(croot + j)));
            steps.push(Step::Eq(col(CHILD + P_CROOT + j), col(c0 + j)));
            j += 1;
            assert(steps@ =~= old(steps)@ + all.take(4 * j));
        }
        assert(all.take(4 * j) =~= all);
    }

    /// The constraints: both paths, both sponges, each party's opening, the
    /// containment of the child's roots under the parent's, the counts, and
    /// the seven comparisons.
    pub fn constrain(&self) -> (steps: Vec<Step>)
        requires
            Self::fits(),
        ensures
            steps@ == containment_steps(R as int, DEPTH as int),
    {
        proof {
            Self::lemma_offsets();
        }
        assert(C9_PERMUTATIONS == 4);
        let pw = self.path_width();
        let bw = self.block_width();
        let m0 = VALUE_COLS;
        let c0 = m0 + pw;
        let s0 = c0 + pw;
        let s1 = s0 + C9_PERMUTATIONS * bw;
        let g0 = s1 + C9_PERMUTATIONS * bw;
        assert(s0 + 2 * C9_PERMUTATIONS * bw == g0);
        assert(g0 + GAPS * RANGE_BITS == containment_width_spec(R as int, DEPTH as int));
        let mut steps = self.merchant.constrain(m0);
        let mut s = self.category.constrain(c0);
        steps.append(&mut s);
        push_blocks(&mut steps, s0, 2 * C9_PERMUTATIONS, bw);
        self.push_party(&mut steps, 0, PARENT, s0);
        self.push_party(&mut steps, 1, CHILD, s1);
        let mroot = m0 + self.merchant.root_offset();
        let croot = c0 + self.category.root_offset();
        self.push_containment_roots(&mut steps, mroot, m0, croot, c0);
        let mut t = containment_tail(g0);
        steps.append(&mut t);
        steps
    }
}

/// The counts and the seven comparisons, with the decompositions from `g0`.
fn containment_tail(g0: usize) -> (steps: Vec<Step>)
    requires
        g0 + GAPS * RANGE_BITS <= usize::MAX,
    ensures
        steps@ == containment_counts() + range_blocks_spec(containment_gaps(), g0 as int),
{
    let mut steps: Vec<Step> = Vec::new();
    let u = C_UNIT;
    steps.push(Step::Eq(times(col(u), col(C_CM)), col(CHILD + P_B)));
    steps.push(Step::Eq(times(col(u), col(C_CG)), col(CHILD + P_G)));
    steps.push(Step::Eq(col(PARENT + P_W), col(CHILD + P_W)));
    steps.push(Step::Eq(col(C_LEN), Expr::Pub(2 * DIGEST)));
    steps.push(Step::Eq(col(C_P), Expr::Pub(2 * DIGEST + 1)));
    steps.push(Step::Eq(col(C_BLK), Expr::Pub(2 * DIGEST + 2)));
    assert(steps@ =~= containment_counts());
    let mut gaps: Vec<Expr> = Vec::new();
    gaps.push(minus(col(CHILD + P_TSTART), col(PARENT + P_TSTART)));
    gaps.push(minus(col(PARENT + P_TEXP), col(CHILD + P_TEXP)));
    gaps.push(minus(col(PARENT + P_C), col(CHILD + P_C)));
    gaps.push(minus(col(PARENT + P_N), col(CHILD + P_N)));
    gaps.push(minus(col(C_LEN), col(C_CM)));
    gaps.push(minus(col(C_P), col(C_CG)));
    gaps.push(minus(minus(col(C_CM), col(C_P)), col(C_BLK)));
    assert(gaps@ =~= containment_gaps());
    push_range_blocks(&mut steps, gaps, g0);
    steps
}

} // verus!
