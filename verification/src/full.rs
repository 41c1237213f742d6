//! The policy clauses together with the opening constraint C9: a sponge over
//! the policy's fields whose output is the commitment to the policy.
//!
//! The sponge helpers here (blocks, absorbed lanes, starting state) are shared
//! with the whole circuit, which runs two sponges.
use crate::air::{
    is_circuit_clause, policy_src, policy_src_spec, policy_steps, sum_range_checks, PolicyAir,
    ALL_CLAUSES, DIGEST, POLICY_ELEMS, RANGE_BITS, VALUE_COLS,
};
use crate::expr::{col, Expr, Step};
use crate::hash::{block_width, block_width_spec, DOMAIN_OPENING, WIDTH};
use crate::whole::{chain_steps, push_chain};
use vstd::prelude::*;

verus! {

/// Elements absorbed by C9: the policy scalars, both Merkle roots in full,
/// and the blinding value.
pub const C9_ELEMENTS: usize = POLICY_ELEMS;

/// Sponge rate at width 8 with a capacity of 4.
pub const RATE: usize = 4;

/// Permutations C9 takes: its elements in rate-sized chunks, rounded up.
pub const C9_PERMUTATIONS: usize = (C9_ELEMENTS + RATE - 1) / RATE;

/// One permutation block per sponge step, consecutive from `start`.
pub open spec fn block_steps(start: int, perms: int, bw: int) -> Seq<Step> {
    Seq::new(perms as nat, |i: int| Step::Hash((start + i * bw) as usize))
}

/// The lane of the sponge at `start` that absorbs element `e`.
pub open spec fn absorbed_lane(start: int, bw: int, e: int) -> int {
    start + (e / (RATE as int)) * bw + e % (RATE as int)
}

/// Each absorbed lane equals the column its element is drawn from.
pub open spec fn binding_steps(srcs: Seq<usize>, start: int, bw: int) -> Seq<Step> {
    Seq::new(
        srcs.len(),
        |e: int| Step::Eq(Expr::Col(srcs[e]), Expr::Col(absorbed_lane(start, bw, e) as usize)),
    )
}

/// The sponge starts at its domain separator in the first capacity lane and
/// zero in the others.
pub open spec fn start_steps(start: int, domain: u64) -> Seq<Step> {
    seq![
        Step::Eq(Expr::Col((start + RATE) as usize), Expr::Const(domain)),
        Step::Zero(Expr::Col((start + RATE + 1) as usize)),
        Step::Zero(Expr::Col((start + RATE + 2) as usize)),
        Step::Zero(Expr::Col((start + RATE + 3) as usize)),
    ]
}

/// The policy columns C9 absorbs, at column offset `base`.
pub open spec fn policy_sources(base: int) -> Seq<usize> {
    Seq::new(C9_ELEMENTS as nat, |e: int| (base + policy_src_spec(e)) as usize)
}

/// Width of the policy columns for the clauses the circuit carries.
pub open spec fn policy_width_spec() -> int {
    VALUE_COLS + 3 * RANGE_BITS
}

/// The first `DIGEST` lanes of the output at `last` are the public values:
/// the commitment the circuit produces.
pub open spec fn commitment_steps(last: int) -> Seq<Step> {
    Seq::new(DIGEST as nat, |j: int| Step::Eq(Expr::Col((last + j) as usize), Expr::Pub(j as usize)))
}

/// Where the final permutation's output starts.
pub open spec fn full_output_spec(r: int) -> int {
    policy_width_spec() + (C9_PERMUTATIONS - 1) * block_width_spec(r) + block_width_spec(r) - WIDTH
}

/// The circuit's constraints: the policy clauses, the sponge's blocks, the
/// binding of each absorbed lane to its policy column, the sponge's
/// starting state, the chaining of each step to the previous one, and the
/// commitment its final output produces.
pub open spec fn full_steps(r: int) -> Seq<Step> {
    let bw = block_width_spec(r);
    let base = policy_width_spec();
    policy_steps(ALL_CLAUSES@, 0) + block_steps(base, C9_PERMUTATIONS as int, bw) + binding_steps(
        policy_sources(0),
        base,
        bw,
    ) + start_steps(base, DOMAIN_OPENING) + chain_steps(base, C9_ELEMENTS as int, bw, C9_PERMUTATIONS as int)
        + commitment_steps(full_output_spec(r))
}

/// Append the commitment the final output produces.
pub fn push_commitment(steps: &mut Vec<Step>, last: usize)
    requires
        last + DIGEST <= usize::MAX,
    ensures
        final(steps)@ == old(steps)@ + commitment_steps(last as int),
{
    let mut j: usize = 0;
    while j < DIGEST
        invariant
            j <= DIGEST,
            last + DIGEST <= usize::MAX,
            steps@ == old(steps)@ + commitment_steps(last as int).take(j as int),
        decreases DIGEST - j,
    {
        steps.push(Step::Eq(col(last + j), Expr::Pub(j)));
        j += 1;
        assert(steps@ =~= old(steps)@ + commitment_steps(last as int).take(j as int));
    }
    assert(commitment_steps(last as int).take(j as int) =~= commitment_steps(last as int));
}

pub open spec fn full_width_spec(r: int) -> int {
    policy_width_spec() + C9_PERMUTATIONS * block_width_spec(r)
}

/// The clauses the circuit carries range-check three gaps.
pub proof fn lemma_all_clauses_gaps()
    ensures
        sum_range_checks(ALL_CLAUSES@) == 3,
        forall|i: int| 0 <= i < ALL_CLAUSES@.len() ==> is_circuit_clause(#[trigger] ALL_CLAUSES@[i]),
        ALL_CLAUSES@.len() == 4,
{
    let s = ALL_CLAUSES@;
    reveal_with_fuel(sum_range_checks, 5);
    assert(s.drop_last().drop_last().drop_last().drop_last() =~= Seq::<crate::air::Clause>::empty());
}

/// Append one permutation block per sponge step.
pub fn push_blocks(steps: &mut Vec<Step>, start: usize, perms: usize, bw: usize)
    requires
        start + perms * bw <= usize::MAX,
    ensures
        final(steps)@ == old(steps)@ + block_steps(start as int, perms as int, bw as int),
{
    let mut i: usize = 0;
    while i < perms
        invariant
            i <= perms,
            start + perms * bw <= usize::MAX,
            steps@ == old(steps)@ + block_steps(start as int, perms as int, bw as int).take(i as int),
        decreases perms - i,
    {
        assert(start + i * bw <= start + perms * bw) by (nonlinear_arith)
            requires
                i < perms,
        ;
        steps.push(Step::Hash(start + i * bw));
        i += 1;
        assert(steps@ =~= old(steps)@ + block_steps(start as int, perms as int, bw as int).take(
            i as int,
        ));
    }
    assert(block_steps(start as int, perms as int, bw as int).take(i as int) =~= block_steps(
        start as int,
        perms as int,
        bw as int,
    ));
}

/// Append the binding of each absorbed lane to the column it is drawn from.
pub fn push_bindings(steps: &mut Vec<Step>, srcs: &[usize], start: usize, bw: usize)
    requires
        start + ((srcs@.len() as int) / (RATE as int)) * bw + RATE <= usize::MAX,
    ensures
        final(steps)@ == old(steps)@ + binding_steps(srcs@, start as int, bw as int),
{
    let n = srcs.len();
    let mut e: usize = 0;
    while e < n
        invariant
            n == srcs@.len(),
            e <= n,
            start + ((n as int) / (RATE as int)) * bw + RATE <= usize::MAX,
            steps@ == old(steps)@ + binding_steps(srcs@, start as int, bw as int).take(e as int),
        decreases n - e,
    {
        assert((e / 4) * bw <= (n / 4) * bw) by (nonlinear_arith)
            requires
                e < n,
        ;
        let lane = start + (e / RATE) * bw + (e % RATE);
        steps.push(Step::Eq(col(srcs[e]), col(lane)));
        e += 1;
        assert(steps@ =~= old(steps)@ + binding_steps(srcs@, start as int, bw as int).take(
            e as int,
        ));
    }
    assert(binding_steps(srcs@, start as int, bw as int).take(e as int) =~= binding_steps(
        srcs@,
        start as int,
        bw as int,
    ));
}

/// Append the sponge's starting state.
pub fn push_start(steps: &mut Vec<Step>, start: usize, domain: u64)
    requires
        start + WIDTH <= usize::MAX,
    ensures
        final(steps)@ == old(steps)@ + start_steps(start as int, domain),
{
    steps.push(Step::Eq(col(start + RATE), Expr::Const(domain)));
    steps.push(Step::Zero(col(start + RATE + 1)));
    steps.push(Step::Zero(col(start + RATE + 2)));
    steps.push(Step::Zero(col(start + RATE + 3)));
    assert(final(steps)@ =~= old(steps)@ + start_steps(start as int, domain));
}

/// The policy columns C9 absorbs, offset by `base`.
pub fn policy_source_cols(base: usize) -> (v: Vec<usize>)
    requires
        base + VALUE_COLS <= usize::MAX,
    ensures
        v@ == policy_sources(base as int),
{
    let mut v: Vec<usize> = Vec::new();
    let mut e: usize = 0;
    while e < C9_ELEMENTS
        invariant
            e <= C9_ELEMENTS,
            base + VALUE_COLS <= usize::MAX,
            v@ == policy_sources(base as int).take(e as int),
        decreases C9_ELEMENTS - e,
    {
        v.push(base + policy_src(e));
        e += 1;
        assert(v@ =~= policy_sources(base as int).take(e as int));
    }
    assert(policy_sources(base as int).take(e as int) =~= policy_sources(base as int));
    v
}

/// Policy clauses plus the opening constraint, laid out as the policy
/// columns followed by one column block per permutation.
pub struct FullAir<const R: usize> {
    pub policy: PolicyAir,
}

impl<const R: usize> FullAir<R> {
    /// The circuit carries the clauses a proof can establish on its own.
    pub open spec fn wf(&self) -> bool {
        self.policy.clauses@ == ALL_CLAUSES@
    }

    pub fn new() -> (a: Self)
        ensures
            a.wf(),
    {
        FullAir { policy: PolicyAir::new(&ALL_CLAUSES) }
    }

    pub fn policy_width(&self) -> (n: usize)
        requires
            self.wf(),
        ensures
            n == policy_width_spec(),
    {
        proof {
            lemma_all_clauses_gaps();
        }
        self.policy.width()
    }

    pub fn block_width(&self) -> (n: usize)
        requires
            R <= 1,
        ensures
            n == block_width_spec(R as int),
    {
        block_width::<R>()
    }

    pub fn width(&self) -> (n: usize)
        requires
            self.wf(),
            R <= 1,
        ensures
            n == full_width_spec(R as int),
    {
        assert(C9_PERMUTATIONS == 4);
        self.policy_width() + C9_PERMUTATIONS * self.block_width()
    }

    /// The constraints: the policy's at absolute columns, one permutation
    /// per sponge step, each absorbed element bound to the policy column the
    /// clauses read, and the sponge's starting state.
    pub fn constrain(&self) -> (steps: Vec<Step>)
        requires
            self.wf(),
            R <= 1,
        ensures
            steps@ == full_steps(R as int),
    {
        proof {
            lemma_all_clauses_gaps();
        }
        assert(C9_PERMUTATIONS == 4);
        assert(C9_ELEMENTS == 16);
        let mut steps = self.policy.constrain(0);
        let base = self.policy_width();
        let bw = self.block_width();
        push_blocks(&mut steps, base, C9_PERMUTATIONS, bw);
        let srcs = policy_source_cols(0);
        push_bindings(&mut steps, srcs.as_slice(), base, bw);
        push_start(&mut steps, base, DOMAIN_OPENING);
        push_chain(&mut steps, base, C9_PERMUTATIONS, C9_ELEMENTS, bw);
        let last = base + (C9_PERMUTATIONS - 1) * bw + bw - WIDTH;
        push_commitment(&mut steps, last);
        steps
    }

    /// The commitment the circuit produces.
    pub fn num_public_values(&self) -> (n: usize)
        ensures
            n == DIGEST,
    {
        DIGEST
    }
}

} // verus!
