//! The whole compliance circuit: the policy clauses, C9's commitment sponge,
//! C7's payload sponge, both allowlist paths, non-revocation, and the glue
//! columns the components are bound against.
use crate::air::{
    policy_steps, PolicyAir, ALL_CLAUSES, COL_CID, COL_CROOT, COL_MID, COL_MROOT, DIGEST,
    PAYLOAD_ELEMS, PAYLOAD_SRC, POLICY_ELEMS, RANGE_BITS, VALUE_COLS,
};
use crate::expr::{col, shift, shift_steps, Expr, Step};
use crate::full::{
    binding_steps, block_steps, lemma_all_clauses_gaps, policy_source_cols, policy_sources,
    policy_width_spec, push_bindings, push_blocks, push_start, start_steps, C9_PERMUTATIONS, RATE,
};
use crate::hash::{block_width, block_width_spec, output_offset, DOMAIN_OPENING, DOMAIN_PAYLOAD, WIDTH};
use crate::merkle::{level_width_spec, merkle_steps, merkle_width_spec, MerkleAir};
use crate::revocation::{nonmembership_steps, nonmembership_width_spec, NonMembershipAir};
use vstd::prelude::*;

verus! {

/// C9 absorbs the policy and nothing else, so the commitment is the same for
/// every payment under it.
pub const ABSORBED: usize = POLICY_ELEMS;

/// C7's own sponge over the six payload fields. The digest is its output's
/// first lane, which is also the share index.
pub const PAYLOAD_PERMUTATIONS: usize = (PAYLOAD_ELEMS + RATE - 1) / RATE;

/// Glue columns: the revocation root, the payload digest, and the two ends
/// of the run of units the payment consumes.
pub const GLUE: usize = DIGEST + 3;

/// Public values a verifier supplies: the payload digest, the revocation
/// accumulator root, and the delegation commitment.
pub const PUBLIC_VALUES: usize = 1 + DIGEST + DIGEST;

/// Where each component starts: C9's blocks, C7's blocks, the merchant path,
/// the category path, non-revocation, and the glue.
pub open spec fn whole_offsets(r: int, md: int, rd: int) -> (int, int, int, int, int, int) {
    let p = policy_width_spec();
    let pl = p + C9_PERMUTATIONS * block_width_spec(r);
    let h = pl + PAYLOAD_PERMUTATIONS * block_width_spec(r);
    let mc = h + merkle_width_spec(r, md);
    let ct = mc + merkle_width_spec(r, md);
    let rv = ct + nonmembership_width_spec(r, rd);
    (p, pl, h, mc, ct, rv)
}

pub open spec fn whole_width_spec(r: int, md: int, rd: int) -> int {
    whole_offsets(r, md, rd).5 + GLUE
}

/// The payload columns C7 absorbs, at column offset `base`.
pub open spec fn payload_sources(base: int) -> Seq<usize> {
    Seq::new(PAYLOAD_ELEMS as nat, |e: int| (base + PAYLOAD_SRC[e]) as usize)
}

/// The lanes step `i` of a sponge over `elems` elements carries from the
/// previous step's output: every lane the step does not absorb.
pub open spec fn chain_link(start: int, elems: int, bw: int, i: int) -> Seq<Step> {
    let taken = if (RATE as int) < elems - i * RATE {
        RATE as int
    } else {
        elems - i * RATE
    };
    let prev_out = start + (i - 1) * bw + bw - WIDTH;
    let next_in = start + i * bw;
    Seq::new(
        (WIDTH - taken) as nat,
        |l: int| Step::Eq(Expr::Col((prev_out + taken + l) as usize), Expr::Col((next_in + taken + l) as usize)),
    )
}

/// The chaining constraints between the first `k` steps of a sponge.
pub open spec fn chain_steps(start: int, elems: int, bw: int, k: int) -> Seq<Step>
    decreases k,
{
    if k <= 1 {
        seq![]
    } else {
        chain_steps(start, elems, bw, k - 1) + chain_link(start, elems, bw, k - 1)
    }
}

/// Each recomputed root equals the root the policy commits to, lane for
/// lane, and the revocation root equals the glue's.
pub open spec fn root_steps(base: int, mroot: int, croot: int, g_rroot: int, rroot: int) -> Seq<Step> {
    Seq::new(
        3 * DIGEST as nat,
        |q: int|
            if q % 3 == 0 {
                Step::Eq(Expr::Col((base + COL_MROOT + q / 3) as usize), Expr::Col((mroot + q / 3) as usize))
            } else if q % 3 == 1 {
                Step::Eq(Expr::Col((base + COL_CROOT + q / 3) as usize), Expr::Col((croot + q / 3) as usize))
            } else {
                Step::Eq(Expr::Col((g_rroot + q / 3) as usize), Expr::Col((rroot + q / 3) as usize))
            },
    )
}

/// Each allowlist leaf carries the identifier in its first lane and zeros in
/// the rest.
pub open spec fn leaf_steps(base: int, h: int, mc: int) -> Seq<Step> {
    seq![
        Step::Eq(Expr::Col((base + COL_MID) as usize), Expr::Col(h as usize)),
        Step::Eq(Expr::Col((base + COL_CID) as usize), Expr::Col(mc as usize)),
    ] + Seq::new(
        2 * (DIGEST - 1) as nat,
        |q: int|
            if q % 2 == 0 {
                Step::Zero(Expr::Col((h + 1 + q / 2) as usize))
            } else {
                Step::Zero(Expr::Col((mc + 1 + q / 2) as usize))
            },
    )
}

/// The components' own constraints: the policy clauses, both sponges'
/// blocks, both allowlist paths, and non-revocation.
pub open spec fn whole_components(r: int, md: int, rd: int, base: int) -> Seq<Step> {
    let o = whole_offsets(r, md, rd);
    let bw = block_width_spec(r);
    policy_steps(ALL_CLAUSES@, base) + block_steps(base + o.0, C9_PERMUTATIONS as int, bw)
        + block_steps(base + o.1, PAYLOAD_PERMUTATIONS as int, bw) + shift_steps(
        merkle_steps(r, 0, md),
        base + o.2,
    ) + shift_steps(merkle_steps(r, 0, md), base + o.3) + shift_steps(
        nonmembership_steps(r, rd, 0),
        base + o.4,
    )
}

/// What binds the sponges to the row and the row to the public values: the
/// absorbed lanes to their columns, the payload digest to the glue and the
/// first public value, the revocation root and the commitment to theirs.
pub open spec fn whole_bindings(r: int, md: int, rd: int, base: int, bind_policy: bool) -> Seq<Step> {
    let o = whole_offsets(r, md, rd);
    let (p, pl, rv) = (base + o.0, base + o.1, base + o.5);
    let bw = block_width_spec(r);
    let oo = bw - WIDTH;
    let g_payload = rv + DIGEST;
    let last = p + (C9_PERMUTATIONS - 1) * bw + oo;
    (if bind_policy {
        binding_steps(policy_sources(base), p, bw)
    } else {
        seq![]
    }) + binding_steps(payload_sources(base), pl, bw) + seq![
        Step::Eq(
            Expr::Col((pl + (PAYLOAD_PERMUTATIONS - 1) * bw + oo) as usize),
            Expr::Col(g_payload as usize),
        ),
        Step::Eq(Expr::Col(g_payload as usize), Expr::Pub(0)),
    ] + Seq::new(DIGEST as nat, |j: int| Step::Eq(Expr::Col((rv + j) as usize), Expr::Pub((1 + j) as usize)))
        + Seq::new(
        DIGEST as nat,
        |j: int| Step::Eq(Expr::Col((last + j) as usize), Expr::Pub((1 + DIGEST + j) as usize)),
    )
}

/// The sponges' starting states and chaining, the root and leaf bindings,
/// and the run C8 is checked against.
pub open spec fn whole_glue(r: int, md: int, rd: int, base: int) -> Seq<Step> {
    let o = whole_offsets(r, md, rd);
    let (p, pl, h, mc, ct, rv) = (base + o.0, base + o.1, base + o.2, base + o.3, base + o.4, base
        + o.5);
    let bw = block_width_spec(r);
    let g_payload = rv + DIGEST;
    let run = ct + merkle_width_spec(r, rd);
    start_steps(p, DOMAIN_OPENING) + chain_steps(p, ABSORBED as int, bw, C9_PERMUTATIONS as int)
        + start_steps(pl, DOMAIN_PAYLOAD) + chain_steps(
        pl,
        PAYLOAD_ELEMS as int,
        bw,
        PAYLOAD_PERMUTATIONS as int,
    ) + root_steps(base, h + md * level_width_spec(r), mc + md * level_width_spec(r), rv, ct + rd
        * level_width_spec(r)) + leaf_steps(base, h, mc) + seq![
        Step::Eq(Expr::Col((g_payload + 1) as usize), Expr::Col(run as usize)),
        Step::Eq(Expr::Col((g_payload + 2) as usize), Expr::Col((run + 1) as usize)),
    ]
}

/// The whole circuit's constraints at column offset `base`, with C9's
/// binding of the absorbed lanes to the policy optionally left out.
pub open spec fn whole_steps(r: int, md: int, rd: int, base: int, bind_policy: bool) -> Seq<Step> {
    whole_components(r, md, rd, base) + whole_bindings(r, md, rd, base, bind_policy) + whole_glue(
        r,
        md,
        rd,
        base,
    )
}

/// The components follow one another: each offset is the previous one plus
/// that component's width, and every width is non-negative.
pub proof fn lemma_whole_offsets(r: int, md: int, rd: int)
    requires
        0 <= r <= 1,
        md >= 0,
        rd >= 0,
    ensures
        ({
            let o = whole_offsets(r, md, rd);
            &&& o.0 == policy_width_spec()
            &&& o.1 == o.0 + 4 * block_width_spec(r)
            &&& o.2 == o.1 + 2 * block_width_spec(r)
            &&& o.3 == o.2 + md * level_width_spec(r) + DIGEST
            &&& o.4 == o.3 + md * level_width_spec(r) + DIGEST
            &&& o.5 == o.4 + rd * level_width_spec(r) + DIGEST + 2 + 4 * 40
            &&& md * level_width_spec(r) >= 0
            &&& rd * level_width_spec(r) >= 0
        }),
{
    assert(md * level_width_spec(r) >= 0) by (nonlinear_arith)
        requires
            md >= 0,
            0 <= r <= 1,
    ;
    assert(rd * level_width_spec(r) >= 0) by (nonlinear_arith)
        requires
            rd >= 0,
            0 <= r <= 1,
    ;
}

/// The arithmetic the bindings' columns rest on: the two sponges sit one after
/// the other before the paths, and each output lies inside its last block.
proof fn lemma_binding_room(base: int, p0: int, pl0: int, h0: int, rv0: int, bw: int, oo: int)
    requires
        pl0 == p0 + 4 * bw,
        h0 == pl0 + 2 * bw,
        h0 <= rv0,
        oo + WIDTH == bw,
        bw >= WIDTH,
        0 <= base,
        0 <= p0,
        base + rv0 + 7 <= usize::MAX,
    ensures
        base + p0 + 3 * bw + oo + DIGEST <= base + pl0,
        base + pl0 + bw + oo + 1 <= base + h0,
        base + pl0 + bw + RATE <= base + h0,
        base + p0 + 4 * bw + RATE <= base + h0,
        base + h0 <= usize::MAX,
{
}

/// Append the chaining constraints of a sponge over `elems` elements.
pub fn push_chain(steps: &mut Vec<Step>, start: usize, perms: usize, elems: usize, bw: usize)
    requires
        bw >= WIDTH,
        perms >= 1,
        (perms - 1) * RATE < elems,
        start + perms * bw <= usize::MAX,
    ensures
        final(steps)@ == old(steps)@ + chain_steps(start as int, elems as int, bw as int, perms as int),
{
    let mut i: usize = 1;
    while i < perms
        invariant
            1 <= i <= perms,
            bw >= WIDTH,
            (perms - 1) * RATE < elems,
            start + perms * bw <= usize::MAX,
            steps@ == old(steps)@ + chain_steps(start as int, elems as int, bw as int, i as int),
        decreases perms - i,
    {
        assert(i * RATE <= (perms - 1) * RATE) by (nonlinear_arith)
            requires
                i <= perms - 1,
        ;
        assert(start + i * bw + bw <= start + perms * bw) by (nonlinear_arith)
            requires
                i < perms,
        ;
        assert((i - 1) * bw + bw == i * bw) by (nonlinear_arith);
        let left = elems - i * RATE;
        let taken = if RATE < left {
            RATE
        } else {
            left
        };
        let prev_out = start + (i - 1) * bw + bw - WIDTH;
        let next_in = start + i * bw;
        let ghost s0 = steps@;
        let ghost link = chain_link(start as int, elems as int, bw as int, i as int);
        let mut lane: usize = taken;
        while lane < WIDTH
            invariant
                taken <= lane <= WIDTH,
                taken <= RATE,
                next_in + WIDTH <= usize::MAX,
                prev_out + WIDTH <= next_in,
                link == chain_link(start as int, elems as int, bw as int, i as int),
                link.len() == WIDTH - taken,
                prev_out == start + (i - 1) * bw + bw - WIDTH,
                next_in == start + i * bw,
                taken == (if (RATE as int) < elems - i * RATE {
                    RATE as int
                } else {
                    elems - i * RATE
                }),
                steps@ == s0 + link.take(lane - taken),
            decreases WIDTH - lane,
        {
            steps.push(Step::Eq(col(prev_out + lane), col(next_in + lane)));
            lane += 1;
            assert(steps@ =~= s0 + link.take(lane - taken));
        }
        assert(link.take(WIDTH - taken) =~= link);
        i += 1;
    }
}

/// Append the root bindings, interleaved lane by lane.
fn push_roots(steps: &mut Vec<Step>, base: usize, mroot: usize, croot: usize, g_rroot: usize, rroot: usize)
    requires
        base + COL_CROOT + DIGEST <= usize::MAX,
        mroot + DIGEST <= usize::MAX,
        croot + DIGEST <= usize::MAX,
        g_rroot + DIGEST <= usize::MAX,
        rroot + DIGEST <= usize::MAX,
    ensures
        final(steps)@ == old(steps)@ + root_steps(base as int, mroot as int, croot as int, g_rroot as int, rroot as int),
{
    let ghost all = root_steps(base as int, mroot as int, croot as int, g_rroot as int, rroot as int);
    let mut j: usize = 0;
    while j < DIGEST
        invariant
            j <= DIGEST,
            base + COL_CROOT + DIGEST <= usize::MAX,
            mroot + DIGEST <= usize::MAX,
            croot + DIGEST <= usize::MAX,
            g_rroot + DIGEST <= usize::MAX,
            rroot + DIGEST <= usize::MAX,
            all == root_steps(base as int, mroot as int, croot as int, g_rroot as int, rroot as int),
            steps@ == old(steps)@ + all.take(3 * j),
        decreases DIGEST - j,
    {
        steps.push(Step::Eq(col(base + COL_MROOT + j), col(mroot + j)));
        steps.push(Step::Eq(col(base + COL_CROOT + j), col(croot + j)));
        steps.push(Step::Eq(col(g_rroot + j), col(rroot + j)));
        j += 1;
        assert(steps@ =~= old(steps)@ + all.take(3 * j));
    }
    assert(all.take(3 * j) =~= all);
}

/// Append the leaf-shape constraints of both allowlist paths.
fn push_leaves(steps: &mut Vec<Step>, base: usize, h: usize, mc: usize)
    requires
        base + COL_CID <= usize::MAX,
        h + DIGEST <= usize::MAX,
        mc + DIGEST <= usize::MAX,
    ensures
        final(steps)@ == old(steps)@ + leaf_steps(base as int, h as int, mc as int),
{
    let ghost all = leaf_steps(base as int, h as int, mc as int);
    steps.push(Step::Eq(col(base + COL_MID), col(h)));
    steps.push(Step::Eq(col(base + COL_CID), col(mc)));
    let mut j: usize = 1;
    while j < DIGEST
        invariant
            1 <= j <= DIGEST,
            h + DIGEST <= usize::MAX,
            mc + DIGEST <= usize::MAX,
            all == leaf_steps(base as int, h as int, mc as int),
            steps@ == old(steps)@ + all.take(2 * j),
        decreases DIGEST - j,
    {
        steps.push(Step::Zero(col(h + j)));
        steps.push(Step::Zero(col(mc + j)));
        j += 1;
        assert(steps@ =~= old(steps)@ + all.take(2 * j));
    }
    assert(all.take(2 * j) =~= all);
}

pub struct WholeAir<const R: usize, const MD: usize, const RD: usize> {
    pub policy: PolicyAir,
    pub merchant: MerkleAir<R, MD>,
    pub category: MerkleAir<R, MD>,
    pub revocation: NonMembershipAir<R, RD>,
}

impl<const R: usize, const MD: usize, const RD: usize> WholeAir<R, MD, RD> {
    /// The circuit carries the clauses a proof can establish on its own.
    pub open spec fn wf(&self) -> bool {
        self.policy.clauses@ == ALL_CLAUSES@
    }

    /// The dimensions the circuit supports: a register count the generator
    /// accepts, and a width that fits the machine.
    pub open spec fn fits(base: int) -> bool {
        &&& R <= 1
        &&& base + whole_width_spec(R as int, MD as int, RD as int) <= usize::MAX
    }

    pub fn new() -> (a: Self)
        ensures
            a.wf(),
    {
        WholeAir {
            policy: PolicyAir::new(&ALL_CLAUSES),
            merchant: MerkleAir::<R, MD>::new(),
            category: MerkleAir::<R, MD>::new(),
            revocation: NonMembershipAir::<R, RD>::new(),
        }
    }

    pub fn block_width(&self) -> (n: usize)
        requires
            R <= 1,
        ensures
            n == block_width_spec(R as int),
    {
        block_width::<R>()
    }

    /// What C7's sponge occupies.
    pub fn payload_cols(&self) -> (n: usize)
        requires
            R <= 1,
        ensures
            n == PAYLOAD_PERMUTATIONS * block_width_spec(R as int),
    {
        assert(PAYLOAD_PERMUTATIONS == 2);
        PAYLOAD_PERMUTATIONS * self.block_width()
    }

    /// Where the glue keeps the run of units C8 is checked against.
    pub fn glue_run_offset(&self) -> (n: usize)
        requires
            self.wf(),
            Self::fits(0),
        ensures
            n == whole_offsets(R as int, MD as int, RD as int).5 + DIGEST + 1,
    {
        let (_, _, _, _, _, rv) = self.offsets();
        rv + DIGEST + 1
    }

    pub fn offsets(&self) -> (o: (usize, usize, usize, usize, usize, usize))
        requires
            self.wf(),
            Self::fits(0),
        ensures
            o.0 == whole_offsets(R as int, MD as int, RD as int).0,
            o.1 == whole_offsets(R as int, MD as int, RD as int).1,
            o.2 == whole_offsets(R as int, MD as int, RD as int).2,
            o.3 == whole_offsets(R as int, MD as int, RD as int).3,
            o.4 == whole_offsets(R as int, MD as int, RD as int).4,
            o.5 == whole_offsets(R as int, MD as int, RD as int).5,
    {
        proof {
            lemma_all_clauses_gaps();
        }
        assert(C9_PERMUTATIONS == 4);
        assert(PAYLOAD_PERMUTATIONS == 2);
        let p = self.policy.width();
        let pl = p + C9_PERMUTATIONS * self.block_width();
        let h = pl + PAYLOAD_PERMUTATIONS * self.block_width();
        let mc = h + self.merchant.width();
        let ct = mc + self.category.width();
        let rv = ct + self.revocation.width();
        (p, pl, h, mc, ct, rv)
    }

    pub fn width(&self) -> (n: usize)
        requires
            self.wf(),
            Self::fits(0),
        ensures
            n == whole_width_spec(R as int, MD as int, RD as int),
    {
        let (_, _, _, _, _, rv) = self.offsets();
        rv + GLUE
    }

    pub fn num_public_values(&self) -> (n: usize)
        ensures
            n == PUBLIC_VALUES,
    {
        PUBLIC_VALUES
    }

    /// The constraints, placed at an offset so the composed circuit can hold
    /// them beside the spend component.
    pub fn constrain(&self, base: usize) -> (steps: Vec<Step>)
        requires
            self.wf(),
            Self::fits(base as int),
        ensures
            steps@ == whole_steps(R as int, MD as int, RD as int, base as int, true),
    {
        self.constrain_with(base, true)
    }

    /// The same constraints, with C9's binding of the absorbed lanes to the
    /// policy columns optionally omitted, so that what a circuit missing that
    /// one binding proves can be measured.
    pub fn constrain_with(&self, base: usize, bind_policy: bool) -> (steps: Vec<Step>)
        requires
            self.wf(),
            Self::fits(base as int),
        ensures
            steps@ == whole_steps(R as int, MD as int, RD as int, base as int, bind_policy),
    {
        let mut steps = self.components(base);
        let mut b = self.bindings(base, bind_policy);
        let mut g = self.glue(base);
        steps.append(&mut b);
        steps.append(&mut g);
        steps
    }

    fn components(&self, base: usize) -> (steps: Vec<Step>)
        requires
            self.wf(),
            Self::fits(base as int),
        ensures
            steps@ == whole_components(R as int, MD as int, RD as int, base as int),
    {
        proof {
            lemma_all_clauses_gaps();
            lemma_whole_offsets(R as int, MD as int, RD as int);
        }
        assert(C9_PERMUTATIONS == 4);
        assert(PAYLOAD_PERMUTATIONS == 2);
        let (p0, pl0, h0, mc0, ct0, _) = self.offsets();
        let bw = self.block_width();
        assert(self.policy.clauses@.len() == 4);
        assert(2 * self.policy.clauses@.len() * RANGE_BITS == 320);
        assert(base + VALUE_COLS + 320 <= base + pl0);
        let mut steps = self.policy.constrain(base);
        push_blocks(&mut steps, base + p0, C9_PERMUTATIONS, bw);
        push_blocks(&mut steps, base + pl0, PAYLOAD_PERMUTATIONS, bw);
        let mw = self.merchant.width();
        let nw = self.revocation.width();
        proof {
            crate::merkle::lemma_merkle_within(R as int, 0, MD as int, MD as int);
            crate::revocation::lemma_nonmembership_within(R as int, RD as int);
        }
        let m = self.merchant.constrain(0);
        let c = self.category.constrain(0);
        let n = self.revocation.constrain(0);
        let mut s1 = shift(&m, base + h0, Ghost(R as int), mw);
        let mut s2 = shift(&c, base + mc0, Ghost(R as int), mw);
        let mut s3 = shift(&n, base + ct0, Ghost(R as int), nw);
        steps.append(&mut s1);
        steps.append(&mut s2);
        steps.append(&mut s3);
        steps
    }

    #[verifier::spinoff_prover]
    fn bindings(&self, base: usize, bind_policy: bool) -> (steps: Vec<Step>)
        requires
            self.wf(),
            Self::fits(base as int),
        ensures
            steps@ == whole_bindings(R as int, MD as int, RD as int, base as int, bind_policy),
    {
        proof {
            lemma_whole_offsets(R as int, MD as int, RD as int);
        }
        assert(C9_PERMUTATIONS == 4);
        assert(PAYLOAD_PERMUTATIONS == 2);
        let (p0, pl0, h0, _, _, rv0) = self.offsets();
        let p = base + p0;
        let pl = base + pl0;
        let rv = base + rv0;
        let bw = self.block_width();
        let oo = output_offset::<R>();
        proof {
            lemma_binding_room(base as int, p0 as int, pl0 as int, h0 as int, rv0 as int, bw as int, oo as int);
        }
        let k9: usize = C9_PERMUTATIONS - 1;
        let k7: usize = PAYLOAD_PERMUTATIONS - 1;
        assert(k9 == 3 && k7 == 1);
        let last = p + k9 * bw + oo;
        let pl_last = pl + k7 * bw + oo;
        let mut steps: Vec<Step> = Vec::new();
        if bind_policy {
            let srcs = policy_source_cols(base);
            assert(srcs@.len() == 16);
            push_bindings(&mut steps, srcs.as_slice(), p, bw);
        }
        let psrc = payload_source_cols(base);
        assert(psrc@.len() == 6);
        push_bindings(&mut steps, psrc.as_slice(), pl, bw);
        let g_payload = rv + DIGEST;
        steps.push(Step::Eq(col(pl_last), col(g_payload)));
        steps.push(Step::Eq(col(g_payload), Expr::Pub(0)));
        let ghost s4 = steps@;
        let mut j: usize = 0;
        while j < DIGEST
            invariant
                j <= DIGEST,
                rv + DIGEST <= usize::MAX,
                steps@ == s4 + Seq::new(
                    j as nat,
                    |q: int| Step::Eq(Expr::Col((rv + q) as usize), Expr::Pub((1 + q) as usize)),
                ),
            decreases DIGEST - j,
        {
            steps.push(Step::Eq(col(rv + j), Expr::Pub(1 + j)));
            j += 1;
            assert(steps@ =~= s4 + Seq::new(
                j as nat,
                |q: int| Step::Eq(Expr::Col((rv + q) as usize), Expr::Pub((1 + q) as usize)),
            ));
        }
        let ghost s5 = steps@;
        let mut j: usize = 0;
        while j < DIGEST
            invariant
                j <= DIGEST,
                last + DIGEST <= usize::MAX,
                steps@ == s5 + Seq::new(
                    j as nat,
                    |q: int| Step::Eq(Expr::Col((last + q) as usize), Expr::Pub((1 + DIGEST + q) as usize)),
                ),
            decreases DIGEST - j,
        {
            steps.push(Step::Eq(col(last + j), Expr::Pub(1 + DIGEST + j)));
            j += 1;
            assert(steps@ =~= s5 + Seq::new(
                j as nat,
                |q: int| Step::Eq(Expr::Col((last + q) as usize), Expr::Pub((1 + DIGEST + q) as usize)),
            ));
        }
        steps
    }

    fn glue(&self, base: usize) -> (steps: Vec<Step>)
        requires
            self.wf(),
            Self::fits(base as int),
        ensures
            steps@ == whole_glue(R as int, MD as int, RD as int, base as int),
    {
        proof {
            lemma_whole_offsets(R as int, MD as int, RD as int);
        }
        assert(C9_PERMUTATIONS == 4);
        assert(PAYLOAD_PERMUTATIONS == 2);
        let (p0, pl0, h0, mc0, ct0, rv0) = self.offsets();
        let (p, pl, h, mc, ct, rv) = (base + p0, base + pl0, base + h0, base + mc0, base + ct0, base
            + rv0);
        let bw = self.block_width();
        let mut steps: Vec<Step> = Vec::new();
        push_start(&mut steps, p, DOMAIN_OPENING);
        push_chain(&mut steps, p, C9_PERMUTATIONS, ABSORBED, bw);
        push_start(&mut steps, pl, DOMAIN_PAYLOAD);
        push_chain(&mut steps, pl, PAYLOAD_PERMUTATIONS, PAYLOAD_ELEMS, bw);
        let mroot = h + self.merchant.root_offset();
        let croot = mc + self.category.root_offset();
        let rroot = ct + self.revocation.root_offset();
        push_roots(&mut steps, base, mroot, croot, rv, rroot);
        push_leaves(&mut steps, base, h, mc);
        let g_payload = rv + DIGEST;
        let run = ct + self.revocation.run_offset();
        steps.push(Step::Eq(col(g_payload + 1), col(run)));
        steps.push(Step::Eq(col(g_payload + 2), col(run + 1)));
        steps
    }
}

/// The payload columns C7 absorbs, offset by `base`.
pub fn payload_source_cols(base: usize) -> (v: Vec<usize>)
    requires
        base + VALUE_COLS <= usize::MAX,
    ensures
        v@ == payload_sources(base as int),
{
    let mut v: Vec<usize> = Vec::new();
    let mut e: usize = 0;
    while e < PAYLOAD_ELEMS
        invariant
            e <= PAYLOAD_ELEMS,
            base + VALUE_COLS <= usize::MAX,
            v@ == payload_sources(base as int).take(e as int),
        decreases PAYLOAD_ELEMS - e,
    {
        v.push(base + PAYLOAD_SRC[e]);
        e += 1;
        assert(v@ =~= payload_sources(base as int).take(e as int));
    }
    assert(payload_sources(base as int).take(e as int) =~= payload_sources(base as int));
    v
}

} // verus!
