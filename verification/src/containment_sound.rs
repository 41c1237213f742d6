//! What the containment circuit guarantees of every row it accepts.
use crate::air::{lemma_range_block_bounds_gap, lemma_range_blocks_each, range_blocks_spec, DIGEST, RANGE_BITS};
use crate::containment::{
    containment_counts, containment_gaps, containment_offsets, containment_roots, containment_steps,
    containment_width_spec, block_sources, party_steps, CHILD, C_BLK, C_CG, C_CM, C_LEN, C_P, C_UNIT, GAPS, PARENT,
    POLICY_COLS, PUBLIC_VALUES, P_B, P_C, P_CROOT, P_G, P_MROOT, P_N, P_TEXP, P_TSTART, P_W,
};
use crate::expr::{all_hold, eval, lemma_all_hold_split, step_holds, Expr, Step};
use crate::field::{all_canonical, lemma_canonical_eq, P};
use crate::full::{binding_steps, block_steps, start_steps, C9_PERMUTATIONS};
use crate::whole::chain_steps;
use crate::gen::{perm_out, sponge_from, sponge_start};
use crate::hash::{block_width_spec, DOMAIN_OPENING, WIDTH};
use crate::merkle::{path_digest, lane_steps, lanes_spec, left_expr, level_steps, level_width_spec, merkle_steps, merkle_width_spec, right_expr};
use crate::expr::{shift_expr, shift_steps};
use crate::spend::{add_e, c, mul_e, sub_e};
use crate::spend_frame::{lemma_add_shift, lemma_col_shift, lemma_mul_shift, lemma_shift_concat, lemma_sub_shift};
use crate::soundness::{lemma_sponge_sound, sponge_accepted};
use crate::trace::{lemma_gap_orders, ordered_within_range};
use vstd::arithmetic::power2::pow2;
use vstd::prelude::*;

verus! {

/// The cells of the seven range checks, and the direction bits of both
/// paths.
pub open spec fn containment_bits(r: int, depth: int, w: Seq<u64>) -> bool {
    let (m0, c0, s0, s1, g0) = containment_offsets(r, depth);
    &&& forall|k: int| 0 <= k < GAPS * RANGE_BITS ==> #[trigger] w[g0 + k] <= 1
    &&& forall|l: int| 0 <= l < depth ==> #[trigger] w[m0 + l * level_width_spec(r) + 2 * DIGEST] <= 1
    &&& forall|l: int| 0 <= l < depth ==> #[trigger] w[c0 + l * level_width_spec(r) + 2 * DIGEST] <= 1
}

/// Both parties' allowlist roots stand at the ends of the row's paths: the
/// parent's at the root end, the child's at the leaf.
pub open spec fn roots_on_paths(r: int, depth: int, w: Seq<u64>) -> bool {
    forall|j: int|
        0 <= j < DIGEST ==> {
            let (m0, c0, s0, s1, g0) = containment_offsets(r, depth);
            let root = depth * level_width_spec(r);
            &&& #[trigger] w[PARENT + P_MROOT + j] == w[m0 + root + j]
            &&& w[CHILD + P_MROOT + j] == w[m0 + j]
            &&& w[PARENT + P_CROOT + j] == w[c0 + root + j]
            &&& w[CHILD + P_CROOT + j] == w[c0 + j]
        }
}

/// A party's opening in a row: the sponge over the party's policy block, as
/// the row holds it, has the row's blocks, and its final output's first
/// lanes are the party's public commitment.
pub open spec fn party_opens(r: int, w: Seq<u64>, pv: Seq<u64>, party: int, block: int, sbase: int) -> bool {
    let bw = block_width_spec(r);
    let blocks = sponge_from(r, sponge_start(4, DOMAIN_OPENING), w.subrange(block, block + POLICY_COLS), 4);
    &&& blocks.len() == C9_PERMUTATIONS
    &&& forall|i: int|
        0 <= i < C9_PERMUTATIONS ==> #[trigger] w.subrange(sbase + i * bw, sbase + i * bw + bw) == blocks[i]
    &&& forall|j: int| 0 <= j < DIGEST ==> #[trigger] pv[party * DIGEST + j] == perm_out(blocks[3])[j]
}

/// One party's opening holds in a row that satisfies its sponge's blocks
/// and its opening constraints.
#[verifier::rlimit(60)]
proof fn lemma_party_opens(r: int, w: Seq<u64>, pv: Seq<u64>, party: int, block: int, sbase: int)
    requires
        r == 0 || r == 1,
        party == 0 || party == 1,
        0 <= block,
        block + POLICY_COLS <= sbase,
        sbase + 4 * block_width_spec(r) <= w.len(),
        w.len() <= usize::MAX,
        pv.len() == PUBLIC_VALUES,
        all_canonical(w),
        all_canonical(pv),
        all_hold(block_steps(sbase, 4, block_width_spec(r)), r, w, pv),
        all_hold(party_steps(r, party, block, sbase), r, w, pv),
    ensures
        party_opens(r, w, pv, party, block, sbase),
{
    let bw = block_width_spec(r);
    let el = w.subrange(block, block + POLICY_COLS);
    let last = sbase + (C9_PERMUTATIONS - 1) * bw + bw - WIDTH;
    let bd = binding_steps(block_sources(block), sbase, bw);
    let st = start_steps(sbase, DOMAIN_OPENING);
    let ch = chain_steps(sbase, POLICY_COLS as int, bw, C9_PERMUTATIONS as int);
    let out = Seq::new(
        DIGEST as nat,
        |j: int| Step::Eq(Expr::Col((last + j) as usize), Expr::Pub((party * DIGEST + j) as usize)),
    );
    assert(party_steps(r, party, block, sbase) == bd + st + ch + out);
    lemma_all_hold_split(bd + st + ch, out, r, w, pv);
    lemma_all_hold_split(bd + st, ch, r, w, pv);
    lemma_all_hold_split(bd, st, r, w, pv);
    assert(C9_PERMUTATIONS == 4);
    assert forall|e: int| 0 <= e < el.len() implies #[trigger] w[crate::full::absorbed_lane(sbase, bw, e)] == el[e] by {
        assert(step_holds(bd[e], r, w, pv));
        let i = e / 4;
        assert(i * bw + e % 4 + 4 <= 4 * bw) by (nonlinear_arith)
            requires
                0 <= i < 4,
                bw >= 94,
                0 <= e % 4 < 4,
        ;
        lemma_canonical_eq(w[block + e] as int, w[crate::full::absorbed_lane(sbase, bw, e)] as int);
    }
    assert(sponge_accepted(r, w, sbase, DOMAIN_OPENING, el, pv));
    let blocks = sponge_from(r, sponge_start(4, DOMAIN_OPENING), el, 4);
    assert forall|i: int| 0 <= i < C9_PERMUTATIONS implies #[trigger] w.subrange(sbase + i * bw, sbase + i * bw + bw)
        == blocks[i] by {
        lemma_sponge_sound(r, w, sbase, DOMAIN_OPENING, el, pv, i);
    }
    lemma_sponge_sound(r, w, sbase, DOMAIN_OPENING, el, pv, 3);
    let b3 = blocks[3];
    assert(b3 == w.subrange(sbase + 3 * bw, sbase + 3 * bw + bw));
    assert forall|j: int| 0 <= j < DIGEST implies #[trigger] pv[party * DIGEST + j] == perm_out(b3)[j] by {
        assert(step_holds(out[j], r, w, pv));
        lemma_canonical_eq(w[last + j] as int, pv[party * DIGEST + j] as int);
        assert(perm_out(b3)[j] == b3[bw - WIDTH + j]);
        assert(b3[bw - WIDTH + j] == w[sbase + 3 * bw + bw - WIDTH + j]);
    }
}

proof fn lemma_left_right_shift(base: int, j: int, off: int)
    requires
        0 <= base,
        0 <= j < DIGEST,
        0 <= off,
        base + 2 * DIGEST + off <= usize::MAX,
    ensures
        shift_expr(left_expr(base, j), off) == left_expr(base + off, j),
        shift_expr(right_expr(base, j), off) == right_expr(base + off, j),
{
    let cur = c(base + j);
    let sib = c(base + DIGEST + j);
    let bit = c(base + 2 * DIGEST);
    lemma_col_shift(base + j, off);
    lemma_col_shift(base + DIGEST + j, off);
    lemma_col_shift(base + 2 * DIGEST, off);
    assert(left_expr(base, j) == add_e(cur, mul_e(bit, sub_e(sib, cur))));
    assert(right_expr(base, j) == add_e(sib, mul_e(bit, sub_e(cur, sib))));
    lemma_sub_shift(sib, cur, off);
    lemma_mul_shift(bit, sub_e(sib, cur), off);
    lemma_add_shift(cur, mul_e(bit, sub_e(sib, cur)), off);
    lemma_sub_shift(cur, sib, off);
    lemma_mul_shift(bit, sub_e(cur, sib), off);
    lemma_add_shift(sib, mul_e(bit, sub_e(cur, sib)), off);
    assert(left_expr(base + off, j) == add_e(c(base + off + j), mul_e(c(base + off + 2 * DIGEST), sub_e(c(base + off + DIGEST + j), c(base + off + j)))));
    assert(right_expr(base + off, j) == add_e(c(base + off + DIGEST + j), mul_e(c(base + off + 2 * DIGEST), sub_e(c(base + off + j), c(base + off + DIGEST + j)))));
}

proof fn lemma_lanes_shift(r: int, base: int, next: int, n: int, off: int)
    requires
        r == 0 || r == 1,
        0 <= base,
        base + level_width_spec(r) <= next,
        0 <= n <= DIGEST,
        0 <= off,
        next + DIGEST + off <= usize::MAX,
    ensures
        shift_steps(lanes_spec(r, base, next, n), off) == lanes_spec(r, base + off, next + off, n),
    decreases n,
{
    if n <= 0 {
        assert(shift_steps(lanes_spec(r, base, next, n), off) =~= Seq::<Step>::empty());
    } else {
        let j = n - 1;
        lemma_lanes_shift(r, base, next, n - 1, off);
        lemma_shift_concat(lanes_spec(r, base, next, n - 1), lane_steps(r, base, next, j), off);
        lemma_left_right_shift(base, j, off);
        let ps = base + 2 * DIGEST + 1;
        let bw = block_width_spec(r);
        lemma_col_shift(ps + j, off);
        lemma_col_shift(ps + DIGEST + j, off);
        lemma_col_shift(ps + bw - WIDTH + j, off);
        lemma_col_shift(next + j, off);
        assert(shift_steps(lane_steps(r, base, next, j), off) =~= lane_steps(r, base + off, next + off, j));
    }
}

proof fn lemma_merkle_shift(r: int, depth: int, off: int)
    requires
        r == 0 || r == 1,
        0 <= depth,
        0 <= off,
        off + merkle_width_spec(r, depth) <= usize::MAX,
    ensures
        shift_steps(merkle_steps(r, 0, depth), off) == merkle_steps(r, off, depth),
    decreases depth,
{
    if depth <= 0 {
        assert(shift_steps(merkle_steps(r, 0, depth), off) =~= Seq::<Step>::empty());
    } else {
        let l = depth - 1;
        let lw = level_width_spec(r);
        assert(l * lw + lw == depth * lw && 0 <= l * lw) by (nonlinear_arith)
            requires
                l == depth - 1,
                l >= 0,
                lw >= 0,
        ;
        lemma_merkle_shift(r, depth - 1, off);
        lemma_shift_concat(merkle_steps(r, 0, depth - 1), level_steps(r, 0, l), off);
        let base = l * lw;
        let next = (l + 1) * lw;
        assert(next == base + lw);
        let head = seq![
            Step::Hash((base + 2 * DIGEST + 1) as usize),
            Step::Bool(Expr::Col((base + 2 * DIGEST) as usize)),
        ];
        assert(level_steps(r, 0, l) == head + lanes_spec(r, base, next, DIGEST as int));
        lemma_shift_concat(head, lanes_spec(r, base, next, DIGEST as int), off);
        lemma_lanes_shift(r, base, next, DIGEST as int, off);
        lemma_col_shift(base + 2 * DIGEST, off);
        assert(shift_steps(head, off) =~= seq![
            Step::Hash((base + off + 2 * DIGEST + 1) as usize),
            Step::Bool(Expr::Col((base + off + 2 * DIGEST) as usize)),
        ]);
        assert(off + l * lw == base + off);
        assert(off + (l + 1) * lw == next + off);
        assert(level_steps(r, off, l) == shift_steps(head, off) + lanes_spec(r, base + off, next + off, DIGEST as int));
    }
}

/// The seven comparisons of an accepted row, with the range checks' cells
/// taken to be bits.
#[verifier::rlimit(60)]
proof fn lemma_containment_gaps(r: int, depth: int, w: Seq<u64>, pv: Seq<u64>, k: int)
    requires
        containment_width_spec(r, depth) <= w.len(),
        w.len() <= usize::MAX,
        all_canonical(w),
        all_hold(range_blocks_spec(containment_gaps(), containment_offsets(r, depth).4), r, w, pv),
        containment_bits(r, depth, w),
        0 <= containment_offsets(r, depth).4,
        0 <= k < GAPS,
    ensures
        eval(containment_gaps()[k], w, pv) % (P as int) < pow2(RANGE_BITS as nat),
        0 <= eval(containment_gaps()[k], w, pv) % (P as int),
{
    let g0 = containment_offsets(r, depth).4;
    let start = g0 + k * RANGE_BITS;
    lemma_range_blocks_each(containment_gaps(), g0, r, w, pv, k);
    assert forall|i: int| 0 <= i < RANGE_BITS implies #[trigger] w[start + i] <= 1 by {
        assert(w[g0 + (k * RANGE_BITS + i)] <= 1);
    }
    lemma_range_block_bounds_gap(containment_gaps()[k], start, w, pv, r);
}

/// The root bindings of an accepted row.
#[verifier::spinoff_prover]
proof fn lemma_roots_hold(r: int, depth: int, w: Seq<u64>, pv: Seq<u64>)
    requires
        0 <= depth,
        r == 0 || r == 1,
        containment_width_spec(r, depth) <= w.len(),
        w.len() <= usize::MAX,
        all_canonical(w),
        all_hold(
            containment_roots(
                containment_offsets(r, depth).0 + depth * level_width_spec(r),
                containment_offsets(r, depth).0,
                containment_offsets(r, depth).1 + depth * level_width_spec(r),
                containment_offsets(r, depth).1,
            ),
            r,
            w,
            pv,
        ),
    ensures
        roots_on_paths(r, depth, w),
{
    let (m0, c0, s0, s1, g0) = containment_offsets(r, depth);
    let root = depth * level_width_spec(r);
    assert(depth * level_width_spec(r) >= 0) by (nonlinear_arith)
        requires
            depth >= 0,
            level_width_spec(r) >= 0,
    ;
    let rt = containment_roots(m0 + root, m0, c0 + root, c0);
    assert(C9_PERMUTATIONS == 4);
    assert(merkle_width_spec(r, depth) == root + DIGEST);
    assert forall|j: int| 0 <= j < DIGEST implies {
        &&& #[trigger] w[PARENT + P_MROOT + j] == w[m0 + root + j]
        &&& w[CHILD + P_MROOT + j] == w[m0 + j]
        &&& w[PARENT + P_CROOT + j] == w[c0 + root + j]
        &&& w[CHILD + P_CROOT + j] == w[c0 + j]
    } by {
        assert((4 * j) % 4 == 0 && (4 * j) / 4 == j);
        assert((4 * j + 1) % 4 == 1 && (4 * j + 1) / 4 == j);
        assert((4 * j + 2) % 4 == 2 && (4 * j + 2) / 4 == j);
        assert((4 * j + 3) % 4 == 3 && (4 * j + 3) / 4 == j);
        assert(step_holds(rt[4 * j], r, w, pv));
        assert(step_holds(rt[4 * j + 1], r, w, pv));
        assert(step_holds(rt[4 * j + 2], r, w, pv));
        assert(step_holds(rt[4 * j + 3], r, w, pv));
        lemma_canonical_eq(w[PARENT + P_MROOT + j] as int, w[m0 + root + j] as int);
        lemma_canonical_eq(w[CHILD + P_MROOT + j] as int, w[m0 + j] as int);
        lemma_canonical_eq(w[PARENT + P_CROOT + j] as int, w[c0 + root + j] as int);
        lemma_canonical_eq(w[CHILD + P_CROOT + j] as int, w[c0 + j] as int);
    }
}

/// What the containment circuit guarantees of every row it accepts, with
/// the range checks' cells and the paths' direction bits taken to be bits
/// (roots of x(x - 1), bits because p is prime, which is not proved here):
/// the two policy blocks are what the public commitments open to; the
/// child's window lies inside the parent's, its cap and count within the
/// parent's, its committed units within the granted length and its grants
/// within what it holds, with its published block after its own units (each
/// comparison a gap that reduces below 2^RANGE_BITS, ordering the columns as
/// integers where the lower one lies below p - 2^RANGE_BITS); the child's
/// budgets are the unit counts times the unit; the windows are equal; the
/// granted length and published block are the public ones; and each
/// allowlist path, whose leaf is the child's root, computes the parent's
/// root through the permutation.
#[verifier::rlimit(80)]
pub proof fn lemma_containment_sound(r: int, depth: int, w: Seq<u64>, pv: Seq<u64>)
    requires
        r == 0 || r == 1,
        0 <= depth,
        containment_width_spec(r, depth) <= w.len(),
        w.len() <= usize::MAX,
        all_canonical(w),
        all_canonical(pv),
        pv.len() == PUBLIC_VALUES,
        all_hold(containment_steps(r, depth), r, w, pv),
        containment_bits(r, depth, w),
    ensures
        party_opens(r, w, pv, 0, PARENT as int, containment_offsets(r, depth).2),
        party_opens(r, w, pv, 1, CHILD as int, containment_offsets(r, depth).3),
        ordered_within_range(w[CHILD + P_TSTART], w[PARENT + P_TSTART]),
        ordered_within_range(w[PARENT + P_TEXP], w[CHILD + P_TEXP]),
        ordered_within_range(w[PARENT + P_C], w[CHILD + P_C]),
        ordered_within_range(w[PARENT + P_N], w[CHILD + P_N]),
        ordered_within_range(w[C_LEN as int], w[C_CM as int]),
        ordered_within_range(w[C_P as int], w[C_CG as int]),
        (w[C_CM as int] - w[C_P as int] - w[C_BLK as int]) % (P as int) < pow2(RANGE_BITS as nat),
        (w[C_UNIT as int] * w[C_CM as int] - w[CHILD + P_B]) % (P as int) == 0,
        (w[C_UNIT as int] * w[C_CG as int] - w[CHILD + P_G]) % (P as int) == 0,
        w[PARENT + P_W] == w[CHILD + P_W],
        w[C_LEN as int] == pv[2 * DIGEST],
        w[C_P as int] == pv[2 * DIGEST + 1],
        w[C_BLK as int] == pv[2 * DIGEST + 2],
        ({
            let (m0, c0, s0, s1, g0) = containment_offsets(r, depth);
            let root = depth * level_width_spec(r);
            let mw = merkle_width_spec(r, depth);
            &&& w.subrange(m0 + root, m0 + root + DIGEST) == path_digest(r, w.subrange(m0, m0 + mw), depth as nat)
            &&& w.subrange(c0 + root, c0 + root + DIGEST) == path_digest(r, w.subrange(c0, c0 + mw), depth as nat)
        }),
        roots_on_paths(r, depth, w),
{
    let (m0, c0, s0, s1, g0) = containment_offsets(r, depth);
    let bw = block_width_spec(r);
    let root = depth * level_width_spec(r);
    assert(C9_PERMUTATIONS == 4);
    assert(depth * level_width_spec(r) >= 0) by (nonlinear_arith)
        requires
            depth >= 0,
            level_width_spec(r) >= 0,
    ;
    assert(crate::merkle::merkle_width_spec(r, depth) >= 0);
    let ma = merkle_steps(r, m0, depth);
    let mb = merkle_steps(r, c0, depth);
    let bk = block_steps(s0, 2 * C9_PERMUTATIONS as int, bw);
    let pp = party_steps(r, 0, PARENT as int, s0);
    let pc = party_steps(r, 1, CHILD as int, s1);
    let rt = containment_roots(m0 + root, m0, c0 + root, c0);
    let ct = containment_counts();
    let rb = range_blocks_spec(containment_gaps(), g0);
    assert(containment_steps(r, depth) == ma + mb + bk + pp + pc + rt + ct + rb);
    lemma_all_hold_split(ma + mb + bk + pp + pc + rt + ct, rb, r, w, pv);
    lemma_all_hold_split(ma + mb + bk + pp + pc + rt, ct, r, w, pv);
    lemma_all_hold_split(ma + mb + bk + pp + pc, rt, r, w, pv);
    lemma_all_hold_split(ma + mb + bk + pp, pc, r, w, pv);
    lemma_all_hold_split(ma + mb + bk, pp, r, w, pv);
    lemma_all_hold_split(ma + mb, bk, r, w, pv);
    lemma_all_hold_split(ma, mb, r, w, pv);
    // Each sponge's blocks.
    let b0 = block_steps(s0, 4, bw);
    let b1 = block_steps(s1, 4, bw);
    assert(all_hold(b0, r, w, pv)) by {
        assert forall|i: int| 0 <= i < b0.len() implies #[trigger] step_holds(b0[i], r, w, pv) by {
            assert(b0[i] == bk[i]);
        }
    }
    assert(all_hold(b1, r, w, pv)) by {
        assert forall|i: int| 0 <= i < b1.len() implies #[trigger] step_holds(b1[i], r, w, pv) by {
            assert(s0 + (i + 4) * bw == s1 + i * bw) by (nonlinear_arith)
                requires
                    s1 == s0 + 4 * bw,
            ;
            assert(b1[i] == bk[i + 4]);
        }
    }
    lemma_party_opens(r, w, pv, 0, PARENT as int, s0);
    lemma_party_opens(r, w, pv, 1, CHILD as int, s1);
    // The two paths.
    lemma_merkle_shift(r, depth, m0);
    lemma_merkle_shift(r, depth, c0);
    crate::soundness::lemma_shifted_path(r, depth, w, m0, pv);
    crate::soundness::lemma_shifted_path(r, depth, w, c0, pv);
    // The comparisons.
    vstd::arithmetic::power2::lemma2_to64();
    vstd::arithmetic::power2::lemma2_to64_rest();
    let gs = containment_gaps();
    lemma_containment_gaps(r, depth, w, pv, 0);
    lemma_containment_gaps(r, depth, w, pv, 1);
    lemma_containment_gaps(r, depth, w, pv, 2);
    lemma_containment_gaps(r, depth, w, pv, 3);
    lemma_containment_gaps(r, depth, w, pv, 4);
    lemma_containment_gaps(r, depth, w, pv, 5);
    lemma_containment_gaps(r, depth, w, pv, 6);
    reveal_with_fuel(eval, 3);
    lemma_gap_orders(w[CHILD + P_TSTART], w[PARENT + P_TSTART], eval(gs[0], w, pv) % (P as int));
    lemma_gap_orders(w[PARENT + P_TEXP], w[CHILD + P_TEXP], eval(gs[1], w, pv) % (P as int));
    lemma_gap_orders(w[PARENT + P_C], w[CHILD + P_C], eval(gs[2], w, pv) % (P as int));
    lemma_gap_orders(w[PARENT + P_N], w[CHILD + P_N], eval(gs[3], w, pv) % (P as int));
    lemma_gap_orders(w[C_LEN as int], w[C_CM as int], eval(gs[4], w, pv) % (P as int));
    lemma_gap_orders(w[C_P as int], w[C_CG as int], eval(gs[5], w, pv) % (P as int));
    // The counts and the public values.
    assert(step_holds(ct[0], r, w, pv));
    assert(step_holds(ct[1], r, w, pv));
    assert(step_holds(ct[2], r, w, pv));
    assert(step_holds(ct[3], r, w, pv));
    assert(step_holds(ct[4], r, w, pv));
    assert(step_holds(ct[5], r, w, pv));
    lemma_canonical_eq(w[PARENT + P_W] as int, w[CHILD + P_W] as int);
    lemma_canonical_eq(w[C_LEN as int] as int, pv[2 * DIGEST] as int);
    lemma_canonical_eq(w[C_P as int] as int, pv[2 * DIGEST + 1] as int);
    lemma_canonical_eq(w[C_BLK as int] as int, pv[2 * DIGEST + 2] as int);
    // The roots.
    lemma_roots_hold(r, depth, w, pv);
}

} // verus!
