//! The second-invocation spend row satisfies the second-invocation circuit.
//! Its first part is the honest spend row with each slot's nullifier cell
//! replaced, which no constraint of the circuit without the nullifier check
//! reads; then each slot's second permutation, whose input is the slot's key
//! under the nullifier separator and whose first output lane is the new
//! nullifier. Conversely, every row the circuit accepts derives each
//! nullifier so.
use crate::air::range_blocks_spec;
use crate::expr::{
    all_hold, eval, expr_cols_below, hash_block_holds, lemma_all_hold_concat, step_holds,
    step_within, steps_within, Expr, Step,
};
use crate::full::block_steps;
use crate::gen::{perm_out, poseidon2_trace_row};
use crate::hash::{block_width_spec, DOMAIN_KEY, DOMAIN_NULL, DOMAIN_PAD, WIDTH};
use crate::spend::{
    add_e, c, charged_expr, mul_e, node_base_spec, pos_base_spec, range_base_spec, slot_steps, slots_spec,
    spend_gaps, spend_hashes, spend_steps, spend_width_spec, sub_e, value_cols_spec, COL_BASE, COL_INDEX,
    COL_INDEX_INV, COL_R, COL_ROOT_KEY, COL_SECRET, COL_UNITS, NODE_ACTIVE, NODE_KEY, NODE_NULL, NODE_SHARE,
    PER_NODE,
};
use crate::spend2::{null_slot_steps, null_slots, spend_two_steps};
use crate::spend_accept::honest_ok;
use crate::spend_trace::{null_block, null_blocks, null_input, nulls_generated, spend_row_spec, spend_two_row, with_nulls};
use vstd::prelude::*;

verus! {

/// Column `i` is not one of the first `cover` slots' nullifier cells.
pub open spec fn not_null(i: int, nb: int, cover: int) -> bool {
    !(nb <= i < nb + PER_NODE * cover && (i - nb) % (PER_NODE as int) == NODE_NULL)
}

pub open spec fn expr_avoids(e: Expr, nb: int, cover: int) -> bool
    decreases e,
{
    match e {
        Expr::Col(i) => not_null(i as int, nb, cover),
        Expr::Pub(_) => true,
        Expr::Const(_) => true,
        Expr::Add(a, b) => expr_avoids(*a, nb, cover) && expr_avoids(*b, nb, cover),
        Expr::Sub(a, b) => expr_avoids(*a, nb, cover) && expr_avoids(*b, nb, cover),
        Expr::Mul(a, b) => expr_avoids(*a, nb, cover) && expr_avoids(*b, nb, cover),
        Expr::Double(a) => expr_avoids(*a, nb, cover),
    }
}

pub open spec fn step_avoids(s: Step, r: int, nb: int, cover: int) -> bool {
    match s {
        Step::Hash(start) => forall|j: int|
            start <= j < start + block_width_spec(r) ==> #[trigger] not_null(j, nb, cover),
        Step::Zero(e) => expr_avoids(e, nb, cover),
        Step::Eq(a, b) => expr_avoids(a, nb, cover) && expr_avoids(b, nb, cover),
        Step::Bool(e) => expr_avoids(e, nb, cover),
        Step::One(e) => expr_avoids(e, nb, cover),
    }
}

pub open spec fn steps_avoid(steps: Seq<Step>, r: int, nb: int, cover: int) -> bool {
    forall|i: int| 0 <= i < steps.len() ==> #[trigger] step_avoids(steps[i], r, nb, cover)
}

/// Two rows that agree on every column below `w` but the nullifier cells.
pub open spec fn agree_off_nulls(a: Seq<u64>, b: Seq<u64>, nb: int, cover: int, w: int) -> bool {
    &&& w <= a.len()
    &&& w <= b.len()
    &&& forall|i: int| 0 <= i < w && not_null(i, nb, cover) ==> #[trigger] a[i] == b[i]
}

proof fn lemma_eval_agree(e: Expr, a: Seq<u64>, b: Seq<u64>, pv: Seq<u64>, nb: int, cover: int, w: int)
    requires
        expr_avoids(e, nb, cover),
        expr_cols_below(e, w),
        agree_off_nulls(a, b, nb, cover, w),
    ensures
        eval(e, a, pv) == eval(e, b, pv),
    decreases e,
{
    match e {
        Expr::Col(i) => {
            assert(a[i as int] == b[i as int]);
        },
        Expr::Add(x, y) => {
            lemma_eval_agree(*x, a, b, pv, nb, cover, w);
            lemma_eval_agree(*y, a, b, pv, nb, cover, w);
        },
        Expr::Sub(x, y) => {
            lemma_eval_agree(*x, a, b, pv, nb, cover, w);
            lemma_eval_agree(*y, a, b, pv, nb, cover, w);
        },
        Expr::Mul(x, y) => {
            lemma_eval_agree(*x, a, b, pv, nb, cover, w);
            lemma_eval_agree(*y, a, b, pv, nb, cover, w);
        },
        Expr::Double(x) => {
            lemma_eval_agree(*x, a, b, pv, nb, cover, w);
        },
        _ => {},
    }
}

/// Steps that read no nullifier cell hold alike of rows agreeing elsewhere.
proof fn lemma_steps_agree(steps: Seq<Step>, r: int, a: Seq<u64>, b: Seq<u64>, pv: Seq<u64>, nb: int, cover: int, w: int)
    requires
        r == 0 || r == 1,
        steps_within(steps, r, w),
        steps_avoid(steps, r, nb, cover),
        agree_off_nulls(a, b, nb, cover, w),
        all_hold(steps, r, b, pv),
    ensures
        all_hold(steps, r, a, pv),
{
    assert forall|k: int| 0 <= k < steps.len() implies #[trigger] step_holds(steps[k], r, a, pv) by {
        let s = steps[k];
        assert(step_within(s, r, w));
        assert(step_avoids(s, r, nb, cover));
        assert(step_holds(s, r, b, pv));
        match s {
            Step::Hash(start) => {
                let st = start as int;
                let bw = block_width_spec(r);
                assert(a.subrange(st, st + bw) =~= b.subrange(st, st + bw)) by {
                    assert forall|j: int| 0 <= j < bw implies #[trigger] a.subrange(st, st + bw)[j] == b.subrange(st, st + bw)[j] by {
                        assert(not_null(st + j, nb, cover));
                    }
                }
                assert(bw >= WIDTH);
                assert(a.subrange(st, st + WIDTH as int) =~= b.subrange(st, st + WIDTH as int)) by {
                    assert forall|j: int| 0 <= j < WIDTH implies #[trigger] a.subrange(st, st + WIDTH as int)[j] == b.subrange(st, st + WIDTH as int)[j] by {
                        assert(not_null(st + j, nb, cover));
                    }
                }
            },
            Step::Zero(e) => lemma_eval_agree(e, a, b, pv, nb, cover, w),
            Step::Eq(x, y) => {
                lemma_eval_agree(x, a, b, pv, nb, cover, w);
                lemma_eval_agree(y, a, b, pv, nb, cover, w);
            },
            Step::Bool(e) => lemma_eval_agree(e, a, b, pv, nb, cover, w),
            Step::One(e) => lemma_eval_agree(e, a, b, pv, nb, cover, w),
        }
    }
}

proof fn lemma_below_avoids(e: Expr, nb: int, cover: int)
    requires
        expr_cols_below(e, nb),
    ensures
        expr_avoids(e, nb, cover),
    decreases e,
{
    match e {
        Expr::Add(x, y) => {
            lemma_below_avoids(*x, nb, cover);
            lemma_below_avoids(*y, nb, cover);
        },
        Expr::Sub(x, y) => {
            lemma_below_avoids(*x, nb, cover);
            lemma_below_avoids(*y, nb, cover);
        },
        Expr::Mul(x, y) => {
            lemma_below_avoids(*x, nb, cover);
            lemma_below_avoids(*y, nb, cover);
        },
        Expr::Double(x) => {
            lemma_below_avoids(*x, nb, cover);
        },
        _ => {},
    }
}

/// Steps reading below the first slot node read no nullifier cell.
proof fn lemma_within_avoid(steps: Seq<Step>, r: int, nb: int, cover: int)
    requires
        steps_within(steps, r, nb),
    ensures
        steps_avoid(steps, r, nb, cover),
{
    assert forall|k: int| 0 <= k < steps.len() implies #[trigger] step_avoids(steps[k], r, nb, cover) by {
        let s = steps[k];
        assert(step_within(s, r, nb));
        match s {
            Step::Hash(start) => {},
            Step::Zero(e) => lemma_below_avoids(e, nb, cover),
            Step::Eq(x, y) => {
                lemma_below_avoids(x, nb, cover);
                lemma_below_avoids(y, nb, cover);
            },
            Step::Bool(e) => lemma_below_avoids(e, nb, cover),
            Step::One(e) => lemma_below_avoids(e, nb, cover),
        }
    }
}

proof fn lemma_avoid_concat(a: Seq<Step>, b: Seq<Step>, r: int, nb: int, cover: int)
    requires
        steps_avoid(a, r, nb, cover),
        steps_avoid(b, r, nb, cover),
    ensures
        steps_avoid(a + b, r, nb, cover),
{
    assert forall|i: int| 0 <= i < (a + b).len() implies #[trigger] step_avoids((a + b)[i], r, nb, cover) by {
        if i < a.len() {
            assert((a + b)[i] == a[i]);
        } else {
            assert((a + b)[i] == b[i - a.len()]);
        }
    }
}

/// A node cell other than the nullifier is not a nullifier cell.
proof fn lemma_node_not_null(nb: int, cover: int, q: int, j: int)
    requires
        0 <= q < cover,
        0 <= j < NODE_NULL,
    ensures
        not_null(nb + q * PER_NODE + j, nb, cover),
{
    vstd::arithmetic::div_mod::lemma_mod_multiples_vanish(q, j, PER_NODE as int);
    vstd::arithmetic::div_mod::lemma_small_mod(j as nat, PER_NODE as nat);
    assert(nb + q * PER_NODE + j - nb == PER_NODE * q + j) by (nonlinear_arith);
}

proof fn lemma_avoid_add(a: Expr, b: Expr, nb: int, cover: int)
    requires
        expr_avoids(a, nb, cover),
        expr_avoids(b, nb, cover),
    ensures
        expr_avoids(add_e(a, b), nb, cover),
{
}

proof fn lemma_avoid_sub(a: Expr, b: Expr, nb: int, cover: int)
    requires
        expr_avoids(a, nb, cover),
        expr_avoids(b, nb, cover),
    ensures
        expr_avoids(sub_e(a, b), nb, cover),
{
}

proof fn lemma_avoid_mul(a: Expr, b: Expr, nb: int, cover: int)
    requires
        expr_avoids(a, nb, cover),
        expr_avoids(b, nb, cover),
    ensures
        expr_avoids(mul_e(a, b), nb, cover),
{
}

proof fn lemma_avoid_col(i: int, nb: int, cover: int)
    requires
        0 <= i <= usize::MAX,
        not_null(i, nb, cover),
    ensures
        expr_avoids(c(i), nb, cover),
{
}

proof fn lemma_avoid_const(v: u64, nb: int, cover: int)
    ensures
        expr_avoids(Expr::Const(v), nb, cover),
{
}

#[verifier::spinoff_prover]
#[verifier::rlimit(80)]
proof fn lemma_slot_avoids(r: int, cover: int, k: int)
    requires
        r == 0 || r == 1,
        0 <= k < cover,
        spend_width_spec(r, cover) <= usize::MAX,
    ensures
        steps_avoid(slot_steps(r, cover, 0, k, true), r, node_base_spec(cover), cover),
{
    let bw = block_width_spec(r);
    let nb = node_base_spec(cover);
    let vc = value_cols_spec(cover);
    assert(k * bw + bw <= cover * bw && 0 <= k * bw && k * PER_NODE + PER_NODE <= PER_NODE * cover && 0 <= k * PER_NODE) by (nonlinear_arith)
        requires
            0 <= k < cover,
            bw >= 0,
    ;
    let n = nb + k * PER_NODE;
    let blk = vc + k * bw;
    let oo = bw - WIDTH;
    let posb = pos_base_spec();
    let active = c(n + NODE_ACTIVE);
    let inactive = sub_e(Expr::Const(1), active);
    let index = c(COL_INDEX as int);
    lemma_node_not_null(nb, cover, k, 0);
    lemma_node_not_null(nb, cover, k, 1);
    lemma_node_not_null(nb, cover, k, 2);
    lemma_node_not_null(nb, cover, k, 3);
    lemma_node_not_null(nb, cover, k, 4);
    lemma_avoid_col(n + NODE_ACTIVE, nb, cover);
    lemma_avoid_col(posb + k + 1, nb, cover);
    lemma_avoid_col(posb + k, nb, cover);
    lemma_avoid_col(blk, nb, cover);
    lemma_avoid_col(blk + 1, nb, cover);
    lemma_avoid_col(blk + 2, nb, cover);
    lemma_avoid_col(blk + 3, nb, cover);
    lemma_avoid_col(blk + 4, nb, cover);
    lemma_avoid_col(blk + 5, nb, cover);
    lemma_avoid_col(blk + 6, nb, cover);
    lemma_avoid_col(blk + 7, nb, cover);
    lemma_avoid_col(blk + oo, nb, cover);
    lemma_avoid_col(blk + oo + 1, nb, cover);
    lemma_avoid_col(COL_ROOT_KEY as int, nb, cover);
    lemma_avoid_col(COL_ROOT_KEY + 1, nb, cover);
    lemma_avoid_col(COL_BASE as int, nb, cover);
    lemma_avoid_col(COL_INDEX as int, nb, cover);
    lemma_avoid_col(COL_SECRET as int, nb, cover);
    lemma_avoid_col(COL_SECRET + 1, nb, cover);
    lemma_avoid_col(n + NODE_KEY, nb, cover);
    lemma_avoid_col(n + NODE_KEY + 1, nb, cover);
    lemma_avoid_col(n + NODE_SHARE, nb, cover);
    lemma_avoid_col(n + NODE_SHARE + 1, nb, cover);
    lemma_avoid_const(1, nb, cover);
    lemma_avoid_const(DOMAIN_KEY, nb, cover);
    lemma_avoid_const(DOMAIN_PAD, nb, cover);
    lemma_avoid_const((k + 1) as u64, nb, cover);
    lemma_avoid_sub(Expr::Const(1), active, nb, cover);
    lemma_avoid_add(c(posb + k), active, nb, cover);
    lemma_avoid_add(c(COL_BASE as int), c(posb + k), nb, cover);
    lemma_avoid_mul(active, add_e(c(COL_BASE as int), c(posb + k)), nb, cover);
    lemma_avoid_mul(inactive, index, nb, cover);
    lemma_avoid_add(mul_e(active, add_e(c(COL_BASE as int), c(posb + k))), mul_e(inactive, index), nb, cover);
    lemma_avoid_mul(active, Expr::Const(DOMAIN_KEY), nb, cover);
    lemma_avoid_mul(inactive, Expr::Const(DOMAIN_PAD), nb, cover);
    lemma_avoid_add(mul_e(active, Expr::Const(DOMAIN_KEY)), mul_e(inactive, Expr::Const(DOMAIN_PAD)), nb, cover);
    lemma_avoid_mul(inactive, Expr::Const((k + 1) as u64), nb, cover);
    lemma_avoid_mul(c(n + NODE_KEY), index, nb, cover);
    lemma_avoid_add(c(COL_SECRET as int), mul_e(c(n + NODE_KEY), index), nb, cover);
    lemma_avoid_mul(c(n + NODE_KEY + 1), index, nb, cover);
    lemma_avoid_add(c(COL_SECRET + 1), mul_e(c(n + NODE_KEY + 1), index), nb, cover);
    let st = slot_steps(r, cover, 0, k, true);
    assert forall|x: int| 0 <= x < st.len() implies #[trigger] step_avoids(st[x], r, nb, cover) by {
        if x == 0 {} else if x == 1 {} else if x == 2 {} else if x == 3 {} else if x == 4 {} else if x == 5 {}
        else if x == 6 {} else if x == 7 {} else if x == 8 {} else if x == 9 {} else if x == 10 {}
        else if x == 11 {} else if x == 12 {} else {}
    }
}

proof fn lemma_slots_avoid(r: int, cover: int, k: int)
    requires
        r == 0 || r == 1,
        0 <= k <= cover,
        spend_width_spec(r, cover) <= usize::MAX,
    ensures
        steps_avoid(slots_spec(r, cover, 0, k, true), r, node_base_spec(cover), cover),
    decreases k,
{
    if k > 0 {
        lemma_slots_avoid(r, cover, k - 1);
        lemma_slot_avoids(r, cover, k - 1);
        lemma_avoid_concat(slots_spec(r, cover, 0, k - 1, true), slot_steps(r, cover, 0, k - 1, true), r, node_base_spec(cover), cover);
    }
}

proof fn lemma_charged_avoids(nb: int, k: nat, cover: int)
    requires
        0 <= nb,
        k <= cover,
        nb + PER_NODE * cover <= usize::MAX,
    ensures
        expr_avoids(charged_expr(nb, k), nb, cover),
    decreases k,
{
    if k > 0 {
        lemma_charged_avoids(nb, (k - 1) as nat, cover);
        lemma_node_not_null(nb, cover, k - 1, 0);
        assert((k - 1) * PER_NODE + PER_NODE <= PER_NODE * cover) by (nonlinear_arith)
            requires
                1 <= k <= cover,
        ;
        let col = nb + (k - 1) * PER_NODE + NODE_ACTIVE;
        lemma_avoid_col(col, nb, cover);
        lemma_avoid_add(charged_expr(nb, (k - 1) as nat), c(col), nb, cover);
    }
}

/// The spend constraints with the nullifier checked outside read no
/// nullifier cell.
#[verifier::rlimit(60)]
proof fn lemma_spend_external_avoids(r: int, depth: nat, cover: int)
    requires
        r == 0 || r == 1,
        0 <= cover,
        spend_width_spec(r, cover) <= usize::MAX,
    ensures
        steps_avoid(spend_steps(r, depth, cover, 0, true), r, node_base_spec(cover), cover),
{
    let bw = block_width_spec(r);
    let nb = node_base_spec(cover);
    let vc = value_cols_spec(cover);
    assert(cover * bw >= 0) by (nonlinear_arith)
        requires
            cover >= 0,
            bw >= 0,
    ;
    let index0 = c(COL_INDEX as int);
    let h0 = spend_hashes(r, cover, 0);
    let t10 = seq![Step::Eq(index0, Expr::Pub(0)), Step::One(mul_e(index0, c(COL_INDEX_INV as int)))];
    let g0 = spend_gaps(depth, 0);
    let rb0 = range_blocks_spec(g0, range_base_spec(cover));
    let p0 = seq![Step::Eq(c(pos_base_spec()), c(COL_R as int))];
    let s0 = slots_spec(r, cover, 0, cover, true);
    let tl0 = seq![Step::Eq(charged_expr(nb, cover as nat), c(COL_UNITS as int))];
    assert(spend_steps(r, depth, cover, 0, true) == h0 + t10 + rb0 + p0 + s0 + tl0);
    assert forall|i: int| 0 <= i < h0.len() implies #[trigger] step_avoids(h0[i], r, nb, cover) by {
        assert(i * bw + bw <= cover * bw && 0 <= i * bw) by (nonlinear_arith)
            requires
                0 <= i < cover,
                bw >= 0,
        ;
        assert forall|j: int| vc + i * bw <= j < vc + i * bw + bw implies #[trigger] not_null(j, nb, cover) by {}
    }
    // The parts before the slots read below the first node.
    crate::spend_frame::lemma_spend_pre_within(r, depth, cover);
    let pre = t10 + rb0 + p0;
    lemma_within_avoid(pre, r, nb, cover);
    lemma_slots_avoid(r, cover, cover);
    lemma_charged_avoids(nb, cover as nat, cover);
    lemma_avoid_col(COL_UNITS as int, nb, cover);
    assert(steps_avoid(tl0, r, nb, cover)) by {
        assert forall|i: int| 0 <= i < tl0.len() implies #[trigger] step_avoids(tl0[i], r, nb, cover) by {}
    }
    assert(h0 + t10 + rb0 + p0 + s0 + tl0 =~= h0 + pre + s0 + tl0);
    lemma_avoid_concat(h0, pre, r, nb, cover);
    lemma_avoid_concat(h0 + pre, s0, r, nb, cover);
    lemma_avoid_concat(h0 + pre + s0, tl0, r, nb, cover);
}

proof fn lemma_null_blocks_len(r: int, row: Seq<u64>, node: int, k: nat)
    requires
        nulls_generated(r, row, node, k as int),
    ensures
        null_blocks(r, row, node, k).len() == k * block_width_spec(r),
    decreases k,
{
    if k > 0 {
        assert(null_block(r, row, node, k - 1).len() == block_width_spec(r));
        lemma_null_blocks_len(r, row, node, (k - 1) as nat);
        assert((k - 1) * block_width_spec(r) + block_width_spec(r) == k * block_width_spec(r)) by (nonlinear_arith);
    }
}

/// Slot `q`'s second block sits at its own place among the blocks.
proof fn lemma_null_blocks_at(r: int, row: Seq<u64>, node: int, k: nat, q: int, j: int)
    requires
        nulls_generated(r, row, node, k as int),
        0 <= q < k,
        0 <= j < block_width_spec(r),
    ensures
        null_blocks(r, row, node, k)[q * block_width_spec(r) + j] == null_block(r, row, node, q)[j],
    decreases k,
{
    let bw = block_width_spec(r);
    let prev = null_blocks(r, row, node, (k - 1) as nat);
    assert(null_blocks(r, row, node, k) == prev + null_block(r, row, node, k - 1));
    lemma_null_blocks_len(r, row, node, (k - 1) as nat);
    if q < k - 1 {
        lemma_null_blocks_at(r, row, node, (k - 1) as nat, q, j);
        assert(q * bw + j < (k - 1) * bw) by (nonlinear_arith)
            requires
                0 <= q < k - 1,
                0 <= j < bw,
        ;
    } else {
        assert(q * bw == (k - 1) * bw);
    }
}

/// What the second-invocation row holds at a slot's second block and at
/// the slot's key and nullifier cells.
#[verifier::spinoff_prover]
#[verifier::rlimit(60)]
proof fn lemma_null_cells(r: int, u: Seq<u64>, cover: int, k: int, j: int)
    requires
        r == 0 || r == 1,
        u.len() == spend_width_spec(r, cover),
        spend_width_spec(r, cover) + cover * block_width_spec(r) <= usize::MAX,
        nulls_generated(r, u, node_base_spec(cover), cover),
        0 <= k < cover,
        0 <= j < block_width_spec(r),
    ensures
        ({
            let bw = block_width_spec(r);
            let nb = node_base_spec(cover);
            let y = spend_two_row(r, u, cover);
            let blk = spend_width_spec(r, cover) + k * bw;
            let n = nb + k * PER_NODE;
            &&& y.len() == spend_width_spec(r, cover) + cover * bw
            &&& 0 <= k * bw
            &&& blk + bw <= y.len()
            &&& y[blk + j] == null_block(r, u, nb, k)[j]
            &&& j < WIDTH ==> y[blk + j] == null_input(u, nb, k)[j]
            &&& y[n + NODE_KEY] == u[n + NODE_KEY]
            &&& y[n + NODE_KEY + 1] == u[n + NODE_KEY + 1]
            &&& y[n + NODE_NULL] == y[blk + bw - WIDTH]
        }),
{
    let bw = block_width_spec(r);
    let nb = node_base_spec(cover);
    let sw = spend_width_spec(r, cover);
    let v = with_nulls(r, u, nb, cover);
    let tail = null_blocks(r, u, nb, cover as nat);
    let y = spend_two_row(r, u, cover);
    let blk = sw + k * bw;
    let n = nb + k * PER_NODE;
    lemma_null_blocks_len(r, u, nb, cover as nat);
    assert(y == v + tail);
    assert(k * bw + bw <= cover * bw && 0 <= k * bw) by (nonlinear_arith)
        requires
            0 <= k < cover,
            bw >= 0,
    ;
    assert(k * PER_NODE + PER_NODE <= PER_NODE * cover) by (nonlinear_arith)
        requires
            0 <= k < cover,
    ;
    lemma_null_blocks_at(r, u, nb, cover as nat, k, j);
    assert(y[blk + j] == tail[k * bw + j]);
    let blkk = null_block(r, u, nb, k);
    assert(blkk.len() == bw);
    if j < WIDTH {
        assert(blkk[j] == blkk.subrange(0, WIDTH as int)[j]);
    }
    lemma_node_not_null(nb, cover, k, 1);
    lemma_node_not_null(nb, cover, k, 2);
    assert(y[n + NODE_KEY] == v[n + NODE_KEY]);
    assert(y[n + NODE_KEY + 1] == v[n + NODE_KEY + 1]);
    assert(PER_NODE == 6);
    assert(n + NODE_NULL - nb == 6 * k + 5);
    vstd::arithmetic::div_mod::lemma_mod_multiples_vanish(k, 5, 6);
    vstd::arithmetic::div_mod::lemma_div_multiples_vanish_fancy(k, 5, 6);
    assert(y[n + NODE_NULL] == v[n + NODE_NULL]);
    assert(v[n + NODE_NULL] == perm_out(blkk)[0]);
    lemma_null_blocks_at(r, u, nb, cover as nat, k, bw - WIDTH);
    assert(y[blk + bw - WIDTH] == tail[k * bw + (bw - WIDTH)]);
}

/// Slot `k`'s second invocation holds of the second-invocation row.
#[verifier::spinoff_prover]
#[verifier::rlimit(60)]
proof fn lemma_null_slot_holds(r: int, u: Seq<u64>, cover: int, k: int, pv: Seq<u64>)
    requires
        r == 0 || r == 1,
        u.len() == spend_width_spec(r, cover),
        spend_width_spec(r, cover) + cover * block_width_spec(r) <= usize::MAX,
        nulls_generated(r, u, node_base_spec(cover), cover),
        0 <= k < cover,
    ensures
        all_hold(null_slot_steps(r, cover, k), r, spend_two_row(r, u, cover), pv),
{
    let bw = block_width_spec(r);
    let nb = node_base_spec(cover);
    let y = spend_two_row(r, u, cover);
    let blk = spend_width_spec(r, cover) + k * bw;
    let n = nb + k * PER_NODE;
    lemma_null_cells(r, u, cover, k, 0);
    lemma_null_cells(r, u, cover, k, 1);
    lemma_null_cells(r, u, cover, k, 2);
    lemma_null_cells(r, u, cover, k, 3);
    lemma_null_cells(r, u, cover, k, 4);
    lemma_null_cells(r, u, cover, k, 5);
    lemma_null_cells(r, u, cover, k, 6);
    lemma_null_cells(r, u, cover, k, 7);
    let ni = null_input(u, nb, k);
    assert(ni[0] == u[n + NODE_KEY] && ni[1] == u[n + NODE_KEY + 1] && ni[2] == DOMAIN_NULL);
    assert(ni[3] == 0 && ni[4] == 0 && ni[5] == 0 && ni[6] == 0 && ni[7] == 0);
    assert(k * PER_NODE + PER_NODE <= PER_NODE * cover) by (nonlinear_arith)
        requires
            0 <= k < cover,
    ;
    assert(crate::expr::is_zero_mod(0));
    let st = null_slot_steps(r, cover, k);
    assert forall|x: int| 0 <= x < st.len() implies #[trigger] step_holds(st[x], r, y, pv) by {
        if x == 0 {} else if x == 1 {} else if x == 2 {} else if x == 3 {} else if x == 4 {}
        else if x == 5 {} else if x == 6 {} else if x == 7 {} else {}
    }
}

proof fn lemma_null_slots_hold(r: int, u: Seq<u64>, cover: int, k: int, pv: Seq<u64>)
    requires
        r == 0 || r == 1,
        u.len() == spend_width_spec(r, cover),
        spend_width_spec(r, cover) + cover * block_width_spec(r) <= usize::MAX,
        nulls_generated(r, u, node_base_spec(cover), cover),
        0 <= k <= cover,
    ensures
        all_hold(null_slots(r, cover, k), r, spend_two_row(r, u, cover), pv),
    decreases k,
{
    if k > 0 {
        lemma_null_slots_hold(r, u, cover, k - 1, pv);
        lemma_null_slot_holds(r, u, cover, k - 1, pv);
        lemma_all_hold_concat(null_slots(r, cover, k - 1), null_slot_steps(r, cover, k - 1), r, spend_two_row(r, u, cover), pv);
    } else {
        assert(null_slots(r, cover, k) =~= Seq::<Step>::empty());
    }
}

/// The second blocks hold of the second-invocation row.
proof fn lemma_null_hashes_hold(r: int, u: Seq<u64>, cover: int, pv: Seq<u64>)
    requires
        0 <= cover,
        r == 0 || r == 1,
        u.len() == spend_width_spec(r, cover),
        spend_width_spec(r, cover) + cover * block_width_spec(r) <= usize::MAX,
        nulls_generated(r, u, node_base_spec(cover), cover),
    ensures
        all_hold(block_steps(spend_width_spec(r, cover), cover, block_width_spec(r)), r, spend_two_row(r, u, cover), pv),
{
    let bw = block_width_spec(r);
    let nb = node_base_spec(cover);
    let sw = spend_width_spec(r, cover);
    let y = spend_two_row(r, u, cover);
    let bs = block_steps(sw, cover, bw);
    assert forall|i: int| 0 <= i < bs.len() implies #[trigger] step_holds(bs[i], r, y, pv) by {
        lemma_null_cells(r, u, cover, i, 0);
        let st = sw + i * bw;
        let blkk = null_block(r, u, nb, i);
        assert(bs[i] == Step::Hash(st as usize));
        assert(y.subrange(st, st + bw) =~= blkk) by {
            assert forall|j: int| 0 <= j < bw implies #[trigger] y.subrange(st, st + bw)[j] == blkk[j] by {
                lemma_null_cells(r, u, cover, i, j);
            }
        }
        assert(y.subrange(st, st + WIDTH as int) =~= null_input(u, nb, i)) by {
            assert forall|j: int| 0 <= j < WIDTH implies #[trigger] y.subrange(st, st + WIDTH as int)[j] == null_input(u, nb, i)[j] by {
                lemma_null_cells(r, u, cover, i, j);
            }
        }
    }
}

/// The second-invocation row satisfies every constraint of the
/// second-invocation circuit against the payload digest: for an honest
/// spend row (as `honest_ok` fixes it) whose second blocks are the
/// generator's rows.
#[verifier::rlimit(60)]
pub proof fn lemma_spend_two_row_satisfies(
    r: int,
    depth: int,
    cover: int,
    payload: u64,
    inv: u64,
    units_want: Option<usize>,
    off_delta: int,
    pbase: int,
    spendable: int,
    pv: Seq<u64>,
)
    requires
        r == 0 || r == 1,
        honest_ok(r, depth, cover, payload, inv, units_want, off_delta, pbase, spendable),
        nulls_generated(
            r,
            spend_row_spec(r, depth, cover, payload, inv, units_want, off_delta, pbase, spendable, None),
            node_base_spec(cover),
            cover,
        ),
        spend_width_spec(r, cover) + cover * block_width_spec(r) <= usize::MAX,
        pv.len() >= 1,
        pv[0] == payload,
    ensures
        all_hold(
            spend_two_steps(r, depth, cover),
            r,
            spend_two_row(
                r,
                spend_row_spec(r, depth, cover, payload, inv, units_want, off_delta, pbase, spendable, None),
                cover,
            ),
            pv,
        ),
{
    let u = spend_row_spec(r, depth, cover, payload, inv, units_want, off_delta, pbase, spendable, None);
    let bw = block_width_spec(r);
    let nb = node_base_spec(cover);
    let sw = spend_width_spec(r, cover);
    let v = with_nulls(r, u, nb, cover);
    let y = spend_two_row(r, u, cover);
    assert(cover * bw >= 0) by (nonlinear_arith)
        requires
            cover >= 0,
            bw >= 0,
    ;
    crate::spend_accept::lemma_honest_row_len(r, depth, cover, payload, inv, units_want, off_delta, pbase, spendable);
    assert(u.len() == sw);
    lemma_null_blocks_len(r, u, nb, cover as nat);
    let ss = spend_steps(r, depth as nat, cover, 0, true);
    crate::spend_accept::lemma_honest_spend_row_satisfies_external(
        r, depth, cover, payload, inv, units_want, off_delta, pbase, spendable, pv,
    );
    crate::spend_frame::lemma_spend_within(r, depth as nat, cover, true);
    lemma_spend_external_avoids(r, depth as nat, cover);
    assert(agree_off_nulls(v, u, nb, cover, sw));
    lemma_steps_agree(ss, r, v, u, pv, nb, cover, sw);
    assert(y.subrange(0, sw) =~= v.subrange(0, sw));
    crate::expr::lemma_steps_frame(ss, r, y, v, pv, sw);
    lemma_null_hashes_hold(r, u, cover, pv);
    lemma_null_slots_hold(r, u, cover, cover, pv);
    let bs = block_steps(sw, cover, bw);
    lemma_all_hold_concat(ss, bs, r, y, pv);
    lemma_all_hold_concat(ss + bs, null_slots(r, cover, cover), r, y, pv);
}

/// Slot `k`'s second invocation in a row: its block is the generator's row
/// for the slot's key under the nullifier separator, and the slot's
/// nullifier cell is that block's first output lane.
pub open spec fn null_derived(r: int, row: Seq<u64>, cover: int, k: int) -> bool {
    let bw = block_width_spec(r);
    let blk = spend_width_spec(r, cover) + k * bw;
    let n = node_base_spec(cover) + k * PER_NODE;
    &&& row.subrange(blk, blk + bw) == poseidon2_trace_row(
        r,
        seq![row[n + NODE_KEY], row[n + NODE_KEY + 1], DOMAIN_NULL, 0u64, 0u64, 0u64, 0u64, 0u64],
    )
    &&& row[n + NODE_NULL] == row[blk + bw - WIDTH]
}

proof fn lemma_null_slots_at(r: int, cover: int, kk: int, k: int, x: int)
    requires
        0 <= k < kk,
        0 <= x < 9,
    ensures
        null_slots(r, cover, kk).len() == 9 * kk,
        null_slots(r, cover, kk)[9 * k + x] == null_slot_steps(r, cover, k)[x],
    decreases kk,
{
    let prev = null_slots(r, cover, kk - 1);
    assert(null_slots(r, cover, kk) == prev + null_slot_steps(r, cover, kk - 1));
    if kk > 1 {
        if k < kk - 1 {
            lemma_null_slots_at(r, cover, kk - 1, k, x);
        } else {
            lemma_null_slots_at(r, cover, kk - 1, 0, 0);
        }
    } else {
        assert(prev =~= Seq::<Step>::empty());
    }
}

/// One slot's second invocation in an accepted row.
#[verifier::spinoff_prover]
#[verifier::rlimit(60)]
proof fn lemma_null_slot_derived(r: int, depth: nat, cover: int, row: Seq<u64>, pv: Seq<u64>, k: int)
    requires
        r == 0 || r == 1,
        0 <= k < cover,
        spend_width_spec(r, cover) + cover * block_width_spec(r) <= row.len(),
        row.len() <= usize::MAX,
        crate::field::all_canonical(row),
        all_hold(spend_two_steps(r, depth as int, cover), r, row, pv),
    ensures
        null_derived(r, row, cover, k),
{
    let bw = block_width_spec(r);
    let sw = spend_width_spec(r, cover);
    let blk = sw + k * bw;
    let n = node_base_spec(cover) + k * PER_NODE;
    let ss = spend_steps(r, depth, cover, 0, true);
    let bs = block_steps(sw, cover, bw);
    let ns = null_slots(r, cover, cover);
    let all = spend_two_steps(r, depth as int, cover);
    assert(all == ss + bs + ns);
    assert(k * bw + bw <= cover * bw && 0 <= k * bw) by (nonlinear_arith)
        requires
            0 <= k < cover,
            bw >= 0,
    ;
    assert(k * PER_NODE + PER_NODE <= PER_NODE * cover) by (nonlinear_arith)
        requires
            0 <= k < cover,
    ;
    assert(all[ss.len() + k] == bs[k]);
    assert(step_holds(all[ss.len() + k], r, row, pv));
    assert(bs[k] == Step::Hash(blk as usize));
    assert(hash_block_holds(r, blk, row));
    let st = null_slot_steps(r, cover, k);
    assert forall|x: int| 0 <= x < 9 implies #[trigger] step_holds(st[x], r, row, pv) by {
        lemma_null_slots_at(r, cover, cover, k, x);
        assert(all[ss.len() + bs.len() + 9 * k + x] == ns[9 * k + x]);
        assert(step_holds(all[ss.len() + bs.len() + 9 * k + x], r, row, pv));
    }
    assert(step_holds(st[0], r, row, pv));
    assert(step_holds(st[1], r, row, pv));
    assert(step_holds(st[2], r, row, pv));
    assert(step_holds(st[3], r, row, pv));
    assert(step_holds(st[4], r, row, pv));
    assert(step_holds(st[5], r, row, pv));
    assert(step_holds(st[6], r, row, pv));
    assert(step_holds(st[7], r, row, pv));
    assert(step_holds(st[8], r, row, pv));
    crate::field::lemma_canonical_eq(row[blk] as int, row[n + NODE_KEY] as int);
    crate::field::lemma_canonical_eq(row[blk + 1] as int, row[n + NODE_KEY + 1] as int);
    crate::field::lemma_canonical_eq(row[blk + 2] as int, DOMAIN_NULL as int);
    crate::field::lemma_canonical_eq(row[blk + 3] as int, 0);
    crate::field::lemma_canonical_eq(row[blk + 4] as int, 0);
    crate::field::lemma_canonical_eq(row[blk + 5] as int, 0);
    crate::field::lemma_canonical_eq(row[blk + 6] as int, 0);
    crate::field::lemma_canonical_eq(row[blk + 7] as int, 0);
    crate::field::lemma_canonical_eq(row[n + NODE_NULL] as int, row[blk + bw - WIDTH] as int);
    assert(row.subrange(blk, blk + WIDTH as int) =~= seq![
        row[n + NODE_KEY],
        row[n + NODE_KEY + 1],
        DOMAIN_NULL,
        0u64,
        0u64,
        0u64,
        0u64,
        0u64,
    ]);
}

/// What the second-invocation circuit guarantees of every row it accepts,
/// with the slots' active flags taken to be bits (roots of x(x - 1), bits
/// because p is prime, which is not proved here): everything the spend
/// circuit with the nullifier checked outside it guarantees, and for every
/// slot, that its nullifier is the first output lane of the permutation of
/// the slot's key under the nullifier separator.
pub proof fn lemma_spend_two_sound(r: int, depth: nat, cover: int, row: Seq<u64>, pv: Seq<u64>)
    requires
        r == 0 || r == 1,
        0 <= cover,
        spend_width_spec(r, cover) + cover * block_width_spec(r) <= row.len(),
        row.len() <= usize::MAX,
        crate::field::all_canonical(row),
        crate::field::all_canonical(pv),
        pv.len() >= 1,
        all_hold(spend_two_steps(r, depth as int, cover), r, row, pv),
        forall|k: int| 0 <= k < cover ==> #[trigger] row[node_base_spec(cover) + k * PER_NODE + NODE_ACTIVE] <= 1,
    ensures
        row[COL_INDEX as int] == pv[0],
        row[COL_INDEX as int] != 0,
        row[pos_base_spec()] == row[COL_R as int],
        forall|k: int| 0 <= k < cover ==> #[trigger] crate::spend::slot_keeps(r, row, cover, 0, k, true),
        forall|k: int| 0 <= k < cover ==> #[trigger] null_derived(r, row, cover, k),
{
    let ss = spend_steps(r, depth, cover, 0, true);
    let rest = block_steps(spend_width_spec(r, cover), cover, block_width_spec(r)) + null_slots(r, cover, cover);
    assert(spend_two_steps(r, depth as int, cover) =~= ss + rest);
    assert forall|i: int| 0 <= i < ss.len() implies #[trigger] step_holds(ss[i], r, row, pv) by {
        assert((ss + rest)[i] == ss[i]);
    }
    assert(cover * block_width_spec(r) >= 0) by (nonlinear_arith)
        requires
            cover >= 0,
            block_width_spec(r) >= 0,
    ;
    assert(forall|k: int| 0 <= k < cover ==> #[trigger] row[0 + node_base_spec(cover) + k * PER_NODE + NODE_ACTIVE] <= 1) by {
        assert forall|k: int| 0 <= k < cover implies #[trigger] row[0 + node_base_spec(cover) + k * PER_NODE + NODE_ACTIVE] <= 1 by {
            assert(row[node_base_spec(cover) + k * PER_NODE + NODE_ACTIVE] <= 1);
        }
    }
    crate::spend::lemma_spend_sound(r, depth, cover, 0, true, row, pv);
    assert forall|k: int| 0 <= k < cover implies #[trigger] null_derived(r, row, cover, k) by {
        lemma_null_slot_derived(r, depth, cover, row, pv, k);
    }
}

} // verus!
