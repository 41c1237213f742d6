//! The spend constraints at a column offset are the constraints at offset
//! zero, shifted; and at offset zero they read only the spend row's own
//! columns. Together these let a composed circuit reuse what is proved of
//! the spend row alone.
use crate::air::{range_block_spec, range_blocks_spec, recompose_from, RANGE_BITS};
use crate::expr::{expr_cols_below, shift_expr, shift_step, shift_steps, step_within, steps_within, Expr, Step};
use crate::hash::{block_width_spec, DOMAIN_KEY, DOMAIN_PAD, WIDTH};
use crate::spend::{
    add_e, c, charged_expr, mul_e, node_base_spec, pos_base_spec, pow_expr, range_base_spec, slot_steps,
    slots_spec, spend_gaps, spend_hashes, spend_steps, spend_width_spec, sub_e, value_cols_spec, COL_BASE,
    COL_INDEX, COL_INDEX_INV, COL_M, COL_R, COL_ROOT_KEY, COL_SECRET, COL_SELF, COL_UNITS, FIXED_COLS, NODE_ACTIVE,
    NODE_KEY, NODE_NULL, NODE_SHARE, PER_NODE, SECRET_ELEMS,
};
use vstd::prelude::*;

verus! {

proof fn lemma_pow_shift(k: nat, off: int)
    ensures
        shift_expr(pow_expr(k), off) == pow_expr(k),
        expr_cols_below(pow_expr(k), 0),
    decreases k,
{
    reveal_with_fuel(shift_expr, 2);
    reveal_with_fuel(expr_cols_below, 2);
    if k > 0 {
        lemma_pow_shift((k - 1) as nat, off);
    }
}

proof fn lemma_charged_shift(nb: int, k: nat, off: int)
    requires
        0 <= nb,
        0 <= off,
        nb + off + PER_NODE * k <= usize::MAX,
    ensures
        shift_expr(charged_expr(nb, k), off) == charged_expr(nb + off, k),
        expr_cols_below(charged_expr(nb, k), nb + PER_NODE * k),
    decreases k,
{
    reveal_with_fuel(shift_expr, 3);
    reveal_with_fuel(expr_cols_below, 3);
    if k > 0 {
        assert(PER_NODE * (k - 1) + PER_NODE == PER_NODE * k && (k - 1) * PER_NODE == PER_NODE * (k - 1))
            by (nonlinear_arith)
            requires
                k >= 1,
        ;
        lemma_charged_shift(nb, (k - 1) as nat, off);
        crate::expr::lemma_expr_below_widen(charged_expr(nb, (k - 1) as nat), nb + PER_NODE * (k - 1), nb + PER_NODE * k);
    }
}

proof fn lemma_recompose_shift(start: int, n: int, i: int, off: int)
    requires
        0 <= i < n,
        0 <= start,
        0 <= off,
        start + n + off <= usize::MAX,
    ensures
        shift_expr(recompose_from(start, n, i), off) == recompose_from(start + off, n, i),
    decreases n - i,
{
    reveal_with_fuel(shift_expr, 4);
    if i < n - 1 {
        lemma_recompose_shift(start, n, i + 1, off);
    }
}

proof fn lemma_range_block_shift(gap: Expr, start: int, off: int)
    requires
        0 <= start,
        0 <= off,
        start + RANGE_BITS + off <= usize::MAX,
    ensures
        shift_steps(range_block_spec(gap, start), off) == range_block_spec(shift_expr(gap, off), start + off),
{
    lemma_recompose_shift(start, RANGE_BITS as int, 0, off);
    let a = shift_steps(range_block_spec(gap, start), off);
    let b = range_block_spec(shift_expr(gap, off), start + off);
    assert(a.len() == b.len());
    assert forall|k: int| 0 <= k < a.len() implies a[k] == b[k] by {
        if k < RANGE_BITS {
            assert(range_block_spec(gap, start)[k] == Step::Bool(Expr::Col((start + k) as usize)));
        }
    }
    assert(a =~= b);
}

pub(crate) proof fn lemma_shift_concat(a: Seq<Step>, b: Seq<Step>, off: int)
    ensures
        shift_steps(a + b, off) == shift_steps(a, off) + shift_steps(b, off),
{
    assert(shift_steps(a + b, off) =~= shift_steps(a, off) + shift_steps(b, off));
}

proof fn lemma_range_blocks_shift(gaps: Seq<Expr>, sgaps: Seq<Expr>, first: int, off: int)
    requires
        sgaps.len() == gaps.len(),
        forall|k: int| 0 <= k < gaps.len() ==> sgaps[k] == shift_expr(#[trigger] gaps[k], off),
        0 <= first,
        0 <= off,
        first + gaps.len() * RANGE_BITS + off <= usize::MAX,
    ensures
        shift_steps(range_blocks_spec(gaps, first), off) == range_blocks_spec(sgaps, first + off),
    decreases gaps.len(),
{
    if gaps.len() == 0 {
        assert(shift_steps(range_blocks_spec(gaps, first), off) =~= Seq::<Step>::empty());
    } else {
        let n = gaps.len() - 1;
        assert(first + n * RANGE_BITS + RANGE_BITS <= first + gaps.len() * RANGE_BITS) by (nonlinear_arith)
            requires
                n == gaps.len() - 1,
        ;
        assert(forall|k: int| 0 <= k < gaps.drop_last().len() ==> sgaps.drop_last()[k] == shift_expr(
            #[trigger] gaps.drop_last()[k],
            off,
        ));
        lemma_range_blocks_shift(gaps.drop_last(), sgaps.drop_last(), first, off);
        assert(0 <= n * RANGE_BITS) by (nonlinear_arith)
            requires
                n >= 0,
        ;
        lemma_range_block_shift(gaps.last(), first + n * RANGE_BITS, off);
        lemma_shift_concat(range_blocks_spec(gaps.drop_last(), first), range_block_spec(gaps.last(), first + n * RANGE_BITS), off);
        assert(sgaps.last() == shift_expr(gaps.last(), off));
    }
}

pub(crate) proof fn lemma_add_shift(a: Expr, b: Expr, off: int)
    ensures
        shift_expr(add_e(a, b), off) == add_e(shift_expr(a, off), shift_expr(b, off)),
{
}

pub(crate) proof fn lemma_mul_shift(a: Expr, b: Expr, off: int)
    ensures
        shift_expr(mul_e(a, b), off) == mul_e(shift_expr(a, off), shift_expr(b, off)),
{
}

proof fn lemma_const_shift(v: u64, off: int)
    ensures
        shift_expr(Expr::Const(v), off) == Expr::Const(v),
{
}

#[verifier::spinoff_prover]
#[verifier::rlimit(80)]
proof fn lemma_slot_shift_0(r: int, cover: int, base: int, k: int, ext: bool)
    requires
        r == 0 || r == 1,
        0 <= k < cover,
        0 <= base,
        base + spend_width_spec(r, cover) <= usize::MAX,
    ensures
        forall|x: int|
            0 <= x < 5 && x < slot_steps(r, cover, 0, k, ext).len() ==> #[trigger] shift_steps(
                slot_steps(r, cover, 0, k, ext),
                base,
            )[x] == slot_steps(r, cover, base, k, ext)[x],
{
    let bw = block_width_spec(r);
    assert(k * bw + bw <= cover * bw && 0 <= k * bw && k * PER_NODE + PER_NODE <= PER_NODE * cover && 0 <= k * PER_NODE) by (nonlinear_arith)
        requires
            0 <= k < cover,
            bw >= 0,
    ;
    let n = node_base_spec(cover) + k * PER_NODE;
    let blk = value_cols_spec(cover) + k * bw;
    let oo = bw - WIDTH;
    let posb = pos_base_spec();
    let active = c(n + NODE_ACTIVE);
    let inactive = sub_e(Expr::Const(1), active);
    let index = c(COL_INDEX as int);
    let ba = base;
    lemma_col_shift(n + NODE_ACTIVE, ba);
    lemma_col_shift(posb + k + 1, ba);
    lemma_col_shift(posb + k, ba);
    lemma_col_shift(blk, ba);
    lemma_col_shift(blk + 1, ba);
    lemma_col_shift(blk + 2, ba);
    lemma_col_shift(blk + 3, ba);
    lemma_col_shift(blk + 4, ba);
    lemma_col_shift(blk + 5, ba);
    lemma_col_shift(blk + 6, ba);
    lemma_col_shift(blk + 7, ba);
    lemma_col_shift(blk + oo, ba);
    lemma_col_shift(blk + oo + 1, ba);
    lemma_col_shift(blk + oo + SECRET_ELEMS, ba);
    lemma_col_shift(COL_ROOT_KEY as int, ba);
    lemma_col_shift(COL_ROOT_KEY + 1, ba);
    lemma_col_shift(COL_BASE as int, ba);
    lemma_col_shift(COL_INDEX as int, ba);
    lemma_col_shift(COL_SECRET as int, ba);
    lemma_col_shift(COL_SECRET + 1, ba);
    lemma_col_shift(n + NODE_KEY, ba);
    lemma_col_shift(n + NODE_KEY + 1, ba);
    lemma_col_shift(n + NODE_SHARE, ba);
    lemma_col_shift(n + NODE_SHARE + 1, ba);
    lemma_col_shift(n + NODE_NULL, ba);
    lemma_const_shift(1, ba);
    lemma_const_shift(DOMAIN_KEY, ba);
    lemma_const_shift(DOMAIN_PAD, ba);
    lemma_const_shift((k + 1) as u64, ba);
    lemma_sub_shift(Expr::Const(1), active, ba);
    lemma_add_shift(c(posb + k), active, ba);
    lemma_add_shift(c(COL_BASE as int), c(posb + k), ba);
    lemma_mul_shift(active, add_e(c(COL_BASE as int), c(posb + k)), ba);
    lemma_mul_shift(inactive, index, ba);
    lemma_add_shift(mul_e(active, add_e(c(COL_BASE as int), c(posb + k))), mul_e(inactive, index), ba);
    lemma_mul_shift(active, Expr::Const(DOMAIN_KEY), ba);
    lemma_mul_shift(inactive, Expr::Const(DOMAIN_PAD), ba);
    lemma_add_shift(mul_e(active, Expr::Const(DOMAIN_KEY)), mul_e(inactive, Expr::Const(DOMAIN_PAD)), ba);
    lemma_mul_shift(inactive, Expr::Const((k + 1) as u64), ba);
    lemma_mul_shift(c(n + NODE_KEY), index, ba);
    lemma_add_shift(c(COL_SECRET as int), mul_e(c(n + NODE_KEY), index), ba);
    lemma_mul_shift(c(n + NODE_KEY + 1), index, ba);
    lemma_add_shift(c(COL_SECRET + 1), mul_e(c(n + NODE_KEY + 1), index), ba);
    let s0 = slot_steps(r, cover, 0, k, ext);
    let a = shift_steps(s0, base);
    let b = slot_steps(r, cover, base, k, ext);
    assert(a[0] == b[0]) by { assert(a[0] == shift_step(s0[0], base)); }
    assert(a[1] == b[1]) by { assert(a[1] == shift_step(s0[1], base)); }
    assert(a[2] == b[2]) by { assert(a[2] == shift_step(s0[2], base)); }
    assert(a[3] == b[3]) by { assert(a[3] == shift_step(s0[3], base)); }
    assert(a[4] == b[4]) by { assert(a[4] == shift_step(s0[4], base)); }
    assert forall|x: int| 0 <= x < 5 && x < s0.len() implies #[trigger] a[x] == b[x] by {
        if x == 0 {} else if x == 1 {} else if x == 2 {} else if x == 3 {} else if x == 4 {}
    }
}

#[verifier::spinoff_prover]
#[verifier::rlimit(80)]
proof fn lemma_slot_shift_5(r: int, cover: int, base: int, k: int, ext: bool)
    requires
        r == 0 || r == 1,
        0 <= k < cover,
        0 <= base,
        base + spend_width_spec(r, cover) <= usize::MAX,
    ensures
        forall|x: int|
            5 <= x < 10 && x < slot_steps(r, cover, 0, k, ext).len() ==> #[trigger] shift_steps(
                slot_steps(r, cover, 0, k, ext),
                base,
            )[x] == slot_steps(r, cover, base, k, ext)[x],
{
    let bw = block_width_spec(r);
    assert(k * bw + bw <= cover * bw && 0 <= k * bw && k * PER_NODE + PER_NODE <= PER_NODE * cover && 0 <= k * PER_NODE) by (nonlinear_arith)
        requires
            0 <= k < cover,
            bw >= 0,
    ;
    let n = node_base_spec(cover) + k * PER_NODE;
    let blk = value_cols_spec(cover) + k * bw;
    let oo = bw - WIDTH;
    let posb = pos_base_spec();
    let active = c(n + NODE_ACTIVE);
    let inactive = sub_e(Expr::Const(1), active);
    let index = c(COL_INDEX as int);
    let ba = base;
    lemma_col_shift(n + NODE_ACTIVE, ba);
    lemma_col_shift(posb + k + 1, ba);
    lemma_col_shift(posb + k, ba);
    lemma_col_shift(blk, ba);
    lemma_col_shift(blk + 1, ba);
    lemma_col_shift(blk + 2, ba);
    lemma_col_shift(blk + 3, ba);
    lemma_col_shift(blk + 4, ba);
    lemma_col_shift(blk + 5, ba);
    lemma_col_shift(blk + 6, ba);
    lemma_col_shift(blk + 7, ba);
    lemma_col_shift(blk + oo, ba);
    lemma_col_shift(blk + oo + 1, ba);
    lemma_col_shift(blk + oo + SECRET_ELEMS, ba);
    lemma_col_shift(COL_ROOT_KEY as int, ba);
    lemma_col_shift(COL_ROOT_KEY + 1, ba);
    lemma_col_shift(COL_BASE as int, ba);
    lemma_col_shift(COL_INDEX as int, ba);
    lemma_col_shift(COL_SECRET as int, ba);
    lemma_col_shift(COL_SECRET + 1, ba);
    lemma_col_shift(n + NODE_KEY, ba);
    lemma_col_shift(n + NODE_KEY + 1, ba);
    lemma_col_shift(n + NODE_SHARE, ba);
    lemma_col_shift(n + NODE_SHARE + 1, ba);
    lemma_col_shift(n + NODE_NULL, ba);
    lemma_const_shift(1, ba);
    lemma_const_shift(DOMAIN_KEY, ba);
    lemma_const_shift(DOMAIN_PAD, ba);
    lemma_const_shift((k + 1) as u64, ba);
    lemma_sub_shift(Expr::Const(1), active, ba);
    lemma_add_shift(c(posb + k), active, ba);
    lemma_add_shift(c(COL_BASE as int), c(posb + k), ba);
    lemma_mul_shift(active, add_e(c(COL_BASE as int), c(posb + k)), ba);
    lemma_mul_shift(inactive, index, ba);
    lemma_add_shift(mul_e(active, add_e(c(COL_BASE as int), c(posb + k))), mul_e(inactive, index), ba);
    lemma_mul_shift(active, Expr::Const(DOMAIN_KEY), ba);
    lemma_mul_shift(inactive, Expr::Const(DOMAIN_PAD), ba);
    lemma_add_shift(mul_e(active, Expr::Const(DOMAIN_KEY)), mul_e(inactive, Expr::Const(DOMAIN_PAD)), ba);
    lemma_mul_shift(inactive, Expr::Const((k + 1) as u64), ba);
    lemma_mul_shift(c(n + NODE_KEY), index, ba);
    lemma_add_shift(c(COL_SECRET as int), mul_e(c(n + NODE_KEY), index), ba);
    lemma_mul_shift(c(n + NODE_KEY + 1), index, ba);
    lemma_add_shift(c(COL_SECRET + 1), mul_e(c(n + NODE_KEY + 1), index), ba);
    let s0 = slot_steps(r, cover, 0, k, ext);
    let a = shift_steps(s0, base);
    let b = slot_steps(r, cover, base, k, ext);
    assert(a[5] == b[5]) by { assert(a[5] == shift_step(s0[5], base)); }
    assert(a[6] == b[6]) by { assert(a[6] == shift_step(s0[6], base)); }
    assert(a[7] == b[7]) by { assert(a[7] == shift_step(s0[7], base)); }
    assert(a[8] == b[8]) by { assert(a[8] == shift_step(s0[8], base)); }
    assert(a[9] == b[9]) by { assert(a[9] == shift_step(s0[9], base)); }
    assert forall|x: int| 5 <= x < 10 && x < s0.len() implies #[trigger] a[x] == b[x] by {
        if x == 5 {} else if x == 6 {} else if x == 7 {} else if x == 8 {} else if x == 9 {}
    }
}

#[verifier::spinoff_prover]
#[verifier::rlimit(80)]
proof fn lemma_slot_shift_10(r: int, cover: int, base: int, k: int, ext: bool)
    requires
        r == 0 || r == 1,
        0 <= k < cover,
        0 <= base,
        base + spend_width_spec(r, cover) <= usize::MAX,
    ensures
        forall|x: int|
            10 <= x < 15 && x < slot_steps(r, cover, 0, k, ext).len() ==> #[trigger] shift_steps(
                slot_steps(r, cover, 0, k, ext),
                base,
            )[x] == slot_steps(r, cover, base, k, ext)[x],
{
    let bw = block_width_spec(r);
    assert(k * bw + bw <= cover * bw && 0 <= k * bw && k * PER_NODE + PER_NODE <= PER_NODE * cover && 0 <= k * PER_NODE) by (nonlinear_arith)
        requires
            0 <= k < cover,
            bw >= 0,
    ;
    let n = node_base_spec(cover) + k * PER_NODE;
    let blk = value_cols_spec(cover) + k * bw;
    let oo = bw - WIDTH;
    let posb = pos_base_spec();
    let active = c(n + NODE_ACTIVE);
    let inactive = sub_e(Expr::Const(1), active);
    let index = c(COL_INDEX as int);
    let ba = base;
    lemma_col_shift(n + NODE_ACTIVE, ba);
    lemma_col_shift(posb + k + 1, ba);
    lemma_col_shift(posb + k, ba);
    lemma_col_shift(blk, ba);
    lemma_col_shift(blk + 1, ba);
    lemma_col_shift(blk + 2, ba);
    lemma_col_shift(blk + 3, ba);
    lemma_col_shift(blk + 4, ba);
    lemma_col_shift(blk + 5, ba);
    lemma_col_shift(blk + 6, ba);
    lemma_col_shift(blk + 7, ba);
    lemma_col_shift(blk + oo, ba);
    lemma_col_shift(blk + oo + 1, ba);
    lemma_col_shift(blk + oo + SECRET_ELEMS, ba);
    lemma_col_shift(COL_ROOT_KEY as int, ba);
    lemma_col_shift(COL_ROOT_KEY + 1, ba);
    lemma_col_shift(COL_BASE as int, ba);
    lemma_col_shift(COL_INDEX as int, ba);
    lemma_col_shift(COL_SECRET as int, ba);
    lemma_col_shift(COL_SECRET + 1, ba);
    lemma_col_shift(n + NODE_KEY, ba);
    lemma_col_shift(n + NODE_KEY + 1, ba);
    lemma_col_shift(n + NODE_SHARE, ba);
    lemma_col_shift(n + NODE_SHARE + 1, ba);
    lemma_col_shift(n + NODE_NULL, ba);
    lemma_const_shift(1, ba);
    lemma_const_shift(DOMAIN_KEY, ba);
    lemma_const_shift(DOMAIN_PAD, ba);
    lemma_const_shift((k + 1) as u64, ba);
    lemma_sub_shift(Expr::Const(1), active, ba);
    lemma_add_shift(c(posb + k), active, ba);
    lemma_add_shift(c(COL_BASE as int), c(posb + k), ba);
    lemma_mul_shift(active, add_e(c(COL_BASE as int), c(posb + k)), ba);
    lemma_mul_shift(inactive, index, ba);
    lemma_add_shift(mul_e(active, add_e(c(COL_BASE as int), c(posb + k))), mul_e(inactive, index), ba);
    lemma_mul_shift(active, Expr::Const(DOMAIN_KEY), ba);
    lemma_mul_shift(inactive, Expr::Const(DOMAIN_PAD), ba);
    lemma_add_shift(mul_e(active, Expr::Const(DOMAIN_KEY)), mul_e(inactive, Expr::Const(DOMAIN_PAD)), ba);
    lemma_mul_shift(inactive, Expr::Const((k + 1) as u64), ba);
    lemma_mul_shift(c(n + NODE_KEY), index, ba);
    lemma_add_shift(c(COL_SECRET as int), mul_e(c(n + NODE_KEY), index), ba);
    lemma_mul_shift(c(n + NODE_KEY + 1), index, ba);
    lemma_add_shift(c(COL_SECRET + 1), mul_e(c(n + NODE_KEY + 1), index), ba);
    let s0 = slot_steps(r, cover, 0, k, ext);
    let a = shift_steps(s0, base);
    let b = slot_steps(r, cover, base, k, ext);
    assert(a[10] == b[10]) by { assert(a[10] == shift_step(s0[10], base)); }
    assert(a[11] == b[11]) by { assert(a[11] == shift_step(s0[11], base)); }
    assert(a[12] == b[12]) by { assert(a[12] == shift_step(s0[12], base)); }
    assert(a[13] == b[13]) by { assert(a[13] == shift_step(s0[13], base)); }
    if !ext {
        assert(a[14] == b[14]) by { assert(a[14] == shift_step(s0[14], base)); }
    }
    assert forall|x: int| 10 <= x < 15 && x < s0.len() implies #[trigger] a[x] == b[x] by {
        if x == 10 {} else if x == 11 {} else if x == 12 {} else if x == 13 {} else if x == 14 {}
    }
}

proof fn lemma_slot_shift(r: int, cover: int, base: int, k: int, ext: bool)
    requires
        r == 0 || r == 1,
        0 <= k < cover,
        0 <= base,
        base + spend_width_spec(r, cover) <= usize::MAX,
    ensures
        shift_steps(slot_steps(r, cover, 0, k, ext), base) == slot_steps(r, cover, base, k, ext),
{
    lemma_slot_shift_0(r, cover, base, k, ext);
    lemma_slot_shift_5(r, cover, base, k, ext);
    lemma_slot_shift_10(r, cover, base, k, ext);
    let a = shift_steps(slot_steps(r, cover, 0, k, ext), base);
    let b = slot_steps(r, cover, base, k, ext);
    assert(a.len() == b.len());
    assert forall|x: int| 0 <= x < a.len() implies a[x] == b[x] by {
        if x < 5 {
        } else if x < 10 {
        } else {
        }
    }
    assert(a =~= b);
}

proof fn lemma_slots_shift(r: int, cover: int, base: int, k: int, ext: bool)
    requires
        r == 0 || r == 1,
        0 <= k <= cover,
        0 <= base,
        base + spend_width_spec(r, cover) <= usize::MAX,
    ensures
        shift_steps(slots_spec(r, cover, 0, k, ext), base) == slots_spec(r, cover, base, k, ext),
    decreases k,
{
    if k == 0 {
        assert(shift_steps(slots_spec(r, cover, 0, k, ext), base) =~= Seq::<Step>::empty());
    } else {
        lemma_slots_shift(r, cover, base, k - 1, ext);
        lemma_slot_shift(r, cover, base, k - 1, ext);
        lemma_shift_concat(slots_spec(r, cover, 0, k - 1, ext), slot_steps(r, cover, 0, k - 1, ext), base);
    }
}

proof fn lemma_fixed_parts_shift(depth: nat, cover: int, base: int)
    requires
        0 <= cover,
        0 <= base,
        base + node_base_spec(cover) <= usize::MAX,
    ensures
        shift_steps(
            seq![Step::Eq(c(COL_INDEX as int), Expr::Pub(0)), Step::One(mul_e(c(COL_INDEX as int), c(COL_INDEX_INV as int)))],
            base,
        ) == seq![Step::Eq(c(base + COL_INDEX), Expr::Pub(0)), Step::One(mul_e(c(base + COL_INDEX), c(base + COL_INDEX_INV)))],
        shift_steps(seq![Step::Eq(c(pos_base_spec()), c(COL_R as int))], base) == seq![
            Step::Eq(c(base + pos_base_spec()), c(base + COL_R)),
        ],
        forall|k: int|
            0 <= k < spend_gaps(depth, 0).len() ==> spend_gaps(depth, base)[k] == shift_expr(
                #[trigger] spend_gaps(depth, 0)[k],
                base,
            ),
        spend_gaps(depth, 0).len() == spend_gaps(depth, base).len(),
{
    lemma_col_shift(COL_INDEX as int, base);
    lemma_col_shift(COL_INDEX_INV as int, base);
    lemma_col_shift(pos_base_spec(), base);
    lemma_col_shift(COL_R as int, base);
    lemma_mul_shift(c(COL_INDEX as int), c(COL_INDEX_INV as int), base);
    let t10 = seq![Step::Eq(c(COL_INDEX as int), Expr::Pub(0)), Step::One(mul_e(c(COL_INDEX as int), c(COL_INDEX_INV as int)))];
    assert(shift_steps(t10, base)[0] == shift_step(t10[0], base));
    assert(shift_steps(t10, base)[1] == shift_step(t10[1], base));
    assert(shift_steps(t10, base) =~= seq![Step::Eq(c(base + COL_INDEX), Expr::Pub(0)), Step::One(mul_e(c(base + COL_INDEX), c(base + COL_INDEX_INV)))]);
    let p0 = seq![Step::Eq(c(pos_base_spec()), c(COL_R as int))];
    assert(shift_steps(p0, base)[0] == shift_step(p0[0], base));
    assert(shift_steps(p0, base) =~= seq![Step::Eq(c(base + pos_base_spec()), c(base + COL_R))]);
    lemma_gaps_shift(depth, base);
}

pub(crate) proof fn lemma_sub_shift(a: Expr, b: Expr, off: int)
    ensures
        shift_expr(sub_e(a, b), off) == sub_e(shift_expr(a, off), shift_expr(b, off)),
{
}

pub(crate) proof fn lemma_col_shift(i: int, off: int)
    requires
        0 <= i,
        0 <= off,
        i + off <= usize::MAX,
    ensures
        shift_expr(c(i), off) == c(i + off),
{
}

proof fn lemma_gaps_shift(depth: nat, base: int)
    requires
        0 <= base,
        base + FIXED_COLS <= usize::MAX,
    ensures
        forall|k: int|
            0 <= k < spend_gaps(depth, 0).len() ==> spend_gaps(depth, base)[k] == shift_expr(
                #[trigger] spend_gaps(depth, 0)[k],
                base,
            ),
        spend_gaps(depth, 0).len() == spend_gaps(depth, base).len(),
{
    lemma_pow_shift(depth, base);
    let g0 = spend_gaps(depth, 0);
    let g = spend_gaps(depth, base);
    lemma_col_shift(COL_R as int, base);
    lemma_col_shift(COL_SELF as int, base);
    lemma_col_shift(COL_UNITS as int, base);
    lemma_col_shift(COL_M as int, base);
    lemma_col_shift(COL_BASE as int, base);
    lemma_sub_shift(c(COL_SELF as int), c(COL_R as int), base);
    lemma_sub_shift(sub_e(c(COL_SELF as int), c(COL_R as int)), c(COL_UNITS as int), base);
    lemma_sub_shift(pow_expr(depth), c(COL_BASE as int), base);
    lemma_sub_shift(sub_e(pow_expr(depth), c(COL_BASE as int)), c(COL_M as int), base);
    lemma_sub_shift(c(COL_M as int), c(COL_SELF as int), base);
    assert(g[0] == shift_expr(g0[0], base));
    assert(g[1] == shift_expr(g0[1], base));
    assert(g[2] == shift_expr(g0[2], base));
    assert(g[3] == shift_expr(g0[3], base));
}

/// The spend constraints at column offset `base` are those at offset zero,
/// shifted by `base`.
#[verifier::rlimit(60)]
pub proof fn lemma_spend_steps_shift(r: int, depth: nat, cover: int, base: int, ext: bool)
    requires
        r == 0 || r == 1,
        0 <= cover,
        0 <= base,
        base + spend_width_spec(r, cover) <= usize::MAX,
    ensures
        shift_steps(spend_steps(r, depth, cover, 0, ext), base) == spend_steps(r, depth, cover, base, ext),
{
    let bw = block_width_spec(r);
    assert(cover * bw >= 0) by (nonlinear_arith)
        requires
            cover >= 0,
            bw >= 0,
    ;
    let index0 = c(COL_INDEX as int);
    let h0 = spend_hashes(r, cover, 0);
    let t10 = seq![Step::Eq(index0, Expr::Pub(0)), Step::One(mul_e(index0, c(COL_INDEX_INV as int)))];
    let g0 = spend_gaps(depth, 0);
    let rb0 = range_blocks_spec(g0, range_base_spec(cover));
    let p0 = seq![Step::Eq(c(pos_base_spec()), c(COL_R as int))];
    let s0 = slots_spec(r, cover, 0, cover, ext);
    let tl0 = seq![Step::Eq(charged_expr(node_base_spec(cover), cover as nat), c(COL_UNITS as int))];
    let index = c(base + COL_INDEX);
    let h = spend_hashes(r, cover, base);
    let t1 = seq![Step::Eq(index, Expr::Pub(0)), Step::One(mul_e(index, c(base + COL_INDEX_INV)))];
    let g = spend_gaps(depth, base);
    let rb = range_blocks_spec(g, base + range_base_spec(cover));
    let p = seq![Step::Eq(c(base + pos_base_spec()), c(base + COL_R))];
    let s = slots_spec(r, cover, base, cover, ext);
    let tl = seq![Step::Eq(charged_expr(base + node_base_spec(cover), cover as nat), c(base + COL_UNITS))];
    assert(spend_steps(r, depth, cover, 0, ext) == h0 + t10 + rb0 + p0 + s0 + tl0);
    assert(spend_steps(r, depth, cover, base, ext) == h + t1 + rb + p + s + tl);
    // Each part.
    assert forall|i: int| 0 <= i < h0.len() implies shift_steps(h0, base)[i] == h[i] by {
        assert(i * bw + bw <= cover * bw && 0 <= i * bw) by (nonlinear_arith)
            requires
                0 <= i < cover,
                bw >= 0,
        ;
    }
    assert(shift_steps(h0, base) =~= h);
    lemma_fixed_parts_shift(depth, cover, base);
    lemma_range_blocks_shift(g0, g, range_base_spec(cover), base);
    lemma_slots_shift(r, cover, base, cover, ext);
    lemma_charged_shift(node_base_spec(cover), cover as nat, base);
    assert(shift_steps(tl0, base) =~= tl);
    lemma_shift_concat(h0, t10, base);
    lemma_shift_concat(h0 + t10, rb0, base);
    lemma_shift_concat(h0 + t10 + rb0, p0, base);
    lemma_shift_concat(h0 + t10 + rb0 + p0, s0, base);
    lemma_shift_concat(h0 + t10 + rb0 + p0 + s0, tl0, base);
}

proof fn lemma_below_add(a: Expr, b: Expr, w: int)
    requires
        expr_cols_below(a, w),
        expr_cols_below(b, w),
    ensures
        expr_cols_below(add_e(a, b), w),
{
}

proof fn lemma_below_sub(a: Expr, b: Expr, w: int)
    requires
        expr_cols_below(a, w),
        expr_cols_below(b, w),
    ensures
        expr_cols_below(sub_e(a, b), w),
{
}

proof fn lemma_below_mul(a: Expr, b: Expr, w: int)
    requires
        expr_cols_below(a, w),
        expr_cols_below(b, w),
    ensures
        expr_cols_below(mul_e(a, b), w),
{
}

proof fn lemma_below_col(i: int, w: int)
    requires
        0 <= i < w,
        i <= usize::MAX,
    ensures
        expr_cols_below(c(i), w),
{
}

proof fn lemma_below_const(v: u64, w: int)
    ensures
        expr_cols_below(Expr::Const(v), w),
{
}

#[verifier::spinoff_prover]
#[verifier::rlimit(80)]
proof fn lemma_slot_within(r: int, cover: int, k: int, ext: bool)
    requires
        r == 0 || r == 1,
        0 <= k < cover,
        spend_width_spec(r, cover) <= usize::MAX,
    ensures
        steps_within(slot_steps(r, cover, 0, k, ext), r, spend_width_spec(r, cover)),
{
    let bw = block_width_spec(r);
    let w = spend_width_spec(r, cover);
    assert(k * bw + bw <= cover * bw && 0 <= k * bw && k * PER_NODE + PER_NODE <= PER_NODE * cover && 0 <= k * PER_NODE) by (nonlinear_arith)
        requires
            0 <= k < cover,
            bw >= 0,
    ;
    let n = node_base_spec(cover) + k * PER_NODE;
    let blk = value_cols_spec(cover) + k * bw;
    let oo = bw - WIDTH;
    let posb = pos_base_spec();
    let active = c(n + NODE_ACTIVE);
    let inactive = sub_e(Expr::Const(1), active);
    let index = c(COL_INDEX as int);
    lemma_below_col(n + NODE_ACTIVE, w);
    lemma_below_col(posb + k + 1, w);
    lemma_below_col(posb + k, w);
    lemma_below_col(blk, w);
    lemma_below_col(blk + 1, w);
    lemma_below_col(blk + 2, w);
    lemma_below_col(blk + 3, w);
    lemma_below_col(blk + 4, w);
    lemma_below_col(blk + 5, w);
    lemma_below_col(blk + 6, w);
    lemma_below_col(blk + 7, w);
    lemma_below_col(blk + oo, w);
    lemma_below_col(blk + oo + 1, w);
    lemma_below_col(blk + oo + SECRET_ELEMS, w);
    lemma_below_col(COL_ROOT_KEY as int, w);
    lemma_below_col(COL_ROOT_KEY + 1, w);
    lemma_below_col(COL_BASE as int, w);
    lemma_below_col(COL_INDEX as int, w);
    lemma_below_col(COL_SECRET as int, w);
    lemma_below_col(COL_SECRET + 1, w);
    lemma_below_col(n + NODE_KEY, w);
    lemma_below_col(n + NODE_KEY + 1, w);
    lemma_below_col(n + NODE_SHARE, w);
    lemma_below_col(n + NODE_SHARE + 1, w);
    lemma_below_col(n + NODE_NULL, w);
    lemma_below_const(1, w);
    lemma_below_const(DOMAIN_KEY, w);
    lemma_below_const(DOMAIN_PAD, w);
    lemma_below_const((k + 1) as u64, w);
    lemma_below_sub(Expr::Const(1), active, w);
    lemma_below_add(c(posb + k), active, w);
    lemma_below_add(c(COL_BASE as int), c(posb + k), w);
    lemma_below_mul(active, add_e(c(COL_BASE as int), c(posb + k)), w);
    lemma_below_mul(inactive, index, w);
    lemma_below_add(mul_e(active, add_e(c(COL_BASE as int), c(posb + k))), mul_e(inactive, index), w);
    lemma_below_mul(active, Expr::Const(DOMAIN_KEY), w);
    lemma_below_mul(inactive, Expr::Const(DOMAIN_PAD), w);
    lemma_below_add(mul_e(active, Expr::Const(DOMAIN_KEY)), mul_e(inactive, Expr::Const(DOMAIN_PAD)), w);
    lemma_below_mul(inactive, Expr::Const((k + 1) as u64), w);
    lemma_below_mul(c(n + NODE_KEY), index, w);
    lemma_below_add(c(COL_SECRET as int), mul_e(c(n + NODE_KEY), index), w);
    lemma_below_mul(c(n + NODE_KEY + 1), index, w);
    lemma_below_add(c(COL_SECRET + 1), mul_e(c(n + NODE_KEY + 1), index), w);
    let st = slot_steps(r, cover, 0, k, ext);
    assert forall|x: int| 0 <= x < st.len() implies #[trigger] step_within(st[x], r, w) by {
        if x == 0 {} else if x == 1 {} else if x == 2 {} else if x == 3 {} else if x == 4 {} else if x == 5 {}
        else if x == 6 {} else if x == 7 {} else if x == 8 {} else if x == 9 {} else if x == 10 {}
        else if x == 11 {} else if x == 12 {} else if x == 13 {} else {}
    }
}

proof fn lemma_slots_within(r: int, cover: int, k: int, ext: bool)
    requires
        r == 0 || r == 1,
        0 <= k <= cover,
        spend_width_spec(r, cover) <= usize::MAX,
    ensures
        steps_within(slots_spec(r, cover, 0, k, ext), r, spend_width_spec(r, cover)),
    decreases k,
{
    if k > 0 {
        lemma_slots_within(r, cover, k - 1, ext);
        lemma_slot_within(r, cover, k - 1, ext);
        crate::expr::lemma_within_concat(
            slots_spec(r, cover, 0, k - 1, ext),
            slot_steps(r, cover, 0, k - 1, ext),
            r,
            spend_width_spec(r, cover),
        );
    }
}

/// The spend constraints at offset zero read only the spend row's columns.
#[verifier::rlimit(60)]
pub proof fn lemma_spend_within(r: int, depth: nat, cover: int, ext: bool)
    requires
        r == 0 || r == 1,
        0 <= cover,
        spend_width_spec(r, cover) <= usize::MAX,
    ensures
        steps_within(spend_steps(r, depth, cover, 0, ext), r, spend_width_spec(r, cover)),
{
    let bw = block_width_spec(r);
    let w = spend_width_spec(r, cover);
    assert(cover * bw >= 0) by (nonlinear_arith)
        requires
            cover >= 0,
            bw >= 0,
    ;
    let index0 = c(COL_INDEX as int);
    let h0 = spend_hashes(r, cover, 0);
    let t10 = seq![Step::Eq(index0, Expr::Pub(0)), Step::One(mul_e(index0, c(COL_INDEX_INV as int)))];
    let g0 = spend_gaps(depth, 0);
    let rb0 = range_blocks_spec(g0, range_base_spec(cover));
    let p0 = seq![Step::Eq(c(pos_base_spec()), c(COL_R as int))];
    let s0 = slots_spec(r, cover, 0, cover, ext);
    let tl0 = seq![Step::Eq(charged_expr(node_base_spec(cover), cover as nat), c(COL_UNITS as int))];
    assert(spend_steps(r, depth, cover, 0, ext) == h0 + t10 + rb0 + p0 + s0 + tl0);
    assert forall|i: int| 0 <= i < h0.len() implies #[trigger] step_within(h0[i], r, w) by {
        assert(i * bw + bw <= cover * bw && 0 <= i * bw) by (nonlinear_arith)
            requires
                0 <= i < cover,
                bw >= 0,
        ;
    }
    lemma_below_col(COL_INDEX as int, w);
    lemma_below_col(COL_INDEX_INV as int, w);
    lemma_below_mul(index0, c(COL_INDEX_INV as int), w);
    assert(steps_within(t10, r, w)) by {
        assert forall|i: int| 0 <= i < t10.len() implies #[trigger] step_within(t10[i], r, w) by {
            if i == 0 {} else {}
        }
    }
    lemma_pow_shift(depth, 0);
    crate::expr::lemma_expr_below_widen(pow_expr(depth), 0, w);
    lemma_below_col(COL_R as int, w);
    lemma_below_col(COL_SELF as int, w);
    lemma_below_col(COL_UNITS as int, w);
    lemma_below_col(COL_M as int, w);
    lemma_below_col(COL_BASE as int, w);
    lemma_below_sub(c(COL_SELF as int), c(COL_R as int), w);
    lemma_below_sub(sub_e(c(COL_SELF as int), c(COL_R as int)), c(COL_UNITS as int), w);
    lemma_below_sub(pow_expr(depth), c(COL_BASE as int), w);
    lemma_below_sub(sub_e(pow_expr(depth), c(COL_BASE as int)), c(COL_M as int), w);
    lemma_below_sub(c(COL_M as int), c(COL_SELF as int), w);
    assert forall|k: int| 0 <= k < g0.len() implies expr_cols_below(#[trigger] g0[k], w) by {
        if k == 0 {} else if k == 1 {} else if k == 2 {} else {}
    }
    crate::air::lemma_range_blocks_within(g0, range_base_spec(cover), r, w);
    lemma_below_col(pos_base_spec(), w);
    assert(steps_within(p0, r, w)) by {
        assert forall|i: int| 0 <= i < p0.len() implies #[trigger] step_within(p0[i], r, w) by {}
    }
    lemma_slots_within(r, cover, cover, ext);
    lemma_charged_shift(node_base_spec(cover), cover as nat, 0);
    crate::expr::lemma_expr_below_widen(charged_expr(node_base_spec(cover), cover as nat), node_base_spec(cover) + PER_NODE * cover, w);
    assert(steps_within(tl0, r, w)) by {
        assert forall|i: int| 0 <= i < tl0.len() implies #[trigger] step_within(tl0[i], r, w) by {}
    }
    crate::expr::lemma_within_concat(h0, t10, r, w);
    crate::expr::lemma_within_concat(h0 + t10, rb0, r, w);
    crate::expr::lemma_within_concat(h0 + t10 + rb0, p0, r, w);
    crate::expr::lemma_within_concat(h0 + t10 + rb0 + p0, s0, r, w);
    crate::expr::lemma_within_concat(h0 + t10 + rb0 + p0 + s0, tl0, r, w);
}

/// The constraints between the slot hashes and the slots (the index checks,
/// the range checks and the run start) read below the first slot node.
pub(crate) proof fn lemma_spend_pre_within(r: int, depth: nat, cover: int)
    requires
        0 <= cover,
        spend_width_spec(r, cover) <= usize::MAX,
        r == 0 || r == 1,
    ensures
        steps_within(
            seq![Step::Eq(c(COL_INDEX as int), Expr::Pub(0)), Step::One(mul_e(c(COL_INDEX as int), c(COL_INDEX_INV as int)))]
                + range_blocks_spec(spend_gaps(depth, 0), range_base_spec(cover))
                + seq![Step::Eq(c(pos_base_spec()), c(COL_R as int))],
            r,
            node_base_spec(cover),
        ),
{
    let w = node_base_spec(cover);
    assert(cover * block_width_spec(r) >= 0) by (nonlinear_arith)
        requires
            cover >= 0,
            block_width_spec(r) >= 0,
    ;
    let index0 = c(COL_INDEX as int);
    let t10 = seq![Step::Eq(index0, Expr::Pub(0)), Step::One(mul_e(index0, c(COL_INDEX_INV as int)))];
    let g0 = spend_gaps(depth, 0);
    let rb0 = range_blocks_spec(g0, range_base_spec(cover));
    let p0 = seq![Step::Eq(c(pos_base_spec()), c(COL_R as int))];
    lemma_below_col(COL_INDEX as int, w);
    lemma_below_col(COL_INDEX_INV as int, w);
    lemma_below_mul(index0, c(COL_INDEX_INV as int), w);
    assert(steps_within(t10, r, w)) by {
        assert forall|i: int| 0 <= i < t10.len() implies #[trigger] step_within(t10[i], r, w) by {
            if i == 0 {} else {}
        }
    }
    lemma_pow_shift(depth, 0);
    crate::expr::lemma_expr_below_widen(pow_expr(depth), 0, w);
    lemma_below_col(COL_R as int, w);
    lemma_below_col(COL_SELF as int, w);
    lemma_below_col(COL_UNITS as int, w);
    lemma_below_col(COL_M as int, w);
    lemma_below_col(COL_BASE as int, w);
    lemma_below_sub(c(COL_SELF as int), c(COL_R as int), w);
    lemma_below_sub(sub_e(c(COL_SELF as int), c(COL_R as int)), c(COL_UNITS as int), w);
    lemma_below_sub(pow_expr(depth), c(COL_BASE as int), w);
    lemma_below_sub(sub_e(pow_expr(depth), c(COL_BASE as int)), c(COL_M as int), w);
    lemma_below_sub(c(COL_M as int), c(COL_SELF as int), w);
    assert forall|k: int| 0 <= k < g0.len() implies expr_cols_below(#[trigger] g0[k], w) by {
        if k == 0 {} else if k == 1 {} else if k == 2 {} else {}
    }
    crate::air::lemma_range_blocks_within(g0, range_base_spec(cover), r, w);
    lemma_below_col(pos_base_spec(), w);
    assert(steps_within(p0, r, w)) by {
        assert forall|i: int| 0 <= i < p0.len() implies #[trigger] step_within(p0[i], r, w) by {}
    }
    crate::expr::lemma_within_concat(t10, rb0, r, w);
    crate::expr::lemma_within_concat(t10 + rb0, p0, r, w);
}

} // verus!
