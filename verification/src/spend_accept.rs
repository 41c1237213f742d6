//! The honest spend row satisfies the spend circuit: each slot's block is
//! the generator's row for the input the slot's cells select, the run's
//! gaps are what the range blocks encode, and the charged units are the
//! active slots.
use crate::air::{bit, lemma_range_block_holds, lemma_range_blocks_hold, range_block_spec, range_blocks_spec, RANGE_BITS};
use crate::expr::{all_hold, eval, hash_block_holds, lemma_all_hold_concat, step_holds, Expr, Step};
use crate::field::{add_spec, all_canonical, mul_spec, P};
use crate::gen::{perm_out, poseidon2_trace_row};
use crate::hash::{block_width_spec, DOMAIN_KEY, DOMAIN_PAD, WIDTH};
use crate::spend::{
    add_e, c, charged_expr, mul_e, node_base_spec, pos_base_spec, range_base_spec, slot_steps, slots_spec,
    spend_gaps, spend_hashes, spend_steps, sub_e, value_cols_spec, COL_BASE, COL_INDEX, COL_INDEX_INV, COL_M, COL_R,
    COL_ROOT_KEY, COL_SECRET, COL_SELF, COL_UNITS, FIXED_COLS, NODE_ACTIVE, NODE_KEY, NODE_NULL, NODE_SHARE,
    PER_NODE, SECRET_ELEMS,
};
use crate::spend_controls::{lemma_charged_eval, lemma_node_cells, lemma_nodes_len, lemma_spend_cells};
use crate::spend_trace::{
    blocks_spec, fe, nodes_spec, positions_spec, row_offset, run_units, slot_block, slot_input, slot_node,
    slot_pos, slots_generated, spend_fixed, spend_gap_values, spend_range_bits, spend_row_ok, spend_row_spec,
    spend_row_width, spend_unbroken_row, ROOT_KEY, SECRET,
};
use vstd::arithmetic::power2::pow2;
use vstd::prelude::*;

verus! {

/// The honest rows the satisfaction below is stated for: a row
/// `spend_row_ok` accepts, with its index space, run and slot numbers below
/// p, its gaps below 2^RANGE_BITS, a payload digest inverted by the row's
/// inverse, and generated slot blocks.
pub open spec fn honest_ok(
    r: int,
    depth: int,
    cover: int,
    payload: u64,
    inv: u64,
    units_want: Option<usize>,
    off_delta: int,
    pbase: int,
    spendable: int,
) -> bool {
    let units = run_units(cover, units_want, spendable, off_delta);
    let off = row_offset(cover, units_want, spendable, off_delta, None);
    let g = spend_gap_values(depth, pbase, spendable, off, units);
    &&& spend_row_ok(r, depth, cover, payload, units_want, off_delta, pbase, spendable, None)
    &&& 0 <= cover
    &&& 0 <= depth
    &&& 0 <= off_delta
    &&& 0 <= pbase
    &&& 0 <= spendable
    &&& pbase + spendable + cover + 2 < P
    &&& mul_spec(payload as int, inv as int) == 1
    &&& forall|k: int| 0 <= k < 3 ==> 0 <= #[trigger] g[k] < pow2(RANGE_BITS as nat)
    &&& slots_generated(r, payload, pbase, off, units, cover)
    &&& all_canonical(spend_row_spec(r, depth, cover, payload, inv, units_want, off_delta, pbase, spendable, None))
}

/// Each slot's block sits at its own place among the blocks.
proof fn lemma_blocks_at(r: int, payload: u64, pbase: int, off: int, units: int, k: nat, q: int, j: int)
    requires
        slots_generated(r, payload, pbase, off, units, k as int),
        0 <= q < k,
        0 <= j < block_width_spec(r),
    ensures
        blocks_spec(r, payload, pbase, off, units, k).len() == k * block_width_spec(r),
        blocks_spec(r, payload, pbase, off, units, k)[q * block_width_spec(r) + j] == slot_block(
            r,
            payload,
            pbase,
            off,
            units,
            q,
        )[j],
    decreases k,
{
    let bw = block_width_spec(r);
    let prev = blocks_spec(r, payload, pbase, off, units, (k - 1) as nat);
    let last = slot_block(r, payload, pbase, off, units, k - 1);
    assert(last.len() == bw);
    assert(blocks_spec(r, payload, pbase, off, units, k) == prev + last);
    if k == 1 {
        assert(prev =~= Seq::<u64>::empty());
        assert(q == 0);
        assert(q * bw + j == j);
    }
    if k > 1 {
        lemma_blocks_len(r, payload, pbase, off, units, (k - 1) as nat);
        if q < k - 1 {
            lemma_blocks_at(r, payload, pbase, off, units, (k - 1) as nat, q, j);
            assert(q * bw + j < (k - 1) * bw) by (nonlinear_arith)
                requires
                    0 <= q < k - 1,
                    0 <= j < bw,
            ;
        } else {
            assert(q * bw == (k - 1) * bw);
            assert(prev.len() == (k - 1) * bw);
        }
    }
    lemma_blocks_len(r, payload, pbase, off, units, k);
}

proof fn lemma_blocks_len(r: int, payload: u64, pbase: int, off: int, units: int, k: nat)
    requires
        slots_generated(r, payload, pbase, off, units, k as int),
    ensures
        blocks_spec(r, payload, pbase, off, units, k).len() == k * block_width_spec(r),
    decreases k,
{
    if k > 0 {
        assert(slot_block(r, payload, pbase, off, units, k - 1).len() == block_width_spec(r));
        lemma_blocks_len(r, payload, pbase, off, units, (k - 1) as nat);
        assert((k - 1) * block_width_spec(r) + block_width_spec(r) == k * block_width_spec(r)) by (nonlinear_arith);
    }
}

/// The honest row's block cells.
proof fn lemma_block_cells(
    r: int,
    depth: int,
    cover: int,
    payload: u64,
    inv: u64,
    units_want: Option<usize>,
    off_delta: int,
    pbase: int,
    spendable: int,
    q: int,
)
    requires
        honest_ok(r, depth, cover, payload, inv, units_want, off_delta, pbase, spendable),
        0 <= q < cover,
    ensures
        ({
            let u = spend_row_spec(r, depth, cover, payload, inv, units_want, off_delta, pbase, spendable, None);
            let units = run_units(cover, units_want, spendable, off_delta);
            let off = row_offset(cover, units_want, spendable, off_delta, None);
            let bw = block_width_spec(r);
            let start = value_cols_spec(cover) + q * bw;
            &&& u.len() == spend_row_width(cover, bw)
            &&& 0 <= start
            &&& start + bw <= u.len()
            &&& u.subrange(start, start + bw) == slot_block(r, payload, pbase, off, units, q)
        }),
{
    let u = spend_row_spec(r, depth, cover, payload, inv, units_want, off_delta, pbase, spendable, None);
    let units = run_units(cover, units_want, spendable, off_delta);
    let off = row_offset(cover, units_want, spendable, off_delta, None);
    let bw = block_width_spec(r);
    let fixed = spend_fixed(payload, inv, spendable, off, units, pbase);
    let pos = positions_spec(off, units, cover);
    let bits = spend_range_bits(depth, pbase, spendable, off, units);
    let nodes = nodes_spec(r, payload, pbase, off, units, cover as nat);
    let blocks = blocks_spec(r, payload, pbase, off, units, cover as nat);
    lemma_nodes_len(r, payload, pbase, off, units, cover as nat);
    lemma_blocks_len(r, payload, pbase, off, units, cover as nat);
    let head = fixed + pos + bits + nodes;
    assert(head.len() == value_cols_spec(cover));
    assert(u == head + blocks);
    let start = value_cols_spec(cover) + q * bw;
    assert(q * bw + bw <= cover * bw) by (nonlinear_arith)
        requires
            0 <= q < cover,
            bw >= 0,
    ;
    assert(0 <= q * bw) by (nonlinear_arith)
        requires
            0 <= q,
            bw >= 0,
    ;
    assert forall|j: int| 0 <= j < bw implies #[trigger] u.subrange(start, start + bw)[j] == slot_block(
        r,
        payload,
        pbase,
        off,
        units,
        q,
    )[j] by {
        lemma_blocks_at(r, payload, pbase, off, units, cover as nat, q, j);
        assert(u[start + j] == blocks[q * bw + j]);
    }
    assert(u.subrange(start, start + bw) =~= slot_block(r, payload, pbase, off, units, q));
}

/// The honest row is as wide as the spend row's layout.
pub(crate) proof fn lemma_honest_row_len(
    r: int,
    depth: int,
    cover: int,
    payload: u64,
    inv: u64,
    units_want: Option<usize>,
    off_delta: int,
    pbase: int,
    spendable: int,
)
    requires
        honest_ok(r, depth, cover, payload, inv, units_want, off_delta, pbase, spendable),
    ensures
        spend_row_spec(r, depth, cover, payload, inv, units_want, off_delta, pbase, spendable, None).len()
            == spend_row_width(cover, block_width_spec(r)),
{
    let u = spend_row_spec(r, depth, cover, payload, inv, units_want, off_delta, pbase, spendable, None);
    let units = run_units(cover, units_want, spendable, off_delta);
    let off = row_offset(cover, units_want, spendable, off_delta, None);
    let fixed = spend_fixed(payload, inv, spendable, off, units, pbase);
    let pos = positions_spec(off, units, cover);
    let bits = spend_range_bits(depth, pbase, spendable, off, units);
    let nodes = nodes_spec(r, payload, pbase, off, units, cover as nat);
    let blocks = blocks_spec(r, payload, pbase, off, units, cover as nat);
    lemma_nodes_len(r, payload, pbase, off, units, cover as nat);
    lemma_blocks_len(r, payload, pbase, off, units, cover as nat);
    let head = fixed + pos + bits + nodes;
    assert(head.len() == value_cols_spec(cover));
    assert(u == head + blocks);
}

/// The permutation blocks hold.
proof fn lemma_hashes_hold(
    r: int,
    depth: int,
    cover: int,
    payload: u64,
    inv: u64,
    units_want: Option<usize>,
    off_delta: int,
    pbase: int,
    spendable: int,
    pv: Seq<u64>,
)
    requires
        honest_ok(r, depth, cover, payload, inv, units_want, off_delta, pbase, spendable),
    ensures
        all_hold(
            spend_hashes(r, cover, 0),
            r,
            spend_row_spec(r, depth, cover, payload, inv, units_want, off_delta, pbase, spendable, None),
            pv,
        ),
{
    let u = spend_row_spec(r, depth, cover, payload, inv, units_want, off_delta, pbase, spendable, None);
    let units = run_units(cover, units_want, spendable, off_delta);
    let off = row_offset(cover, units_want, spendable, off_delta, None);
    let bw = block_width_spec(r);
    let hs = spend_hashes(r, cover, 0);
    assert forall|q: int| 0 <= q < hs.len() implies #[trigger] step_holds(hs[q], r, u, pv) by {
        lemma_block_cells(r, depth, cover, payload, inv, units_want, off_delta, pbase, spendable, q);
        let start = value_cols_spec(cover) + q * bw;
        let sb = slot_block(r, payload, pbase, off, units, q);
        assert(sb.len() == bw && sb.subrange(0, WIDTH as int) == slot_input(payload, pbase, off, units, q));
        assert(u.subrange(start, start + WIDTH as int) =~= u.subrange(start, start + bw).subrange(0, WIDTH as int));
        assert(u.len() <= usize::MAX);
        assert(hash_block_holds(r, start, u));
    }
}

/// The share index is the public payload digest and is inverted by its
/// column; the range blocks hold the run's gaps; the first position is the
/// run's start; and the charged units are the active slots.
#[verifier::rlimit(50)]
proof fn lemma_fixed_steps_hold(
    r: int,
    depth: int,
    cover: int,
    payload: u64,
    inv: u64,
    units_want: Option<usize>,
    off_delta: int,
    pbase: int,
    spendable: int,
    pv: Seq<u64>,
)
    requires
        honest_ok(r, depth, cover, payload, inv, units_want, off_delta, pbase, spendable),
        pv.len() >= 1,
        pv[0] == payload,
    ensures
        ({
            let u = spend_row_spec(r, depth, cover, payload, inv, units_want, off_delta, pbase, spendable, None);
            let index = c(COL_INDEX as int);
            &&& all_hold(seq![Step::Eq(index, Expr::Pub(0)), Step::One(mul_e(index, c(COL_INDEX_INV as int)))], r, u, pv)
            &&& all_hold(range_blocks_spec(spend_gaps(depth as nat, 0), range_base_spec(cover)), r, u, pv)
            &&& all_hold(seq![Step::Eq(c(pos_base_spec()), c(COL_R as int))], r, u, pv)
            &&& all_hold(seq![Step::Eq(charged_expr(node_base_spec(cover), cover as nat), c(COL_UNITS as int))], r, u, pv)
        }),
{
    let u = spend_row_spec(r, depth, cover, payload, inv, units_want, off_delta, pbase, spendable, None);
    let units = run_units(cover, units_want, spendable, off_delta);
    let off = row_offset(cover, units_want, spendable, off_delta, None);
    let g = spend_gap_values(depth, pbase, spendable, off, units);
    lemma_spend_cells(r, depth, cover, payload, inv, units_want, off_delta, pbase, spendable, None);
    let p = P as int;
    vstd::arithmetic::power2::lemma2_to64();
    vstd::arithmetic::power2::lemma2_to64_rest();
    let m = pow2(RANGE_BITS as nat) as int;
    assert(0 <= off && off + units <= spendable);
    assert(0 <= units <= cover);
    vstd::arithmetic::div_mod::lemma_small_mod(off as nat, p as nat);
    vstd::arithmetic::div_mod::lemma_small_mod(units as nat, p as nat);
    vstd::arithmetic::div_mod::lemma_small_mod(spendable as nat, p as nat);
    vstd::arithmetic::div_mod::lemma_small_mod(pbase as nat, p as nat);
    reveal_with_fuel(eval, 3);
    // The index and its inverse.
    let index = c(COL_INDEX as int);
    let t1 = seq![Step::Eq(index, Expr::Pub(0)), Step::One(mul_e(index, c(COL_INDEX_INV as int)))];
    vstd::arithmetic::div_mod::lemma_fundamental_div_mod(payload * inv, p);
    let q = (payload * inv) / p;
    assert(payload * inv - 1 == p * q);
    vstd::arithmetic::div_mod::lemma_mod_multiples_basic(q, p);
    assert(step_holds(t1[0], r, u, pv));
    assert(step_holds(t1[1], r, u, pv));
    // The range blocks.
    let rb = range_base_spec(cover);
    let gaps = spend_gaps(depth as nat, 0);
    assert(rb + 4 * RANGE_BITS <= usize::MAX);
    assert(0 <= g[0] < m && 0 <= g[1] < m && 0 <= g[2] < m);
    vstd::arithmetic::div_mod::lemma_small_mod(g[0] as nat, m as nat);
    vstd::arithmetic::div_mod::lemma_small_mod(g[1] as nat, m as nat);
    vstd::arithmetic::div_mod::lemma_small_mod(g[2] as nat, m as nat);
    crate::spend_controls::lemma_pow_expr_eval(depth as nat, u, pv);
    assert(eval(gaps[0], u, pv) == g[0]);
    assert(eval(gaps[1], u, pv) == g[1]);
    assert(eval(gaps[2], u, pv) == g[2]);
    assert(eval(gaps[3], u, pv) == 0);
    lemma_range_block_holds(gaps[0], rb, u, pv, r, g[0]);
    lemma_range_block_holds(gaps[1], rb + RANGE_BITS, u, pv, r, g[1]);
    lemma_range_block_holds(gaps[2], rb + 2 * RANGE_BITS, u, pv, r, g[2]);
    lemma_range_block_holds(gaps[3], rb + 3 * RANGE_BITS, u, pv, r, 0);
    assert forall|k: int| 0 <= k < gaps.len() implies #[trigger] all_hold(
        range_block_spec(gaps[k], rb + k * RANGE_BITS),
        r,
        u,
        pv,
    ) by {
        if k == 0 {
        } else if k == 1 {
        } else if k == 2 {
        } else {
        }
    }
    lemma_range_blocks_hold(gaps, rb, r, u, pv);
    // The first position.
    let t2 = seq![Step::Eq(c(pos_base_spec()), c(COL_R as int))];
    assert(step_holds(t2[0], r, u, pv));
    // The charged units.
    let nb = node_base_spec(cover);
    assert forall|k: int| 0 <= k < cover implies #[trigger] u[nb + k * PER_NODE + NODE_ACTIVE] == if k < units {
        1u64
    } else {
        0u64
    } by {
        lemma_node_cells(r, depth, cover, payload, inv, units_want, off_delta, pbase, spendable, None, k, NODE_ACTIVE as int);
    }
    if cover > 0 {
        lemma_node_cells(r, depth, cover, payload, inv, units_want, off_delta, pbase, spendable, None, 0, 0);
    } else {
        assert(PER_NODE * cover == 0) by (nonlinear_arith)
            requires
                cover == 0,
        ;
    }
    let bw = block_width_spec(r);
    assert(cover * bw >= 0) by (nonlinear_arith)
        requires
            cover >= 0,
            bw >= 0,
    ;
    assert(nb + PER_NODE * cover <= usize::MAX);
    lemma_charged_eval(nb, cover as nat, units, u, pv);
    let t3 = seq![Step::Eq(charged_expr(nb, cover as nat), c(COL_UNITS as int))];
    assert(step_holds(t3[0], r, u, pv));
}

/// A sum reduced into [0, p) after its product was is the sum, in the field.
proof fn lemma_reduced_share(sv: int, o: int, pl: int)
    ensures
        (add_spec(sv, mul_spec(o, pl)) - (sv + o * pl)) % (P as int) == 0,
{
    let p = P as int;
    vstd::arithmetic::div_mod::lemma_fundamental_div_mod(o * pl, p);
    let t1 = (o * pl) % p;
    let q1 = (o * pl) / p;
    vstd::arithmetic::div_mod::lemma_fundamental_div_mod(sv + t1, p);
    let a = (sv + t1) % p;
    let q2 = (sv + t1) / p;
    assert(a - (sv + o * pl) == p * (-(q1 + q2))) by (nonlinear_arith)
        requires
            o * pl == p * q1 + t1,
            sv + t1 == p * q2 + a,
    ;
    vstd::arithmetic::div_mod::lemma_mod_multiples_basic(-(q1 + q2), p);
}

/// The first ten constraints of a slot, on its position and its block's
/// input, hold of the honest row.
#[verifier::spinoff_prover]
#[verifier::rlimit(80)]
proof fn lemma_slot_inputs_hold(
    r: int,
    depth: int,
    cover: int,
    payload: u64,
    inv: u64,
    units_want: Option<usize>,
    off_delta: int,
    pbase: int,
    spendable: int,
    q: int,
    pv: Seq<u64>,
)
    requires
        honest_ok(r, depth, cover, payload, inv, units_want, off_delta, pbase, spendable),
        0 <= q < cover,
    ensures
        forall|i: int|
            0 <= i < 10 ==> #[trigger] step_holds(
                slot_steps(r, cover, 0, q, false)[i],
                r,
                spend_row_spec(r, depth, cover, payload, inv, units_want, off_delta, pbase, spendable, None),
                pv,
            ),
{
    let u = spend_row_spec(r, depth, cover, payload, inv, units_want, off_delta, pbase, spendable, None);
    let units = run_units(cover, units_want, spendable, off_delta);
    let off = row_offset(cover, units_want, spendable, off_delta, None);
    let bw = block_width_spec(r);
    lemma_spend_cells(r, depth, cover, payload, inv, units_want, off_delta, pbase, spendable, None);
    lemma_block_cells(r, depth, cover, payload, inv, units_want, off_delta, pbase, spendable, q);
    lemma_node_cells(r, depth, cover, payload, inv, units_want, off_delta, pbase, spendable, None, q, 0);
    lemma_node_cells(r, depth, cover, payload, inv, units_want, off_delta, pbase, spendable, None, q, 1);
    lemma_node_cells(r, depth, cover, payload, inv, units_want, off_delta, pbase, spendable, None, q, 2);
    lemma_node_cells(r, depth, cover, payload, inv, units_want, off_delta, pbase, spendable, None, q, 3);
    lemma_node_cells(r, depth, cover, payload, inv, units_want, off_delta, pbase, spendable, None, q, 4);
    lemma_node_cells(r, depth, cover, payload, inv, units_want, off_delta, pbase, spendable, None, q, 5);
    let p = P as int;
    assert(0 <= off && off + units <= spendable);
    assert(0 <= units <= cover);
    let n = node_base_spec(cover) + q * PER_NODE;
    let blk = value_cols_spec(cover) + q * bw;
    let oo = bw - WIDTH;
    let sb = slot_block(r, payload, pbase, off, units, q);
    let input = slot_input(payload, pbase, off, units, q);
    assert(sb.len() == bw && sb.subrange(0, WIDTH as int) == input);
    let node = slot_node(r, payload, pbase, off, units, q);
    let out = perm_out(sb);
    assert forall|i: int| 0 <= i < bw implies #[trigger] u[blk + i] == sb[i] by {
        assert(u.subrange(blk, blk + bw)[i] == u[blk + i]);
    }
    assert forall|i: int| 0 <= i < WIDTH implies #[trigger] u[blk + i] == input[i] by {
        assert(u[blk + i] == sb[i]);
        assert(sb.subrange(0, WIDTH as int)[i] == sb[i]);
    }
    assert forall|i: int| 0 <= i < 3 implies #[trigger] u[blk + oo + i] == out[i] by {
        assert(u[blk + oo + i] == sb[oo + i]);
    }
    let a: int = if q < units { 1 } else { 0 };
    let sp_q = slot_pos(off, units, q);
    let sp_n = slot_pos(off, units, q + 1);
    assert(sp_n == sp_q + a);
    assert(sp_n <= off + units);
    vstd::arithmetic::div_mod::lemma_small_mod(sp_q as nat, p as nat);
    vstd::arithmetic::div_mod::lemma_small_mod(sp_n as nat, p as nat);
    vstd::arithmetic::div_mod::lemma_small_mod(pbase as nat, p as nat);
    vstd::arithmetic::div_mod::lemma_small_mod((pbase + sp_q) as nat, p as nat);
    vstd::arithmetic::div_mod::lemma_small_mod((q + 1) as nat, p as nat);
    assert(u[FIXED_COLS + q] == sp_q);
    assert(u[FIXED_COLS + q + 1] == sp_n);
    assert(u[n + NODE_ACTIVE] == a);
    let st = slot_steps(r, cover, 0, q, false);
    assert(n + PER_NODE <= blk);
    assert(blk + bw <= usize::MAX);
    reveal_with_fuel(eval, 5);
    let act = c(n + NODE_ACTIVE);
    assert(eval(act, u, pv) == a);
    assert(a * (a - 1) == 0) by (nonlinear_arith)
        requires
            a == 0 || a == 1,
    ;
    let x = u[COL_BASE as int] + u[FIXED_COLS + q];
    assert(x == pbase + sp_q);
    let e4 = eval(add_e(mul_e(act, add_e(c(COL_BASE as int), c(pos_base_spec() + q))), mul_e(sub_e(Expr::Const(1), act), c(COL_INDEX as int))), u, pv);
    assert(e4 == a * x + (1 - a) * payload);
    let e5 = eval(add_e(mul_e(act, Expr::Const(DOMAIN_KEY)), mul_e(sub_e(Expr::Const(1), act), Expr::Const(DOMAIN_PAD))), u, pv);
    assert(e5 == a * DOMAIN_KEY + (1 - a) * DOMAIN_PAD);
    if q < units {
        assert(a * x + (1 - a) * payload == x && a * DOMAIN_KEY + (1 - a) * DOMAIN_PAD == DOMAIN_KEY) by (nonlinear_arith)
            requires
                a == 1,
        ;
        assert(input[2] == pbase + sp_q);
    } else {
        assert(a * x + (1 - a) * payload == payload && a * DOMAIN_KEY + (1 - a) * DOMAIN_PAD == DOMAIN_PAD) by (nonlinear_arith)
            requires
                a == 0,
        ;
    }
    assert(step_holds(st[0], r, u, pv));
    assert(step_holds(st[1], r, u, pv));
    assert(step_holds(st[2], r, u, pv));
    assert(step_holds(st[3], r, u, pv));
    assert(step_holds(st[4], r, u, pv));
    assert(step_holds(st[5], r, u, pv));
    let e6 = eval(mul_e(sub_e(Expr::Const(1), act), Expr::Const((q + 1) as u64)), u, pv);
    assert(e6 == (1 - a) * (q + 1));
    if q < units {
        assert((1 - a) * (q + 1) == 0) by (nonlinear_arith)
            requires
                a == 1,
        ;
    } else {
        assert((1 - a) * (q + 1) == q + 1) by (nonlinear_arith)
            requires
                a == 0,
        ;
    }
    assert(step_holds(st[6], r, u, pv));
    assert(step_holds(st[7], r, u, pv));
    assert(step_holds(st[8], r, u, pv));
    assert(step_holds(st[9], r, u, pv));
    assert(st.len() == 15);
    assert forall|i: int| 0 <= i < 10 implies #[trigger] step_holds(st[i], r, u, pv) by {
        if i == 0 {} else if i == 1 {} else if i == 2 {} else if i == 3 {} else if i == 4 {} else if i == 5 {} else if i == 6 {} else if i == 7 {} else if i == 8 {} else {}
    }
}

/// The last five constraints of a slot, on its key, shares and nullifier,
/// hold of the honest row.
#[verifier::spinoff_prover]
#[verifier::rlimit(80)]
proof fn lemma_slot_outputs_hold(
    r: int,
    depth: int,
    cover: int,
    payload: u64,
    inv: u64,
    units_want: Option<usize>,
    off_delta: int,
    pbase: int,
    spendable: int,
    q: int,
    pv: Seq<u64>,
)
    requires
        honest_ok(r, depth, cover, payload, inv, units_want, off_delta, pbase, spendable),
        0 <= q < cover,
    ensures
        forall|i: int|
            10 <= i < 15 ==> #[trigger] step_holds(
                slot_steps(r, cover, 0, q, false)[i],
                r,
                spend_row_spec(r, depth, cover, payload, inv, units_want, off_delta, pbase, spendable, None),
                pv,
            ),
{
    let u = spend_row_spec(r, depth, cover, payload, inv, units_want, off_delta, pbase, spendable, None);
    let units = run_units(cover, units_want, spendable, off_delta);
    let off = row_offset(cover, units_want, spendable, off_delta, None);
    let bw = block_width_spec(r);
    lemma_spend_cells(r, depth, cover, payload, inv, units_want, off_delta, pbase, spendable, None);
    lemma_block_cells(r, depth, cover, payload, inv, units_want, off_delta, pbase, spendable, q);
    lemma_node_cells(r, depth, cover, payload, inv, units_want, off_delta, pbase, spendable, None, q, 0);
    lemma_node_cells(r, depth, cover, payload, inv, units_want, off_delta, pbase, spendable, None, q, 1);
    lemma_node_cells(r, depth, cover, payload, inv, units_want, off_delta, pbase, spendable, None, q, 2);
    lemma_node_cells(r, depth, cover, payload, inv, units_want, off_delta, pbase, spendable, None, q, 3);
    lemma_node_cells(r, depth, cover, payload, inv, units_want, off_delta, pbase, spendable, None, q, 4);
    lemma_node_cells(r, depth, cover, payload, inv, units_want, off_delta, pbase, spendable, None, q, 5);
    let p = P as int;
    assert(0 <= off && off + units <= spendable);
    assert(0 <= units <= cover);
    let n = node_base_spec(cover) + q * PER_NODE;
    let blk = value_cols_spec(cover) + q * bw;
    let oo = bw - WIDTH;
    let sb = slot_block(r, payload, pbase, off, units, q);
    let input = slot_input(payload, pbase, off, units, q);
    assert(sb.len() == bw && sb.subrange(0, WIDTH as int) == input);
    let node = slot_node(r, payload, pbase, off, units, q);
    let out = perm_out(sb);
    assert forall|i: int| 0 <= i < bw implies #[trigger] u[blk + i] == sb[i] by {
        assert(u.subrange(blk, blk + bw)[i] == u[blk + i]);
    }
    assert forall|i: int| 0 <= i < WIDTH implies #[trigger] u[blk + i] == input[i] by {
        assert(u[blk + i] == sb[i]);
        assert(sb.subrange(0, WIDTH as int)[i] == sb[i]);
    }
    assert forall|i: int| 0 <= i < 3 implies #[trigger] u[blk + oo + i] == out[i] by {
        assert(u[blk + oo + i] == sb[oo + i]);
    }
    let a: int = if q < units { 1 } else { 0 };
    let sp_q = slot_pos(off, units, q);
    let sp_n = slot_pos(off, units, q + 1);
    assert(sp_n == sp_q + a);
    assert(sp_n <= off + units);
    vstd::arithmetic::div_mod::lemma_small_mod(sp_q as nat, p as nat);
    vstd::arithmetic::div_mod::lemma_small_mod(sp_n as nat, p as nat);
    vstd::arithmetic::div_mod::lemma_small_mod(pbase as nat, p as nat);
    vstd::arithmetic::div_mod::lemma_small_mod((pbase + sp_q) as nat, p as nat);
    vstd::arithmetic::div_mod::lemma_small_mod((q + 1) as nat, p as nat);
    assert(u[FIXED_COLS + q] == sp_q);
    assert(u[FIXED_COLS + q + 1] == sp_n);
    assert(u[n + NODE_ACTIVE] == a);
    let st = slot_steps(r, cover, 0, q, false);
    assert(n + PER_NODE <= blk);
    assert(blk + bw <= usize::MAX);
    reveal_with_fuel(eval, 5);
    lemma_reduced_share(SECRET[0] as int, out[0] as int, payload as int);
    lemma_reduced_share(SECRET[1] as int, out[1] as int, payload as int);
    assert(step_holds(st[10], r, u, pv));
    assert(step_holds(st[11], r, u, pv));
    assert(step_holds(st[12], r, u, pv));
    assert(step_holds(st[13], r, u, pv));
    assert(step_holds(st[14], r, u, pv));
    assert(st.len() == 15);
    assert forall|i: int| 10 <= i < 15 implies #[trigger] step_holds(st[i], r, u, pv) by {
        if i == 10 {} else if i == 11 {} else if i == 12 {} else if i == 13 {} else {}
    }
}

/// Every constraint of one slot holds of the honest row.
proof fn lemma_slot_holds_honest(
    r: int,
    depth: int,
    cover: int,
    payload: u64,
    inv: u64,
    units_want: Option<usize>,
    off_delta: int,
    pbase: int,
    spendable: int,
    q: int,
    pv: Seq<u64>,
)
    requires
        honest_ok(r, depth, cover, payload, inv, units_want, off_delta, pbase, spendable),
        0 <= q < cover,
    ensures
        all_hold(
            slot_steps(r, cover, 0, q, false),
            r,
            spend_row_spec(r, depth, cover, payload, inv, units_want, off_delta, pbase, spendable, None),
            pv,
        ),
{
    lemma_slot_inputs_hold(r, depth, cover, payload, inv, units_want, off_delta, pbase, spendable, q, pv);
    lemma_slot_outputs_hold(r, depth, cover, payload, inv, units_want, off_delta, pbase, spendable, q, pv);
    let st = slot_steps(r, cover, 0, q, false);
    let u = spend_row_spec(r, depth, cover, payload, inv, units_want, off_delta, pbase, spendable, None);
    assert(st.len() == 15);
    assert forall|i: int| 0 <= i < st.len() implies #[trigger] step_holds(st[i], r, u, pv) by {
        if i < 10 {
        } else {
        }
    }
}

proof fn lemma_slots_hold_honest(
    r: int,
    depth: int,
    cover: int,
    payload: u64,
    inv: u64,
    units_want: Option<usize>,
    off_delta: int,
    pbase: int,
    spendable: int,
    k: int,
    pv: Seq<u64>,
)
    requires
        honest_ok(r, depth, cover, payload, inv, units_want, off_delta, pbase, spendable),
        0 <= k <= cover,
    ensures
        all_hold(
            slots_spec(r, cover, 0, k, false),
            r,
            spend_row_spec(r, depth, cover, payload, inv, units_want, off_delta, pbase, spendable, None),
            pv,
        ),
    decreases k,
{
    let u = spend_row_spec(r, depth, cover, payload, inv, units_want, off_delta, pbase, spendable, None);
    if k > 0 {
        lemma_slots_hold_honest(r, depth, cover, payload, inv, units_want, off_delta, pbase, spendable, k - 1, pv);
        lemma_slot_holds_honest(r, depth, cover, payload, inv, units_want, off_delta, pbase, spendable, k - 1, pv);
        lemma_all_hold_concat(slots_spec(r, cover, 0, k - 1, false), slot_steps(r, cover, 0, k - 1, false), r, u, pv);
    }
}

/// The honest spend row satisfies every constraint of the spend circuit,
/// with the nullifier checked inside it, against the payload digest as the
/// public value: for a row `spend_row_ok` accepts whose index space lies
/// below p, whose gaps lie below 2^RANGE_BITS, whose inverse column inverts
/// the payload digest, and whose slot blocks are the generator's rows.
pub proof fn lemma_honest_spend_row_satisfies(
    r: int,
    depth: int,
    cover: int,
    payload: u64,
    inv: u64,
    units_want: Option<usize>,
    off_delta: int,
    pbase: int,
    spendable: int,
    pv: Seq<u64>,
)
    requires
        honest_ok(r, depth, cover, payload, inv, units_want, off_delta, pbase, spendable),
        pv.len() >= 1,
        pv[0] == payload,
    ensures
        all_hold(
            spend_steps(r, depth as nat, cover, 0, false),
            r,
            spend_row_spec(r, depth, cover, payload, inv, units_want, off_delta, pbase, spendable, None),
            pv,
        ),
{
    let u = spend_row_spec(r, depth, cover, payload, inv, units_want, off_delta, pbase, spendable, None);
    lemma_hashes_hold(r, depth, cover, payload, inv, units_want, off_delta, pbase, spendable, pv);
    lemma_fixed_steps_hold(r, depth, cover, payload, inv, units_want, off_delta, pbase, spendable, pv);
    lemma_slots_hold_honest(r, depth, cover, payload, inv, units_want, off_delta, pbase, spendable, cover, pv);
    let index = c(COL_INDEX as int);
    let h = spend_hashes(r, cover, 0);
    let two = seq![Step::Eq(index, Expr::Pub(0)), Step::One(mul_e(index, c(COL_INDEX_INV as int)))];
    let rbs = range_blocks_spec(spend_gaps(depth as nat, 0), range_base_spec(cover));
    let ps = seq![Step::Eq(c(pos_base_spec()), c(COL_R as int))];
    let sl = slots_spec(r, cover, 0, cover, false);
    let tl = seq![Step::Eq(charged_expr(node_base_spec(cover), cover as nat), c(COL_UNITS as int))];
    assert(spend_steps(r, depth as nat, cover, 0, false) =~= h + two + rbs + ps + sl + tl);
    lemma_all_hold_concat(h, two, r, u, pv);
    lemma_all_hold_concat(h + two, rbs, r, u, pv);
    lemma_all_hold_concat(h + two + rbs, ps, r, u, pv);
    lemma_all_hold_concat(h + two + rbs + ps, sl, r, u, pv);
    lemma_all_hold_concat(h + two + rbs + ps + sl, tl, r, u, pv);
}

proof fn lemma_slot_holds_honest_ext(
    r: int,
    depth: int,
    cover: int,
    payload: u64,
    inv: u64,
    units_want: Option<usize>,
    off_delta: int,
    pbase: int,
    spendable: int,
    q: int,
    pv: Seq<u64>,
)
    requires
        honest_ok(r, depth, cover, payload, inv, units_want, off_delta, pbase, spendable),
        0 <= q < cover,
    ensures
        all_hold(
            slot_steps(r, cover, 0, q, true),
            r,
            spend_row_spec(r, depth, cover, payload, inv, units_want, off_delta, pbase, spendable, None),
            pv,
        ),
{
    lemma_slot_holds_honest(r, depth, cover, payload, inv, units_want, off_delta, pbase, spendable, q, pv);
    let a = slot_steps(r, cover, 0, q, true);
    let b = slot_steps(r, cover, 0, q, false);
    let u = spend_row_spec(r, depth, cover, payload, inv, units_want, off_delta, pbase, spendable, None);
    assert forall|i: int| 0 <= i < a.len() implies #[trigger] step_holds(a[i], r, u, pv) by {
        assert(a[i] == b[i]);
    }
}

proof fn lemma_slots_hold_honest_ext(
    r: int,
    depth: int,
    cover: int,
    payload: u64,
    inv: u64,
    units_want: Option<usize>,
    off_delta: int,
    pbase: int,
    spendable: int,
    k: int,
    pv: Seq<u64>,
)
    requires
        honest_ok(r, depth, cover, payload, inv, units_want, off_delta, pbase, spendable),
        0 <= k <= cover,
    ensures
        all_hold(
            slots_spec(r, cover, 0, k, true),
            r,
            spend_row_spec(r, depth, cover, payload, inv, units_want, off_delta, pbase, spendable, None),
            pv,
        ),
    decreases k,
{
    let u = spend_row_spec(r, depth, cover, payload, inv, units_want, off_delta, pbase, spendable, None);
    if k > 0 {
        lemma_slots_hold_honest_ext(r, depth, cover, payload, inv, units_want, off_delta, pbase, spendable, k - 1, pv);
        lemma_slot_holds_honest_ext(r, depth, cover, payload, inv, units_want, off_delta, pbase, spendable, k - 1, pv);
        lemma_all_hold_concat(slots_spec(r, cover, 0, k - 1, true), slot_steps(r, cover, 0, k - 1, true), r, u, pv);
    }
}

/// The honest spend row also satisfies the spend circuit with the
/// nullifier checked outside it.
pub proof fn lemma_honest_spend_row_satisfies_external(
    r: int,
    depth: int,
    cover: int,
    payload: u64,
    inv: u64,
    units_want: Option<usize>,
    off_delta: int,
    pbase: int,
    spendable: int,
    pv: Seq<u64>,
)
    requires
        honest_ok(r, depth, cover, payload, inv, units_want, off_delta, pbase, spendable),
        pv.len() >= 1,
        pv[0] == payload,
    ensures
        all_hold(
            spend_steps(r, depth as nat, cover, 0, true),
            r,
            spend_row_spec(r, depth, cover, payload, inv, units_want, off_delta, pbase, spendable, None),
            pv,
        ),
{
    let u = spend_row_spec(r, depth, cover, payload, inv, units_want, off_delta, pbase, spendable, None);
    lemma_hashes_hold(r, depth, cover, payload, inv, units_want, off_delta, pbase, spendable, pv);
    lemma_fixed_steps_hold(r, depth, cover, payload, inv, units_want, off_delta, pbase, spendable, pv);
    lemma_slots_hold_honest_ext(r, depth, cover, payload, inv, units_want, off_delta, pbase, spendable, cover, pv);
    let index = c(COL_INDEX as int);
    let h = spend_hashes(r, cover, 0);
    let two = seq![Step::Eq(index, Expr::Pub(0)), Step::One(mul_e(index, c(COL_INDEX_INV as int)))];
    let rbs = range_blocks_spec(spend_gaps(depth as nat, 0), range_base_spec(cover));
    let ps = seq![Step::Eq(c(pos_base_spec()), c(COL_R as int))];
    let sl = slots_spec(r, cover, 0, cover, true);
    let tl = seq![Step::Eq(charged_expr(node_base_spec(cover), cover as nat), c(COL_UNITS as int))];
    assert(spend_steps(r, depth as nat, cover, 0, true) =~= h + two + rbs + ps + sl + tl);
    lemma_all_hold_concat(h, two, r, u, pv);
    lemma_all_hold_concat(h + two, rbs, r, u, pv);
    lemma_all_hold_concat(h + two + rbs, ps, r, u, pv);
    lemma_all_hold_concat(h + two + rbs + ps, sl, r, u, pv);
    lemma_all_hold_concat(h + two + rbs + ps + sl, tl, r, u, pv);
}

} // verus!
