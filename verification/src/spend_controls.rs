//! Why each negative control of the spend trace makes its row fail the spend
//! circuit. Each control changes one cell, or a few, of the honest row; the
//! constraint that reads the changed cell, checked against cells the control
//! leaves alone, no longer holds.
use crate::air::{bit, lemma_bits_weighted, lemma_range_blocks_fail, lemma_recompose_eval, range_block_spec, recompose_spec, weighted, RANGE_BITS};
use crate::expr::{eval, lemma_some_fails_concat, some_fails, step_holds, Expr, Step};
use crate::field::{add_spec, mul_spec, sub_spec, P};
use crate::spend::{
    node_base_spec, pos_base_spec, range_base_spec, slot_steps, spend_gaps, spend_hashes, spend_steps, slots_spec,
    charged_expr, c, value_cols_spec, COL_INDEX, COL_M, COL_R, COL_SECRET, COL_SELF, COL_UNITS, FIXED_COLS,
    NODE_ACTIVE, NODE_KEY, NODE_NULL, NODE_SHARE, PER_NODE, SECRET_ELEMS, COL_ROOT_KEY,
};
use crate::gen::perm_out;
use crate::hash::WIDTH;
use crate::spend_trace::{
    blocks_spec, fe, nodes_spec, positions_spec, slot_block, row_offset, run_units, slot_node, slot_pos, spend_fixed, spend_gap_values,
    spend_range_bits, spend_row_ok, spend_row_spec, spend_row_width, spend_unbroken_row, SpendBreak, SECRET, ROOT_KEY,
};
use crate::table::raise;
use vstd::arithmetic::power2::pow2;
use vstd::prelude::*;

verus! {

/// The cells of the honest row the controls below touch or are checked
/// against: the holding, the self-region, the run's start and length, the
/// first position, and the second and fourth range blocks.
pub proof fn lemma_spend_cells(
    r: int,
    depth: int,
    cover: int,
    payload: u64,
    inv: u64,
    units_want: Option<usize>,
    off_delta: int,
    pbase: int,
    spendable: int,
    how: Option<SpendBreak>,
)
    requires
        spend_row_ok(r, depth, cover, payload, units_want, off_delta, pbase, spendable, how),
        0 <= cover,
    ensures
        ({
            let u = spend_unbroken_row(r, depth, cover, payload, inv, units_want, off_delta, pbase, spendable, how);
            let units = run_units(cover, units_want, spendable, off_delta);
            let off = row_offset(cover, units_want, spendable, off_delta, how);
            let g = spend_gap_values(depth, pbase, spendable, off, units);
            let rb = range_base_spec(cover);
            &&& u.len() >= rb + 4 * RANGE_BITS
            &&& u[COL_M as int] == fe(spendable)
            &&& u[COL_SELF as int] == fe(spendable)
            &&& u[COL_R as int] == fe(off)
            &&& u[COL_UNITS as int] == fe(units)
            &&& u[FIXED_COLS as int] == fe(off)
            &&& u[COL_SECRET as int] == SECRET[0]
            &&& u[COL_INDEX as int] == payload
            &&& forall|q: int| 0 <= q <= cover ==> #[trigger] u[FIXED_COLS + q] == fe(slot_pos(off, units, q))
            &&& forall|k: int| 0 <= k < RANGE_BITS ==> u[rb + RANGE_BITS + k] == #[trigger] bit(
                g[1] % (pow2(RANGE_BITS as nat) as int),
                k as nat,
            )
            &&& forall|k: int| 0 <= k < RANGE_BITS ==> u[rb + 3 * RANGE_BITS + k] == #[trigger] bit(
                0,
                k as nat,
            )
            &&& forall|k: int| 0 <= k < RANGE_BITS ==> u[rb + 2 * RANGE_BITS + k] == #[trigger] bit(
                g[2] % (pow2(RANGE_BITS as nat) as int),
                k as nat,
            )
            &&& u[crate::spend::COL_BASE as int] == fe(pbase)
            &&& u[crate::spend::COL_INDEX_INV as int] == inv
            &&& u[COL_ROOT_KEY as int] == ROOT_KEY[0]
            &&& u[COL_ROOT_KEY + 1] == ROOT_KEY[1]
            &&& u[COL_SECRET + 1] == SECRET[1]
            &&& forall|k: int| 0 <= k < RANGE_BITS ==> u[rb + k] == #[trigger] bit(
                g[0] % (pow2(RANGE_BITS as nat) as int),
                k as nat,
            )
        }),
{
    let u = spend_unbroken_row(r, depth, cover, payload, inv, units_want, off_delta, pbase, spendable, how);
    let units = run_units(cover, units_want, spendable, off_delta);
    let off = row_offset(cover, units_want, spendable, off_delta, how);
    let g = spend_gap_values(depth, pbase, spendable, off, units);
    let m = pow2(RANGE_BITS as nat) as int;
    let fixed = spend_fixed(payload, inv, spendable, off, units, pbase);
    let pos = positions_spec(off, units, cover);
    let bits = spend_range_bits(depth, pbase, spendable, off, units);
    let rb = range_base_spec(cover);
    assert(fixed.len() == FIXED_COLS);
    assert(pos.len() == cover + 1);
    assert(bits.len() == 4 * RANGE_BITS);
    assert(rb == FIXED_COLS + cover + 1);
    let head = fixed + pos + bits;
    assert(u.subrange(0, head.len() as int) =~= head);
    assert(u[FIXED_COLS as int] == head[FIXED_COLS as int]);
    assert(pos[0] == fe(off));
    assert(u.len() >= head.len());
    assert(head.len() == rb + 4 * RANGE_BITS);
    assert(u[COL_M as int] == head[COL_M as int]);
    assert(u[COL_SELF as int] == head[COL_SELF as int]);
    assert(u[COL_R as int] == head[COL_R as int]);
    assert(u[COL_UNITS as int] == head[COL_UNITS as int]);
    assert(u[COL_M as int] == fe(spendable));
    assert(u[COL_SELF as int] == fe(spendable));
    assert(u[COL_R as int] == fe(off));
    assert(u[COL_UNITS as int] == fe(units));
    assert(u[COL_SECRET as int] == head[COL_SECRET as int]);
    assert(u[COL_INDEX as int] == head[COL_INDEX as int]);
    assert forall|q: int| 0 <= q <= cover implies #[trigger] u[FIXED_COLS + q] == fe(slot_pos(off, units, q)) by {
        assert(u[FIXED_COLS + q] == head[FIXED_COLS + q]);
        assert(head[FIXED_COLS + q] == pos[q]);
    }
    assert forall|k: int| 0 <= k < RANGE_BITS implies u[rb + RANGE_BITS + k] == #[trigger] bit(
        g[1] % m,
        k as nat,
    ) by {
        assert(u[rb + RANGE_BITS + k] == head[rb + RANGE_BITS + k]);
        assert(head[rb + RANGE_BITS + k] == bits[RANGE_BITS + k]);
    }
    assert(u[crate::spend::COL_BASE as int] == head[crate::spend::COL_BASE as int]);
    assert(u[crate::spend::COL_INDEX_INV as int] == head[crate::spend::COL_INDEX_INV as int]);
    assert(u[COL_ROOT_KEY as int] == head[COL_ROOT_KEY as int]);
    assert(u[COL_ROOT_KEY + 1] == head[COL_ROOT_KEY + 1]);
    assert(u[COL_SECRET + 1] == head[COL_SECRET + 1]);
    assert forall|k: int| 0 <= k < RANGE_BITS implies u[rb + k] == #[trigger] bit(g[0] % m, k as nat) by {
        assert(u[rb + k] == head[rb + k]);
        assert(head[rb + k] == bits[k]);
    }
    assert forall|k: int| 0 <= k < RANGE_BITS implies u[rb + 2 * RANGE_BITS + k] == #[trigger] bit(
        g[2] % m,
        k as nat,
    ) by {
        assert(u[rb + 2 * RANGE_BITS + k] == head[rb + 2 * RANGE_BITS + k]);
        assert(head[rb + 2 * RANGE_BITS + k] == bits[2 * RANGE_BITS + k]);
    }
    assert forall|k: int| 0 <= k < RANGE_BITS implies u[rb + 3 * RANGE_BITS + k] == #[trigger] bit(0, k as nat) by {
        assert(u[rb + 3 * RANGE_BITS + k] == head[rb + 3 * RANGE_BITS + k]);
        assert(head[rb + 3 * RANGE_BITS + k] == bits[3 * RANGE_BITS + k]);
        vstd::arithmetic::power2::lemma_pow2_pos(k as nat);
        vstd::arithmetic::div_mod::lemma_div_basics(pow2(k as nat) as int);
    }
}

/// A range check fails on a row whose block holds the bits of `v` while its
/// gap differs from `v` in the field.
proof fn lemma_block_fails_off(gap: Expr, start: int, row: Seq<u64>, pv: Seq<u64>, r: int, v: int)
    requires
        0 <= v < pow2(RANGE_BITS as nat),
        0 <= start,
        start + RANGE_BITS <= row.len(),
        start + RANGE_BITS <= usize::MAX,
        forall|k: int| 0 <= k < RANGE_BITS ==> row[start + k] == #[trigger] bit(v, k as nat),
        (eval(gap, row, pv) - v) % (P as int) != 0,
    ensures
        some_fails(range_block_spec(gap, start), r, row, pv),
{
    lemma_recompose_eval(row, pv, start, RANGE_BITS as int, 0);
    lemma_bits_weighted(row, start, v, 0, RANGE_BITS as int);
    vstd::arithmetic::power2::lemma2_to64();
    vstd::arithmetic::div_mod::lemma_small_mod(v as nat, pow2(RANGE_BITS as nat));
    vstd::arithmetic::div_mod::lemma_div_basics(v);
    assert(v / (pow2(0) as int) == v);
    let steps = range_block_spec(gap, start);
    assert(steps[RANGE_BITS as int] == Step::Eq(gap, recompose_spec(start)));
    assert(eval(recompose_spec(start), row, pv) == v);
    assert(!step_holds(steps[RANGE_BITS as int], r, row, pv));
}

/// A failing step anywhere in the spend constraints fails the whole list.
proof fn lemma_spend_parts_fail(r: int, depth: nat, cover: int, row: Seq<u64>, pv: Seq<u64>, which: int)
    requires
        0 <= which < 4,
        which == 0 ==> some_fails(
            crate::air::range_blocks_spec(spend_gaps(depth, 0), range_base_spec(cover)),
            r,
            row,
            pv,
        ),
        which == 1 ==> some_fails(seq![Step::Eq(c(pos_base_spec()), c(COL_R as int))], r, row, pv),
        which == 2 ==> some_fails(slots_spec(r, cover, 0, cover, false), r, row, pv),
        which == 3 ==> some_fails(
            seq![Step::Eq(charged_expr(crate::spend::node_base_spec(cover), cover as nat), c(COL_UNITS as int))],
            r,
            row,
            pv,
        ),
    ensures
        some_fails(spend_steps(r, depth, cover, 0, false), r, row, pv),
{
    let index = c(crate::spend::COL_INDEX as int);
    let h = spend_hashes(r, cover, 0);
    let two = seq![Step::Eq(index, Expr::Pub(0)), Step::One(crate::spend::mul_e(index, c(crate::spend::COL_INDEX_INV as int)))];
    let rbs = crate::air::range_blocks_spec(spend_gaps(depth, 0), range_base_spec(cover));
    let ps = seq![Step::Eq(c(pos_base_spec()), c(COL_R as int))];
    let sl = slots_spec(r, cover, 0, cover, false);
    let tl = seq![Step::Eq(charged_expr(crate::spend::node_base_spec(cover), cover as nat), c(COL_UNITS as int))];
    assert(spend_steps(r, depth, cover, 0, false) =~= h + two + rbs + ps + sl + tl);
    if which == 0 {
        lemma_some_fails_concat(h + two, rbs, r, row, pv);
        lemma_some_fails_concat(h + two + rbs, ps, r, row, pv);
        lemma_some_fails_concat(h + two + rbs + ps, sl, r, row, pv);
    } else if which == 1 {
        lemma_some_fails_concat(h + two + rbs, ps, r, row, pv);
        lemma_some_fails_concat(h + two + rbs + ps, sl, r, row, pv);
    } else if which == 2 {
        lemma_some_fails_concat(h + two + rbs + ps, sl, r, row, pv);
    }
    lemma_some_fails_concat(h + two + rbs + ps + sl, tl, r, row, pv);
}

/// The parameters of a row the controls below are stated for: a row
/// `spend_row_ok` accepts, whose holding and run lie below p.
pub open spec fn control_ok(
    r: int,
    depth: int,
    cover: int,
    payload: u64,
    units_want: Option<usize>,
    off_delta: int,
    pbase: int,
    spendable: int,
    how: SpendBreak,
) -> bool {
    &&& spend_row_ok(r, depth, cover, payload, units_want, off_delta, pbase, spendable, Some(how))
    &&& 0 <= pbase
    &&& 0 <= depth
    &&& 0 <= cover
    &&& 0 <= off_delta
    &&& 0 <= spendable
    &&& spendable + 2 < P
}

/// Shrinking or growing the self-region, or raising the holding, breaks the
/// fourth range check: its block holds zero while its gap, the holding less
/// the self-region, is one or minus one.
proof fn lemma_self_controls_fail(
    r: int,
    depth: int,
    cover: int,
    payload: u64,
    inv: u64,
    units_want: Option<usize>,
    off_delta: int,
    pbase: int,
    spendable: int,
    how: SpendBreak,
    pv: Seq<u64>,
)
    requires
        control_ok(r, depth, cover, payload, units_want, off_delta, pbase, spendable, how),
        how is SelfPastHolding || how is RunPastSelf || how is Modulus,
    ensures
        some_fails(
            spend_steps(r, depth as nat, cover, 0, false),
            r,
            spend_row_spec(r, depth, cover, payload, inv, units_want, off_delta, pbase, spendable, Some(how)),
            pv,
        ),
{
    let u = spend_unbroken_row(r, depth, cover, payload, inv, units_want, off_delta, pbase, spendable, Some(how));
    let row = spend_row_spec(r, depth, cover, payload, inv, units_want, off_delta, pbase, spendable, Some(how));
    lemma_spend_cells(r, depth, cover, payload, inv, units_want, off_delta, pbase, spendable, Some(how));
    let rb = range_base_spec(cover);
    let gaps = spend_gaps(depth as nat, 0);
    let p = P as int;
    assert(row.len() == u.len());
    assert forall|k: int| 0 <= k < RANGE_BITS implies row[rb + 3 * RANGE_BITS + k] == #[trigger] bit(
        0,
        k as nat,
    ) by {
        assert(row[rb + 3 * RANGE_BITS + k] == u[rb + 3 * RANGE_BITS + k]);
    }
    let sp = spendable;
    assert(sp >= 2);
    vstd::arithmetic::div_mod::lemma_small_mod(sp as nat, p as nat);
    vstd::arithmetic::div_mod::lemma_small_mod((sp + 1) as nat, p as nat);
    vstd::arithmetic::div_mod::lemma_small_mod((sp - 1) as nat, p as nat);
    assert(fe(sp) == sp);
    reveal_with_fuel(eval, 3);
    assert(gaps[3] == crate::spend::sub_e(c(COL_M as int), c(COL_SELF as int)));
    let e = eval(gaps[3], row, pv);
    if how is SelfPastHolding {
        assert(row[COL_SELF as int] == add_spec(sp, 1));
        assert(e == -1);
        vstd::arithmetic::div_mod::lemma_mod_multiples_vanish(1, -1, p);
        vstd::arithmetic::div_mod::lemma_small_mod((p - 1) as nat, p as nat);
    } else if how is RunPastSelf {
        assert(row[COL_SELF as int] == sub_spec(sp, 1));
        assert(e == 1);
        vstd::arithmetic::div_mod::lemma_small_mod(1, p as nat);
    } else {
        assert(row[COL_M as int] == add_spec(sp, 1));
        assert(e == 1);
        vstd::arithmetic::div_mod::lemma_small_mod(1, p as nat);
    }
    assert((e - 0) % p != 0);
    vstd::arithmetic::power2::lemma2_to64();
    vstd::arithmetic::power2::lemma2_to64_rest();
    lemma_block_fails_off(gaps[3], rb + 3 * RANGE_BITS, row, pv, r, 0);
    lemma_range_blocks_fail(gaps, rb, r, row, pv, 3);
    lemma_spend_parts_fail(r, depth as nat, cover, row, pv, 0);
}

/// Moving the first position breaks its equality with the run's start.
proof fn lemma_run_start_control_fails(
    r: int,
    depth: int,
    cover: int,
    payload: u64,
    inv: u64,
    units_want: Option<usize>,
    off_delta: int,
    pbase: int,
    spendable: int,
    pv: Seq<u64>,
)
    requires
        control_ok(r, depth, cover, payload, units_want, off_delta, pbase, spendable, SpendBreak::RunStart),
    ensures
        some_fails(
            spend_steps(r, depth as nat, cover, 0, false),
            r,
            spend_row_spec(
                r,
                depth,
                cover,
                payload,
                inv,
                units_want,
                off_delta,
                pbase,
                spendable,
                Some(SpendBreak::RunStart),
            ),
            pv,
        ),
{
    let how = Some(SpendBreak::RunStart);
    let u = spend_unbroken_row(r, depth, cover, payload, inv, units_want, off_delta, pbase, spendable, how);
    let row = spend_row_spec(r, depth, cover, payload, inv, units_want, off_delta, pbase, spendable, how);
    lemma_spend_cells(r, depth, cover, payload, inv, units_want, off_delta, pbase, spendable, how);
    let off = row_offset(cover, units_want, spendable, off_delta, how);
    let p = P as int;
    let ps = seq![Step::Eq(c(pos_base_spec()), c(COL_R as int))];
    assert(row[COL_R as int] == fe(off));
    assert(row[FIXED_COLS as int] == add_spec(fe(off) as int, 1));
    assert(0 <= off <= spendable);
    vstd::arithmetic::div_mod::lemma_small_mod(off as nat, p as nat);
    vstd::arithmetic::div_mod::lemma_small_mod((off + 1) as nat, p as nat);
    vstd::arithmetic::div_mod::lemma_small_mod(1, p as nat);
    assert(fe(off) == off);
    assert(!step_holds(ps[0], r, row, pv));
    lemma_spend_parts_fail(r, depth as nat, cover, row, pv, 1);
}

/// A run ending one unit past the self-region leaves the second gap at
/// minus one, which its block, holding that gap's low bits, does not encode.
proof fn lemma_run_past_budget_fails(
    r: int,
    depth: int,
    cover: int,
    payload: u64,
    inv: u64,
    units_want: Option<usize>,
    off_delta: int,
    pbase: int,
    spendable: int,
    pv: Seq<u64>,
)
    requires
        control_ok(r, depth, cover, payload, units_want, off_delta, pbase, spendable, SpendBreak::RunPastBudget),
    ensures
        some_fails(
            spend_steps(r, depth as nat, cover, 0, false),
            r,
            spend_row_spec(
                r,
                depth,
                cover,
                payload,
                inv,
                units_want,
                off_delta,
                pbase,
                spendable,
                Some(SpendBreak::RunPastBudget),
            ),
            pv,
        ),
{
    let how = Some(SpendBreak::RunPastBudget);
    let u = spend_unbroken_row(r, depth, cover, payload, inv, units_want, off_delta, pbase, spendable, how);
    let row = spend_row_spec(r, depth, cover, payload, inv, units_want, off_delta, pbase, spendable, how);
    lemma_spend_cells(r, depth, cover, payload, inv, units_want, off_delta, pbase, spendable, how);
    let units = run_units(cover, units_want, spendable, off_delta);
    let off = row_offset(cover, units_want, spendable, off_delta, how);
    let rb = range_base_spec(cover);
    let gaps = spend_gaps(depth as nat, 0);
    let p = P as int;
    assert(row == u);
    let g = spend_gap_values(depth, pbase, spendable, off, units);
    assert(g[1] == -1);
    vstd::arithmetic::power2::lemma2_to64();
    vstd::arithmetic::power2::lemma2_to64_rest();
    let m = pow2(RANGE_BITS as nat) as int;
    vstd::arithmetic::div_mod::lemma_mod_multiples_vanish(1, -1, m);
    vstd::arithmetic::div_mod::lemma_small_mod((m - 1) as nat, m as nat);
    assert(g[1] % m == m - 1);
    assert(0 <= off && 0 <= units && off < p && units < p);
    vstd::arithmetic::div_mod::lemma_small_mod(spendable as nat, p as nat);
    vstd::arithmetic::div_mod::lemma_small_mod(off as nat, p as nat);
    vstd::arithmetic::div_mod::lemma_small_mod(units as nat, p as nat);
    reveal_with_fuel(eval, 3);
    assert(gaps[1] == crate::spend::sub_e(
        crate::spend::sub_e(c(COL_SELF as int), c(COL_R as int)),
        c(COL_UNITS as int),
    ));
    assert(eval(gaps[1], row, pv) == -1);
    assert((-1 - (m - 1)) % p != 0) by {
        vstd::arithmetic::div_mod::lemma_mod_multiples_vanish(1, -m, p);
        vstd::arithmetic::div_mod::lemma_small_mod((p - m) as nat, p as nat);
    }
    lemma_block_fails_off(gaps[1], rb + RANGE_BITS, row, pv, r, m - 1);
    lemma_range_blocks_fail(gaps, rb, r, row, pv, 1);
    lemma_spend_parts_fail(r, depth as nat, cover, row, pv, 0);
}

/// The controls that move the holding, the self-region, the run's start or
/// the run's end each make the row fail the spend circuit, whatever the
/// public values.
pub proof fn lemma_spend_cell_controls_fail(
    r: int,
    depth: int,
    cover: int,
    payload: u64,
    inv: u64,
    units_want: Option<usize>,
    off_delta: int,
    pbase: int,
    spendable: int,
    how: SpendBreak,
    pv: Seq<u64>,
)
    requires
        control_ok(r, depth, cover, payload, units_want, off_delta, pbase, spendable, how),
        how is SelfPastHolding || how is RunPastSelf || how is Modulus || how is RunStart || how is RunPastBudget,
    ensures
        some_fails(
            spend_steps(r, depth as nat, cover, 0, false),
            r,
            spend_row_spec(r, depth, cover, payload, inv, units_want, off_delta, pbase, spendable, Some(how)),
            pv,
        ),
{
    if how is RunStart {
        lemma_run_start_control_fails(r, depth, cover, payload, inv, units_want, off_delta, pbase, spendable, pv);
    } else if how is RunPastBudget {
        lemma_run_past_budget_fails(r, depth, cover, payload, inv, units_want, off_delta, pbase, spendable, pv);
    } else {
        lemma_self_controls_fail(r, depth, cover, payload, inv, units_want, off_delta, pbase, spendable, how, pv);
    }
}

/// The slot columns of the first `k` slots hold, slot by slot, each slot's
/// six cells.
proof fn lemma_nodes_at(r: int, payload: u64, pbase: int, off: int, units: int, k: nat, q: int, j: int)
    requires
        0 <= q < k,
        0 <= j < PER_NODE,
    ensures
        nodes_spec(r, payload, pbase, off, units, k).len() == PER_NODE * k,
        nodes_spec(r, payload, pbase, off, units, k)[q * PER_NODE + j] == slot_node(r, payload, pbase, off, units, q)[j],
    decreases k,
{
    let prev = nodes_spec(r, payload, pbase, off, units, (k - 1) as nat);
    let last = slot_node(r, payload, pbase, off, units, k - 1);
    lemma_nodes_len(r, payload, pbase, off, units, (k - 1) as nat);
    assert(nodes_spec(r, payload, pbase, off, units, k) == prev + last);
    if k == 1 {
        assert(q == 0);
        assert(prev.len() == 0) by {
            assert(PER_NODE * 0 == 0);
        }
    }
    if k > 1 {
        lemma_nodes_len(r, payload, pbase, off, units, (k - 1) as nat);
        if q < k - 1 {
            lemma_nodes_at(r, payload, pbase, off, units, (k - 1) as nat, q, j);
            assert(q * PER_NODE + j < PER_NODE * (k - 1)) by (nonlinear_arith)
                requires
                    0 <= q < k - 1,
                    0 <= j < PER_NODE,
            ;
        } else {
            assert(q * PER_NODE == PER_NODE * (k - 1)) by (nonlinear_arith)
                requires
                    q == k - 1,
            ;
        }
    }
    lemma_nodes_len(r, payload, pbase, off, units, k);
}

pub proof fn lemma_nodes_len(r: int, payload: u64, pbase: int, off: int, units: int, k: nat)
    ensures
        nodes_spec(r, payload, pbase, off, units, k).len() == PER_NODE * k,
    decreases k,
{
    if k > 0 {
        lemma_nodes_len(r, payload, pbase, off, units, (k - 1) as nat);
        assert(PER_NODE * (k - 1) + PER_NODE == PER_NODE * k) by (nonlinear_arith)
            requires
                k >= 1,
        ;
    }
}

/// A failing step of one slot fails the slots' constraints.
proof fn lemma_slot_fails_lift(r: int, cover: int, q: int, m: int, row: Seq<u64>, pv: Seq<u64>)
    requires
        0 <= q < m,
        some_fails(slot_steps(r, cover, 0, q, false), r, row, pv),
    ensures
        some_fails(slots_spec(r, cover, 0, m, false), r, row, pv),
    decreases m,
{
    if q < m - 1 {
        lemma_slot_fails_lift(r, cover, q, m - 1, row, pv);
    }
    lemma_some_fails_concat(slots_spec(r, cover, 0, m - 1, false), slot_steps(r, cover, 0, m - 1, false), r, row, pv);
}

/// The spend charge over the first `k` slots is the number of them whose
/// active cell is one, when each active cell is one below `units` and zero
/// from there.
pub proof fn lemma_charged_eval(nb: int, k: nat, units: int, row: Seq<u64>, pv: Seq<u64>)
    requires
        0 <= nb,
        nb + PER_NODE * k <= row.len(),
        nb + PER_NODE * k <= usize::MAX,
        0 <= units,
        forall|q: int| 0 <= q < k ==> #[trigger] row[nb + q * PER_NODE + NODE_ACTIVE] == if q < units { 1u64 } else { 0u64 },
    ensures
        eval(charged_expr(nb, k), row, pv) == if k < units { k as int } else { units },
    decreases k,
{
    if k > 0 {
        assert((k - 1) * PER_NODE + PER_NODE == PER_NODE * k && PER_NODE * (k - 1) + PER_NODE == PER_NODE * k)
            by (nonlinear_arith)
            requires
                k >= 1,
        ;
        lemma_charged_eval(nb, (k - 1) as nat, units, row, pv);
        let i = nb + (k - 1) * PER_NODE + NODE_ACTIVE;
        assert(row[i] == if k - 1 < units { 1u64 } else { 0u64 });
        assert(0 <= i < row.len());
        let prev = charged_expr(nb, (k - 1) as nat);
        assert(charged_expr(nb, k) == Expr::Add(Box::new(prev), Box::new(Expr::Col(i as usize))));
        assert(eval(Expr::Col(i as usize), row, pv) == row[i] as int);
        assert(eval(charged_expr(nb, k), row, pv) == eval(prev, row, pv) + row[i] as int);
    }
}

/// The node cells of the unbroken row.
pub proof fn lemma_node_cells(
    r: int,
    depth: int,
    cover: int,
    payload: u64,
    inv: u64,
    units_want: Option<usize>,
    off_delta: int,
    pbase: int,
    spendable: int,
    how: Option<SpendBreak>,
    q: int,
    j: int,
)
    requires
        spend_row_ok(r, depth, cover, payload, units_want, off_delta, pbase, spendable, how),
        0 <= cover,
        0 <= q < cover,
        0 <= j < PER_NODE,
    ensures
        ({
            let u = spend_unbroken_row(r, depth, cover, payload, inv, units_want, off_delta, pbase, spendable, how);
            let units = run_units(cover, units_want, spendable, off_delta);
            let off = row_offset(cover, units_want, spendable, off_delta, how);
            &&& u.len() >= node_base_spec(cover) + PER_NODE * cover
            &&& u[node_base_spec(cover) + q * PER_NODE + j] == slot_node(r, payload, pbase, off, units, q)[j]
            &&& 0 <= q * PER_NODE + j < PER_NODE * cover
        }),
{
    let u = spend_unbroken_row(r, depth, cover, payload, inv, units_want, off_delta, pbase, spendable, how);
    let units = run_units(cover, units_want, spendable, off_delta);
    let off = row_offset(cover, units_want, spendable, off_delta, how);
    let fixed = spend_fixed(payload, inv, spendable, off, units, pbase);
    let pos = positions_spec(off, units, cover);
    let bits = spend_range_bits(depth, pbase, spendable, off, units);
    let nodes = nodes_spec(r, payload, pbase, off, units, cover as nat);
    lemma_nodes_at(r, payload, pbase, off, units, cover as nat, q, j);
    assert(q * PER_NODE + j < PER_NODE * cover) by (nonlinear_arith)
        requires
            0 <= q < cover,
            0 <= j < PER_NODE,
    ;
    let head = fixed + pos + bits;
    assert(head.len() == node_base_spec(cover));
    assert(u[head.len() + q * PER_NODE + j] == nodes[q * PER_NODE + j]);
}

/// The controls that change a slot's cells or the unit count each make the
/// row fail the spend circuit: a raised share no longer equals the secret
/// plus the key times the payload digest; a lowered unit count no longer
/// matches the active cells it counts; a second slot switched off, and
/// positions that advance by two, break the running count of positions.
pub proof fn lemma_spend_slot_controls_fail(
    r: int,
    depth: int,
    cover: int,
    payload: u64,
    inv: u64,
    units_want: Option<usize>,
    off_delta: int,
    pbase: int,
    spendable: int,
    how: SpendBreak,
    pv: Seq<u64>,
)
    requires
        control_ok(r, depth, cover, payload, units_want, off_delta, pbase, spendable, how),
        how is Share || how is Units || how is Deactivate || how is CoarseSpan,
        how is Deactivate ==> run_units(cover, units_want, spendable, off_delta) >= 2,
        how is CoarseSpan ==> run_units(cover, units_want, spendable, off_delta) >= 1,
    ensures
        some_fails(
            spend_steps(r, depth as nat, cover, 0, false),
            r,
            spend_row_spec(r, depth, cover, payload, inv, units_want, off_delta, pbase, spendable, Some(how)),
            pv,
        ),
{
    if how is Share {
        lemma_share_control_fails(r, depth, cover, payload, inv, units_want, off_delta, pbase, spendable, pv);
    } else if how is Units {
        lemma_units_control_fails(r, depth, cover, payload, inv, units_want, off_delta, pbase, spendable, pv);
    } else {
        lemma_position_controls_fail(r, depth, cover, payload, inv, units_want, off_delta, pbase, spendable, how, pv);
    }
}

/// One more than a sum reduced into [0, p) differs from the sum by one in
/// the field.
proof fn lemma_raised_sum(s0: int, a: int)
    ensures
        ((((s0 + a % (P as int)) % (P as int)) + 1) % (P as int) - (s0 + a)) % (P as int) == 1,
{
    let p = P as int;
    vstd::arithmetic::div_mod::lemma_fundamental_div_mod(a, p);
    let t1 = a % p;
    let q1 = a / p;
    vstd::arithmetic::div_mod::lemma_fundamental_div_mod(s0 + t1, p);
    let a2 = (s0 + t1) % p;
    let q2 = (s0 + t1) / p;
    vstd::arithmetic::div_mod::lemma_fundamental_div_mod(a2 + 1, p);
    let l = (a2 + 1) % p;
    let q3 = (a2 + 1) / p;
    let k = -(q1 + q2 + q3);
    assert(l - (s0 + a) == p * k + 1) by (nonlinear_arith)
        requires
            a == p * q1 + t1,
            s0 + t1 == p * q2 + a2,
            a2 + 1 == p * q3 + l,
            k == -(q1 + q2 + q3),
    ;
    vstd::arithmetic::div_mod::lemma_mod_multiples_vanish(k, 1, p);
    vstd::arithmetic::div_mod::lemma_small_mod(1, p as nat);
}

#[verifier::spinoff_prover]
#[verifier::rlimit(50)]
proof fn lemma_share_control_fails(
    r: int,
    depth: int,
    cover: int,
    payload: u64,
    inv: u64,
    units_want: Option<usize>,
    off_delta: int,
    pbase: int,
    spendable: int,
    pv: Seq<u64>,
)
    requires
        control_ok(r, depth, cover, payload, units_want, off_delta, pbase, spendable, SpendBreak::Share),
    ensures
        some_fails(
            spend_steps(r, depth as nat, cover, 0, false),
            r,
            spend_row_spec(
                r,
                depth,
                cover,
                payload,
                inv,
                units_want,
                off_delta,
                pbase,
                spendable,
                Some(SpendBreak::Share),
            ),
            pv,
        ),
{
    let how = Some(SpendBreak::Share);
    let u = spend_unbroken_row(r, depth, cover, payload, inv, units_want, off_delta, pbase, spendable, how);
    let row = spend_row_spec(r, depth, cover, payload, inv, units_want, off_delta, pbase, spendable, how);
    let units = run_units(cover, units_want, spendable, off_delta);
    let off = row_offset(cover, units_want, spendable, off_delta, how);
    lemma_spend_cells(r, depth, cover, payload, inv, units_want, off_delta, pbase, spendable, how);
    assert(cover >= 1);
    lemma_node_cells(r, depth, cover, payload, inv, units_want, off_delta, pbase, spendable, how, 0, NODE_KEY as int);
    lemma_node_cells(r, depth, cover, payload, inv, units_want, off_delta, pbase, spendable, how, 0, NODE_SHARE as int);
    let n0 = node_base_spec(cover);
    let node = slot_node(r, payload, pbase, off, units, 0);
    let o = node[1];
    assert(u[n0 + NODE_KEY] == o);
    assert(u[n0 + NODE_SHARE] == add_spec(SECRET[0] as int, mul_spec(o as int, payload as int)) as u64);
    assert(row == raise(u, n0 + NODE_SHARE));
    assert(row[n0 + NODE_KEY] == o);
    assert(row[COL_SECRET as int] == SECRET[0]);
    assert(row[COL_INDEX as int] == payload);
    let st = slot_steps(r, cover, 0, 0, false);
    reveal_with_fuel(eval, 4);
    assert(st[11] == Step::Eq(
        c(n0 + NODE_SHARE),
        crate::spend::add_e(c(COL_SECRET as int), crate::spend::mul_e(c(n0 + NODE_KEY), c(COL_INDEX as int))),
    ));
    let p = P as int;
    let sv = SECRET[0] as int;
    let a = o * payload;
    assert(row[n0 + NODE_SHARE] == ((((sv + a % p) % p) + 1) % p));
    lemma_raised_sum(sv, a);
    assert(!step_holds(st[11], r, row, pv));
    lemma_slot_fails_lift(r, cover, 0, cover, row, pv);
    lemma_spend_parts_fail(r, depth as nat, cover, row, pv, 2);
}

#[verifier::rlimit(50)]
proof fn lemma_units_control_fails(
    r: int,
    depth: int,
    cover: int,
    payload: u64,
    inv: u64,
    units_want: Option<usize>,
    off_delta: int,
    pbase: int,
    spendable: int,
    pv: Seq<u64>,
)
    requires
        control_ok(r, depth, cover, payload, units_want, off_delta, pbase, spendable, SpendBreak::Units),
    ensures
        some_fails(
            spend_steps(r, depth as nat, cover, 0, false),
            r,
            spend_row_spec(
                r,
                depth,
                cover,
                payload,
                inv,
                units_want,
                off_delta,
                pbase,
                spendable,
                Some(SpendBreak::Units),
            ),
            pv,
        ),
{
    let how = Some(SpendBreak::Units);
    let u = spend_unbroken_row(r, depth, cover, payload, inv, units_want, off_delta, pbase, spendable, how);
    let row = spend_row_spec(r, depth, cover, payload, inv, units_want, off_delta, pbase, spendable, how);
    let units = run_units(cover, units_want, spendable, off_delta);
    let off = row_offset(cover, units_want, spendable, off_delta, how);
    lemma_spend_cells(r, depth, cover, payload, inv, units_want, off_delta, pbase, spendable, how);
    let nb = node_base_spec(cover);
    assert(0 <= units <= cover);
    assert forall|q: int| 0 <= q < cover implies #[trigger] row[nb + q * PER_NODE + NODE_ACTIVE] == if q < units {
        1u64
    } else {
        0u64
    } by {
        lemma_node_cells(r, depth, cover, payload, inv, units_want, off_delta, pbase, spendable, how, q, NODE_ACTIVE as int);
    }
    if cover > 0 {
        lemma_node_cells(r, depth, cover, payload, inv, units_want, off_delta, pbase, spendable, how, 0, 0);
    } else {
        assert(cover == 0);
        assert(PER_NODE * cover == 0) by (nonlinear_arith)
            requires
                cover == 0,
        ;
    }
    assert(nb + PER_NODE * cover <= row.len());
    let bw = crate::hash::block_width_spec(r);
    assert(cover * bw >= 0) by (nonlinear_arith)
        requires
            cover >= 0,
            bw >= 0,
    ;
    assert(nb + PER_NODE * cover <= usize::MAX);
    lemma_charged_eval(nb, cover as nat, units, row, pv);
    let p = P as int;
    vstd::arithmetic::div_mod::lemma_small_mod(units as nat, p as nat);
    assert(row[COL_UNITS as int] == sub_spec(units, 1));
    let tl = seq![Step::Eq(charged_expr(nb, cover as nat), c(COL_UNITS as int))];
    if units >= 1 {
        vstd::arithmetic::div_mod::lemma_small_mod((units - 1) as nat, p as nat);
        vstd::arithmetic::div_mod::lemma_small_mod(1, p as nat);
    } else {
        vstd::arithmetic::div_mod::lemma_mod_multiples_vanish(1, -1, p);
        vstd::arithmetic::div_mod::lemma_small_mod((p - 1) as nat, p as nat);
        vstd::arithmetic::div_mod::lemma_mod_multiples_vanish(-1, 1, p);
        vstd::arithmetic::div_mod::lemma_small_mod(1, p as nat);
    }
    assert(!step_holds(tl[0], r, row, pv));
    lemma_spend_parts_fail(r, depth as nat, cover, row, pv, 3);
}

#[verifier::rlimit(50)]
proof fn lemma_position_controls_fail(
    r: int,
    depth: int,
    cover: int,
    payload: u64,
    inv: u64,
    units_want: Option<usize>,
    off_delta: int,
    pbase: int,
    spendable: int,
    how: SpendBreak,
    pv: Seq<u64>,
)
    requires
        control_ok(r, depth, cover, payload, units_want, off_delta, pbase, spendable, how),
        how is Deactivate || how is CoarseSpan,
        how is Deactivate ==> run_units(cover, units_want, spendable, off_delta) >= 2,
        how is CoarseSpan ==> run_units(cover, units_want, spendable, off_delta) >= 1,
    ensures
        some_fails(
            spend_steps(r, depth as nat, cover, 0, false),
            r,
            spend_row_spec(r, depth, cover, payload, inv, units_want, off_delta, pbase, spendable, Some(how)),
            pv,
        ),
{
    let u = spend_unbroken_row(r, depth, cover, payload, inv, units_want, off_delta, pbase, spendable, Some(how));
    let row = spend_row_spec(r, depth, cover, payload, inv, units_want, off_delta, pbase, spendable, Some(how));
    let units = run_units(cover, units_want, spendable, off_delta);
    let off = row_offset(cover, units_want, spendable, off_delta, Some(how));
    lemma_spend_cells(r, depth, cover, payload, inv, units_want, off_delta, pbase, spendable, Some(how));
    let nb = node_base_spec(cover);
    let p = P as int;
    assert(0 <= off && off + units <= spendable);
    assert(units <= cover);
    vstd::arithmetic::div_mod::lemma_small_mod(off as nat, p as nat);
    vstd::arithmetic::div_mod::lemma_small_mod((off + 1) as nat, p as nat);
    vstd::arithmetic::div_mod::lemma_small_mod((off + 2) as nat, p as nat);
    reveal_with_fuel(eval, 3);
    if how is Deactivate {
        lemma_node_cells(r, depth, cover, payload, inv, units_want, off_delta, pbase, spendable, Some(how), 1, 0);
        assert(row == u.update(nb + PER_NODE + NODE_ACTIVE, 0));
        assert(row[FIXED_COLS + 2] == u[FIXED_COLS + 2]);
        assert(row[FIXED_COLS + 1] == u[FIXED_COLS + 1]);
        assert(u[FIXED_COLS + 2] == fe(slot_pos(off, units, 2)));
        assert(u[FIXED_COLS + 1] == fe(slot_pos(off, units, 1)));
        assert(row[FIXED_COLS + 2] == off + 2);
        assert(row[FIXED_COLS + 1] == off + 1);
        assert(row[nb + 1 * PER_NODE + NODE_ACTIVE] == 0);
        let st = slot_steps(r, cover, 0, 1, false);
        assert(st[1] == Step::Eq(
            c(pos_base_spec() + 1 + 1),
            crate::spend::add_e(c(pos_base_spec() + 1), c(nb + 1 * PER_NODE + NODE_ACTIVE)),
        ));
        vstd::arithmetic::div_mod::lemma_small_mod(1, p as nat);
        assert(!step_holds(st[1], r, row, pv));
        lemma_slot_fails_lift(r, cover, 1, cover, row, pv);
    } else {
        lemma_node_cells(r, depth, cover, payload, inv, units_want, off_delta, pbase, spendable, Some(how), 0, 0);
        assert(row[FIXED_COLS + 1] == fe(u[FIXED_COLS as int] + 2));
        assert(row[FIXED_COLS as int] == u[FIXED_COLS as int]);
        assert(u[FIXED_COLS as int] == off);
        assert(row[FIXED_COLS + 1] == off + 2);
        assert(row[nb + NODE_ACTIVE] == 1);
        let st = slot_steps(r, cover, 0, 0, false);
        assert(st[1] == Step::Eq(
            c(pos_base_spec() + 0 + 1),
            crate::spend::add_e(c(pos_base_spec() + 0), c(nb + 0 * PER_NODE + NODE_ACTIVE)),
        ));
        vstd::arithmetic::div_mod::lemma_small_mod(1, p as nat);
        assert(!step_holds(st[1], r, row, pv));
        lemma_slot_fails_lift(r, cover, 0, cover, row, pv);
    }
    lemma_spend_parts_fail(r, depth as nat, cover, row, pv, 2);
}

/// 2^k built by doubling evaluates to 2^k.
pub proof fn lemma_pow_expr_eval(k: nat, row: Seq<u64>, pv: Seq<u64>)
    ensures
        eval(crate::spend::pow_expr(k), row, pv) == pow2(k),
    decreases k,
{
    if k > 0 {
        lemma_pow_expr_eval((k - 1) as nat, row, pv);
        vstd::arithmetic::power2::lemma_pow2_unfold(k);
    } else {
        vstd::arithmetic::power2::lemma2_to64();
    }
}

/// A raised key no longer gives the published share: the share check then
/// misses by the payload digest, which is not zero.
proof fn lemma_raised_key(sv: int, o: int, pl: int)
    requires
        0 < pl < P,
        0 <= o,
    ensures
        (((sv + (o * pl) % (P as int)) % (P as int)) - (sv + ((o + 1) % (P as int)) * pl)) % (P as int) != 0,
{
    let p = P as int;
    vstd::arithmetic::div_mod::lemma_fundamental_div_mod(o * pl, p);
    let t1 = (o * pl) % p;
    let q1 = (o * pl) / p;
    vstd::arithmetic::div_mod::lemma_fundamental_div_mod(sv + t1, p);
    let a = (sv + t1) % p;
    let q2 = (sv + t1) / p;
    vstd::arithmetic::div_mod::lemma_fundamental_div_mod(o + 1, p);
    let k1 = (o + 1) % p;
    let q3 = (o + 1) / p;
    let k = q3 * pl - q1 - q2;
    assert(a - (sv + k1 * pl) == p * k + (p - pl) - p) by (nonlinear_arith)
        requires
            o * pl == p * q1 + t1,
            sv + t1 == p * q2 + a,
            o + 1 == p * q3 + k1,
            k == q3 * pl - q1 - q2,
    ;
    vstd::arithmetic::div_mod::lemma_mod_multiples_vanish(k - 1, p - pl, p);
    assert(p * k + (p - pl) - p == p * (k - 1) + (p - pl)) by (nonlinear_arith);
    vstd::arithmetic::div_mod::lemma_small_mod((p - pl) as nat, p as nat);
}

#[verifier::spinoff_prover]
#[verifier::rlimit(50)]
proof fn lemma_key_control_fails(
    r: int,
    depth: int,
    cover: int,
    payload: u64,
    inv: u64,
    units_want: Option<usize>,
    off_delta: int,
    pbase: int,
    spendable: int,
    pv: Seq<u64>,
)
    requires
        control_ok(r, depth, cover, payload, units_want, off_delta, pbase, spendable, SpendBreak::Key),
    ensures
        some_fails(
            spend_steps(r, depth as nat, cover, 0, false),
            r,
            spend_row_spec(
                r,
                depth,
                cover,
                payload,
                inv,
                units_want,
                off_delta,
                pbase,
                spendable,
                Some(SpendBreak::Key),
            ),
            pv,
        ),
{
    let how = Some(SpendBreak::Key);
    let u = spend_unbroken_row(r, depth, cover, payload, inv, units_want, off_delta, pbase, spendable, how);
    let row = spend_row_spec(r, depth, cover, payload, inv, units_want, off_delta, pbase, spendable, how);
    let units = run_units(cover, units_want, spendable, off_delta);
    let off = row_offset(cover, units_want, spendable, off_delta, how);
    lemma_spend_cells(r, depth, cover, payload, inv, units_want, off_delta, pbase, spendable, how);
    assert(cover >= 1);
    lemma_node_cells(r, depth, cover, payload, inv, units_want, off_delta, pbase, spendable, how, 0, NODE_KEY as int);
    lemma_node_cells(r, depth, cover, payload, inv, units_want, off_delta, pbase, spendable, how, 0, NODE_SHARE as int);
    let n0 = node_base_spec(cover);
    let node = slot_node(r, payload, pbase, off, units, 0);
    let o = node[1];
    assert(u[n0 + NODE_KEY] == o);
    assert(u[n0 + NODE_SHARE] == add_spec(SECRET[0] as int, mul_spec(o as int, payload as int)) as u64);
    assert(row == raise(u, n0 + NODE_KEY));
    assert(row[n0 + NODE_SHARE] == u[n0 + NODE_SHARE]);
    assert(row[n0 + NODE_KEY] == add_spec(o as int, 1));
    assert(row[COL_SECRET as int] == SECRET[0]);
    assert(row[COL_INDEX as int] == payload);
    let st = slot_steps(r, cover, 0, 0, false);
    reveal_with_fuel(eval, 4);
    assert(st[11] == Step::Eq(
        c(n0 + NODE_SHARE),
        crate::spend::add_e(c(COL_SECRET as int), crate::spend::mul_e(c(n0 + NODE_KEY), c(COL_INDEX as int))),
    ));
    lemma_raised_key(SECRET[0] as int, o as int, payload as int);
    assert(!step_holds(st[11], r, row, pv));
    lemma_slot_fails_lift(r, cover, 0, cover, row, pv);
    lemma_spend_parts_fail(r, depth as nat, cover, row, pv, 2);
}

/// A moved range base changes the third gap, 2^depth less the base less
/// the holding, by one, which its block, holding the honest gap's low bits,
/// no longer encodes, where that gap lies in [0, p).
#[verifier::rlimit(50)]
proof fn lemma_range_base_control_fails(
    r: int,
    depth: int,
    cover: int,
    payload: u64,
    inv: u64,
    units_want: Option<usize>,
    off_delta: int,
    pbase: int,
    spendable: int,
    pv: Seq<u64>,
)
    requires
        control_ok(r, depth, cover, payload, units_want, off_delta, pbase, spendable, SpendBreak::RangeBase),
        pbase + 1 < P,
        0 <= pow2(depth as nat) - pbase - spendable < P,
    ensures
        some_fails(
            spend_steps(r, depth as nat, cover, 0, false),
            r,
            spend_row_spec(
                r,
                depth,
                cover,
                payload,
                inv,
                units_want,
                off_delta,
                pbase,
                spendable,
                Some(SpendBreak::RangeBase),
            ),
            pv,
        ),
{
    let how = Some(SpendBreak::RangeBase);
    let u = spend_unbroken_row(r, depth, cover, payload, inv, units_want, off_delta, pbase, spendable, how);
    let row = spend_row_spec(r, depth, cover, payload, inv, units_want, off_delta, pbase, spendable, how);
    let units = run_units(cover, units_want, spendable, off_delta);
    let off = row_offset(cover, units_want, spendable, off_delta, how);
    lemma_spend_cells(r, depth, cover, payload, inv, units_want, off_delta, pbase, spendable, how);
    let rb = range_base_spec(cover);
    let gaps = spend_gaps(depth as nat, 0);
    let g = spend_gap_values(depth, pbase, spendable, off, units);
    let p = P as int;
    vstd::arithmetic::power2::lemma2_to64();
    vstd::arithmetic::power2::lemma2_to64_rest();
    let m = pow2(RANGE_BITS as nat) as int;
    assert(row == raise(u, crate::spend::COL_BASE as int));
    assert forall|k: int| 0 <= k < RANGE_BITS implies row[rb + 2 * RANGE_BITS + k] == #[trigger] bit(
        g[2] % m,
        k as nat,
    ) by {
        assert(row[rb + 2 * RANGE_BITS + k] == u[rb + 2 * RANGE_BITS + k]);
    }
    vstd::arithmetic::div_mod::lemma_small_mod(pbase as nat, p as nat);
    vstd::arithmetic::div_mod::lemma_small_mod((pbase + 1) as nat, p as nat);
    vstd::arithmetic::div_mod::lemma_small_mod(spendable as nat, p as nat);
    assert(row[crate::spend::COL_BASE as int] == pbase + 1);
    assert(row[COL_M as int] == spendable);
    lemma_pow_expr_eval(depth as nat, row, pv);
    reveal_with_fuel(eval, 3);
    assert(gaps[2] == crate::spend::sub_e(
        crate::spend::sub_e(crate::spend::pow_expr(depth as nat), c(crate::spend::COL_BASE as int)),
        c(COL_M as int),
    ));
    assert(eval(gaps[2], row, pv) == g[2] - 1);
    let w = g[2] % m;
    vstd::arithmetic::div_mod::lemma_fundamental_div_mod(g[2], m);
    let t = g[2] / m;
    vstd::arithmetic::div_mod::lemma_div_pos_is_pos(g[2], m);
    assert(g[2] - 1 - w == m * t - 1);
    assert((m * t - 1) % p != 0) by {
        if t == 0 {
            vstd::arithmetic::div_mod::lemma_mod_multiples_vanish(1, -1, p);
            vstd::arithmetic::div_mod::lemma_small_mod((p - 1) as nat, p as nat);
        } else {
            assert(m * t >= m) by (nonlinear_arith)
                requires
                    t >= 1,
                    m > 0,
            ;
            assert(m * t <= g[2]);
            vstd::arithmetic::div_mod::lemma_small_mod((m * t - 1) as nat, p as nat);
        }
    }
    vstd::arithmetic::div_mod::lemma_mod_pos_bound(g[2], m);
    lemma_block_fails_off(gaps[2], rb + 2 * RANGE_BITS, row, pv, r, w);
    lemma_range_blocks_fail(gaps, rb, r, row, pv, 2);
    lemma_spend_parts_fail(r, depth as nat, cover, row, pv, 0);
}

/// A raised key, and a moved range base whose honest third gap lies in
/// [0, p), each make the row fail the spend circuit.
pub proof fn lemma_spend_key_and_base_controls_fail(
    r: int,
    depth: int,
    cover: int,
    payload: u64,
    inv: u64,
    units_want: Option<usize>,
    off_delta: int,
    pbase: int,
    spendable: int,
    how: SpendBreak,
    pv: Seq<u64>,
)
    requires
        control_ok(r, depth, cover, payload, units_want, off_delta, pbase, spendable, how),
        how is Key || how is RangeBase,
        how is RangeBase ==> pbase + 1 < P && 0 <= pow2(depth as nat) - pbase - spendable < P,
    ensures
        some_fails(
            spend_steps(r, depth as nat, cover, 0, false),
            r,
            spend_row_spec(r, depth, cover, payload, inv, units_want, off_delta, pbase, spendable, Some(how)),
            pv,
        ),
{
    if how is Key {
        lemma_key_control_fails(r, depth, cover, payload, inv, units_want, off_delta, pbase, spendable, pv);
    } else {
        lemma_range_base_control_fails(r, depth, cover, payload, inv, units_want, off_delta, pbase, spendable, pv);
    }
}

/// The first slot's block heads the slots' blocks.
proof fn lemma_blocks_head(r: int, payload: u64, pbase: int, off: int, units: int, k: nat, i: int)
    requires
        k >= 1,
        0 <= i < slot_block(r, payload, pbase, off, units, 0).len(),
    ensures
        blocks_spec(r, payload, pbase, off, units, k).len() >= slot_block(r, payload, pbase, off, units, 0).len(),
        blocks_spec(r, payload, pbase, off, units, k)[i] == slot_block(r, payload, pbase, off, units, 0)[i],
    decreases k,
{
    if k > 1 {
        lemma_blocks_head(r, payload, pbase, off, units, (k - 1) as nat, i);
    } else {
        assert(blocks_spec(r, payload, pbase, off, units, 0) =~= Seq::<u64>::empty());
    }
}

/// A raised nullifier no longer equals the first slot permutation's output
/// lane it is read from.
#[verifier::spinoff_prover]
#[verifier::rlimit(50)]
pub proof fn lemma_nullifier_control_fails(
    r: int,
    depth: int,
    cover: int,
    payload: u64,
    inv: u64,
    units_want: Option<usize>,
    off_delta: int,
    pbase: int,
    spendable: int,
    pv: Seq<u64>,
)
    requires
        control_ok(r, depth, cover, payload, units_want, off_delta, pbase, spendable, SpendBreak::Nullifier),
        crate::field::all_canonical(
            spend_row_spec(
                r,
                depth,
                cover,
                payload,
                inv,
                units_want,
                off_delta,
                pbase,
                spendable,
                Some(SpendBreak::Nullifier),
            ),
        ),
        crate::spend_trace::slots_generated(
            r,
            payload,
            pbase,
            row_offset(cover, units_want, spendable, off_delta, Some(SpendBreak::Nullifier)),
            run_units(cover, units_want, spendable, off_delta),
            cover,
        ),
    ensures
        some_fails(
            spend_steps(r, depth as nat, cover, 0, false),
            r,
            spend_row_spec(
                r,
                depth,
                cover,
                payload,
                inv,
                units_want,
                off_delta,
                pbase,
                spendable,
                Some(SpendBreak::Nullifier),
            ),
            pv,
        ),
{
    let how = Some(SpendBreak::Nullifier);
    let u = spend_unbroken_row(r, depth, cover, payload, inv, units_want, off_delta, pbase, spendable, how);
    let row = spend_row_spec(r, depth, cover, payload, inv, units_want, off_delta, pbase, spendable, how);
    let units = run_units(cover, units_want, spendable, off_delta);
    let off = row_offset(cover, units_want, spendable, off_delta, how);
    let bw = crate::hash::block_width_spec(r);
    assert(cover >= 1);
    assert(bw >= 94);
    lemma_node_cells(r, depth, cover, payload, inv, units_want, off_delta, pbase, spendable, how, 0, NODE_NULL as int);
    let n0 = node_base_spec(cover);
    let sb = slot_block(r, payload, pbase, off, units, 0);
    assert(sb.len() == bw);
    let x = sb[bw - WIDTH + SECRET_ELEMS];
    assert(u[n0 + NODE_NULL] == slot_node(r, payload, pbase, off, units, 0)[5]);
    assert(slot_node(r, payload, pbase, off, units, 0)[5] == perm_out(sb)[2]);
    assert(perm_out(sb)[2] == x);
    // Where the first block sits.
    let fixed = spend_fixed(payload, inv, spendable, off, units, pbase);
    let pos = positions_spec(off, units, cover);
    let bits = spend_range_bits(depth, pbase, spendable, off, units);
    let nodes = nodes_spec(r, payload, pbase, off, units, cover as nat);
    let blocks = blocks_spec(r, payload, pbase, off, units, cover as nat);
    lemma_nodes_len(r, payload, pbase, off, units, cover as nat);
    let head = fixed + pos + bits + nodes;
    assert(head.len() == value_cols_spec(cover));
    assert(u == head + blocks);
    let i = bw - WIDTH + SECRET_ELEMS;
    lemma_blocks_head(r, payload, pbase, off, units, cover as nat, i);
    let blk = value_cols_spec(cover);
    assert(u[blk + i] == blocks[i]);
    assert(u[blk + i] == x);
    assert(row == raise(u, n0 + NODE_NULL));
    assert(n0 + NODE_NULL < blk);
    assert(row[blk + i] == x);
    assert(x < P);
    assert(row[n0 + NODE_NULL] == add_spec(x as int, 1));
    let st = slot_steps(r, cover, 0, 0, false);
    reveal_with_fuel(eval, 2);
    assert(st[14] == Step::Eq(c(n0 + 0 * PER_NODE + NODE_NULL), c(blk + 0 * bw + (bw - WIDTH) + SECRET_ELEMS)));
    assert(cover * bw >= bw) by (nonlinear_arith)
        requires
            cover >= 1,
            bw >= 0,
    ;
    assert(blk + i < spend_row_width(cover, bw));
    assert(blk + i <= usize::MAX);
    assert(eval(c(n0 + 0 * PER_NODE + NODE_NULL), row, pv) == add_spec(x as int, 1));
    assert(eval(c(blk + 0 * bw + (bw - WIDTH) + SECRET_ELEMS), row, pv) == x);
    let p = P as int;
    if x + 1 < p {
        vstd::arithmetic::div_mod::lemma_small_mod((x + 1) as nat, p as nat);
        vstd::arithmetic::div_mod::lemma_small_mod(1, p as nat);
    } else {
        vstd::arithmetic::div_mod::lemma_mod_self_0(p);
        vstd::arithmetic::div_mod::lemma_mod_multiples_vanish(-1, 1, p);
        vstd::arithmetic::div_mod::lemma_small_mod(1, p as nat);
    }
    assert(!step_holds(st[14], r, row, pv));
    lemma_slot_fails_lift(r, cover, 0, cover, row, pv);
    lemma_spend_parts_fail(r, depth as nat, cover, row, pv, 2);
}

} // verus!
