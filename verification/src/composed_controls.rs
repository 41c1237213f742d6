//! Why each control of the composed trace breaks a binding between the two
//! halves. Each moves one value the ties relate (the amount, the units
//! charged, the unit size, the cap or the spend run's start) while both
//! halves are built from it consistently, so the tie that reads it across the
//! halves fails.
use crate::air::{bit, bits_seq, lemma_range_block_fails_negative, lemma_range_blocks_fail, range_block_spec, COL_AMOUNT, COL_B, COL_C, DIGEST, RANGE_BITS};
use crate::composed::{composed_gaps, composed_links, composed_steps, composed_ties, composed_width_spec, unit_col_spec, EXTRA_COLS};
use crate::expr::{eval, lemma_some_fails_concat, some_fails, step_holds, Expr, Step};
use crate::field::P;
use crate::spend::{spend_steps, spend_width_spec, COL_M, COL_UNITS, FIXED_COLS};
use crate::spend_trace::{fe, run_offset, spend_row_ok, spend_row_spec};
use crate::trace::{BASE_INDEX, GOOD_AMOUNT, GOOD_BUDGET, RUN_START, SPENDABLE};
use crate::whole::{whole_offsets, whole_steps, whole_width_spec};
use crate::witness::{
    composed_air_row, composed_amount, composed_cap, composed_gap_values, composed_units, payload_digest,
    unit_size, unit_written, whole_generated, whole_row_spec, whole_trace_ok, ComposedBreak,
};
use vstd::arithmetic::power2::pow2;
use vstd::prelude::*;

verus! {

/// What the composed controls are stated for: a composed row whose whole
/// half is generated and whose spend half `spend_row_ok` accepts, with the
/// two halves' widths as their circuits declare.
pub open spec fn composed_control_ok(r: int, md: int, rd: int, depth: int, cover: int, inv: u64, how: ComposedBreak) -> bool {
    let h = Some(how);
    let amount = composed_amount(h);
    let cap = composed_cap(h);
    let payload = payload_digest(r, amount);
    let off_delta: int = if h == Some(ComposedBreak::RunStartMismatch) { 1 } else { 0 };
    &&& whole_trace_ok(r, md, rd, 1)
    &&& whole_generated(r, md, rd, amount, cap)
    &&& whole_row_spec(r, md, rd, amount, cap, cap).len() == whole_width_spec(r, md, rd)
    &&& spend_row_ok(r, depth, cover, payload, Some(composed_units(h) as usize), off_delta, BASE_INDEX as int, SPENDABLE as int, None)
    &&& spend_row_spec(r, depth, cover, payload, inv, Some(composed_units(h) as usize), off_delta, BASE_INDEX as int, SPENDABLE as int, None).len()
        == spend_width_spec(r, cover)
    &&& 0 <= cover
    &&& 0 <= depth
    &&& composed_width_spec(r, md, rd, cover) <= usize::MAX
}

/// The cells of the composed row the ties read.
proof fn lemma_composed_cells(r: int, md: int, rd: int, depth: int, cover: int, inv: u64, how: ComposedBreak)
    requires
        composed_control_ok(r, md, rd, depth, cover, inv, how),
    ensures
        ({
            let h = Some(how);
            let row = composed_air_row(r, md, rd, depth, cover, inv, h);
            let w = whole_width_spec(r, md, rd);
            let u_col = unit_col_spec(r, md, rd, cover);
            let g = composed_gap_values(h);
            let m = pow2(RANGE_BITS as nat) as int;
            let off_delta: int = if h == Some(ComposedBreak::RunStartMismatch) { 1 } else { 0 };
            &&& row.len() == composed_width_spec(r, md, rd, cover)
            &&& row[COL_AMOUNT as int] == composed_amount(h)
            &&& row[COL_B as int] == GOOD_BUDGET
            &&& row[COL_C as int] == composed_cap(h)
            &&& row[whole_offsets(r, md, rd).5 + DIGEST + 1] == RUN_START
            &&& row[w + COL_M] == SPENDABLE
            &&& row[w + COL_UNITS] == composed_units(h)
            &&& row[w + FIXED_COLS] == run_offset(SPENDABLE as int, off_delta)
            &&& row[u_col] == unit_written(h)
            &&& forall|k: int, j: int|
                0 <= k < 3 && 0 <= j < RANGE_BITS ==> #[trigger] row[u_col + EXTRA_COLS + k * RANGE_BITS + j]
                    == bit(g[k] % m, j as nat)
        }),
{
    let h = Some(how);
    let amount = composed_amount(h);
    let cap = composed_cap(h);
    let payload = payload_digest(r, amount);
    let off_delta: int = if h == Some(ComposedBreak::RunStartMismatch) { 1 } else { 0 };
    let units = composed_units(h);
    let wr = whole_row_spec(r, md, rd, amount, cap, cap);
    let sr = spend_row_spec(r, depth, cover, payload, inv, Some(units as usize), off_delta, BASE_INDEX as int, SPENDABLE as int, None);
    let g = composed_gap_values(h);
    let m = pow2(RANGE_BITS as nat) as int;
    let tail = seq![unit_written(h)] + bits_seq(g[0] % m) + bits_seq(g[1] % m) + bits_seq(g[2] % m);
    let row = composed_air_row(r, md, rd, depth, cover, inv, h);
    assert(row == wr + sr + tail);
    let w = whole_width_spec(r, md, rd);
    let s = spend_width_spec(r, cover);
    crate::acceptance::lemma_whole_layout(r, md, rd, amount, cap, cap);
    crate::whole::lemma_whole_offsets(r, md, rd);
    crate::spend_controls::lemma_spend_cells(r, depth, cover, payload, inv, Some(units as usize), off_delta, BASE_INDEX as int, SPENDABLE as int, None);
    assert(composed_width_spec(r, md, rd, cover) == w + s + 1 + 3 * RANGE_BITS);
    let pc = crate::witness::whole_policy_cols(amount, cap, crate::witness::mroot_spec(r, md));
    assert(row[COL_AMOUNT as int] == wr[COL_AMOUNT as int]);
    assert(wr[COL_AMOUNT as int] == pc[COL_AMOUNT as int]);
    assert(row[COL_B as int] == pc[COL_B as int]);
    assert(row[COL_C as int] == pc[COL_C as int]);
    let lo = whole_offsets(r, md, rd).5 + DIGEST + 1;
    assert(row[lo] == wr[lo]);
    assert(row[w + COL_M] == sr[COL_M as int]);
    assert(row[w + COL_UNITS] == sr[COL_UNITS as int]);
    assert(row[w + FIXED_COLS] == sr[FIXED_COLS as int]);
    let p = P as int;
    vstd::arithmetic::div_mod::lemma_small_mod(SPENDABLE as nat, p as nat);
    vstd::arithmetic::div_mod::lemma_small_mod(units as nat, p as nat);
    vstd::arithmetic::div_mod::lemma_small_mod(run_offset(SPENDABLE as int, off_delta) as nat, p as nat);
    vstd::arithmetic::div_mod::lemma_small_mod(amount as nat, p as nat);
    vstd::arithmetic::div_mod::lemma_small_mod(cap as nat, p as nat);
    let u_col = unit_col_spec(r, md, rd, cover);
    assert(u_col == w + s);
    assert(row[u_col] == tail[0]);
    assert forall|k: int, j: int|
        0 <= k < 3 && 0 <= j < RANGE_BITS implies #[trigger] row[u_col + EXTRA_COLS + k * RANGE_BITS + j] == bit(
        g[k] % m,
        j as nat,
    ) by {
        assert(row[u_col + EXTRA_COLS + k * RANGE_BITS + j] == tail[1 + k * RANGE_BITS + j]);
        if k == 0 {
        } else if k == 1 {
        } else {
        }
    }
}

/// A failing tie fails the composed circuit.
proof fn lemma_ties_fail_lift(r: int, md: int, rd: int, depth: int, cover: int, row: Seq<u64>, pv: Seq<u64>, links: bool)
    requires
        links ==> some_fails(composed_links(r, md, rd, cover), r, row, pv),
        !links ==> some_fails(
            crate::air::range_blocks_spec(
                composed_gaps(whole_width_spec(r, md, rd), unit_col_spec(r, md, rd, cover)),
                unit_col_spec(r, md, rd, cover) + EXTRA_COLS,
            ),
            r,
            row,
            pv,
        ),
    ensures
        some_fails(composed_ties(r, md, rd, cover), r, row, pv),
        some_fails(composed_steps(r, md, rd, depth, cover), r, row, pv),
{
    let w = whole_width_spec(r, md, rd);
    let u_col = unit_col_spec(r, md, rd, cover);
    let l = composed_links(r, md, rd, cover);
    let b = crate::air::range_blocks_spec(composed_gaps(w, u_col), u_col + EXTRA_COLS);
    lemma_some_fails_concat(l, b, r, row, pv);
    let halves = whole_steps(r, md, rd, 0, true) + spend_steps(r, depth as nat, cover, w, false);
    lemma_some_fails_concat(halves, composed_ties(r, md, rd, cover), r, row, pv);
}

/// Every composed control breaks a tie between the halves, so the composed
/// circuit rejects its row whatever the public values: a raised amount, or a
/// unit charged too many, drives a unit-count gap negative; a cap above the
/// budget drives the budget gap negative; a wrong unit size breaks the
/// budget's equality with the unit size times the holding; and a spend run
/// starting one unit late breaks its equality with the run C8 checked.
pub proof fn lemma_composed_control_fails(
    r: int,
    md: int,
    rd: int,
    depth: int,
    cover: int,
    inv: u64,
    how: ComposedBreak,
    pv: Seq<u64>,
)
    requires
        composed_control_ok(r, md, rd, depth, cover, inv, how),
    ensures
        some_fails(composed_ties(r, md, rd, cover), r, composed_air_row(r, md, rd, depth, cover, inv, Some(how)), pv),
        some_fails(composed_steps(r, md, rd, depth, cover), r, composed_air_row(r, md, rd, depth, cover, inv, Some(how)), pv),
{
    let h = Some(how);
    let row = composed_air_row(r, md, rd, depth, cover, inv, h);
    lemma_composed_cells(r, md, rd, depth, cover, inv, how);
    let w = whole_width_spec(r, md, rd);
    let u_col = unit_col_spec(r, md, rd, cover);
    let first = u_col + EXTRA_COLS;
    let g = composed_gap_values(h);
    let gaps = composed_gaps(w, u_col);
    let links = composed_links(r, md, rd, cover);
    vstd::arithmetic::power2::lemma2_to64();
    vstd::arithmetic::power2::lemma2_to64_rest();
    let m = pow2(RANGE_BITS as nat) as int;
    assert(unit_size() == 4);
    crate::whole::lemma_whole_offsets(r, md, rd);
    assert(w >= 0);
    reveal_with_fuel(eval, 5);
    if how is UnitSizeWrong {
        assert(links[0] == Step::Eq(
            Expr::Mul(Box::new(Expr::Col(u_col as usize)), Box::new(Expr::Col((w + COL_M) as usize))),
            Expr::Col(COL_B),
        ));
        assert(eval(links[0]->Eq_0, row, pv) == 5 * 1536);
        assert(!step_holds(links[0], r, row, pv));
        lemma_ties_fail_lift(r, md, rd, depth, cover, row, pv, true);
    } else if how is RunStartMismatch {
        let lo = whole_offsets(r, md, rd).5 + DIGEST + 1;
        assert(links[2] == Step::Eq(Expr::Col(lo as usize), Expr::Col((w + FIXED_COLS) as usize)));
        assert(run_offset(SPENDABLE as int, 1) == 386);
        assert(!step_holds(links[2], r, row, pv));
        lemma_ties_fail_lift(r, md, rd, depth, cover, row, pv, true);
    } else {
        let k: int = if how is CapAboveBudget { 2 } else if how is AmountRaised { 0 } else { 1 };
        let v = g[k];
        if how is CapAboveBudget {
            assert(v == -1);
        } else if how is AmountRaised {
            assert(composed_units(h) == 3);
            assert(v == -1);
        } else {
            assert(composed_units(h) == 4);
            assert(v == -3);
        }
        vstd::arithmetic::div_mod::lemma_mod_multiples_vanish(1, v, m);
        vstd::arithmetic::div_mod::lemma_small_mod((v + m) as nat, m as nat);
        assert(v % m == v + m);
        let start = first + k * RANGE_BITS;
        assert forall|j: int| 0 <= j < RANGE_BITS implies row[start + j] == #[trigger] bit(v + m, j as nat) by {
            assert(row[u_col + EXTRA_COLS + k * RANGE_BITS + j] == bit(g[k] % m, j as nat));
        }
        assert(eval(gaps[k], row, pv) == v);
        lemma_range_block_fails_negative(gaps[k], start, row, pv, r, v);
        lemma_range_blocks_fail(gaps, first, r, row, pv, k);
        lemma_ties_fail_lift(r, md, rd, depth, cover, row, pv, false);
    }
}

} // verus!
