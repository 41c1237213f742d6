//! The composed row satisfies the composed circuit: its whole half
//! satisfies the whole circuit, its spend half, shifted past the whole
//! half, the spend circuit, and the ties between them hold. Under each
//! composed control both halves still hold, so only a tie fails.
use crate::air::{bit, bits_seq, lemma_range_block_holds, lemma_range_blocks_hold, range_block_spec, range_blocks_spec, COL_AMOUNT, COL_B, COL_C, COL_G, DIGEST, RANGE_BITS};
use crate::composed::{composed_gaps, composed_links, composed_steps, composed_ties, composed_width_spec, unit_col_spec, EXTRA_COLS};
use crate::expr::{all_hold, eval, lemma_all_hold_concat, lemma_shift_holds, lemma_steps_frame, step_holds, Expr, Step};
use crate::field::{all_canonical, mul_spec, P};
use crate::hash::block_width_spec;
use crate::spend::{spend_steps, spend_width_spec, COL_M, COL_SELF, COL_UNITS, FIXED_COLS};
use crate::spend_trace::{fe, run_offset, run_units, row_offset, slot_pos, slots_generated, spend_gap_values, spend_row_ok, spend_row_spec};
use crate::trace::{BASE_INDEX, GOOD_AMOUNT, GOOD_BUDGET, RUN_START, RUN_UNITS, SPENDABLE};
use crate::whole::{whole_offsets, whole_steps, whole_width_spec};
use crate::witness::{
    composed_air_row, composed_amount, composed_cap, composed_gap_values, composed_units, payload_digest,
    unit_size, unit_written, whole_generated, whole_public_values_spec, whole_row_spec, whole_trace_ok, ComposedBreak,
};
use vstd::arithmetic::power2::pow2;
use vstd::prelude::*;

verus! {

/// What the composed row is stated for: a generated whole half, a spend
/// half `spend_row_ok` accepts whose inverse column inverts the payload
/// digest and whose slot blocks are generated, both halves as wide as
/// their circuits, and a depth whose index space leaves the spend gaps
/// below 2^RANGE_BITS.
pub open spec fn composed_row_ok(r: int, md: int, rd: int, depth: int, cover: int, inv: u64, h: Option<ComposedBreak>) -> bool {
    let amount = composed_amount(h);
    let cap = composed_cap(h);
    let payload = payload_digest(r, amount);
    let off_delta: int = if h == Some(ComposedBreak::RunStartMismatch) { 1 } else { 0 };
    let units = composed_units(h);
    let sr = spend_row_spec(r, depth, cover, payload, inv, Some(units as usize), off_delta, BASE_INDEX as int, SPENDABLE as int, None);
    &&& whole_trace_ok(r, md, rd, 1)
    &&& whole_generated(r, md, rd, amount, cap)
    &&& whole_row_spec(r, md, rd, amount, cap, cap).len() == whole_width_spec(r, md, rd)
    &&& spend_row_ok(r, depth, cover, payload, Some(units as usize), off_delta, BASE_INDEX as int, SPENDABLE as int, None)
    &&& sr.len() == spend_width_spec(r, cover)
    &&& all_canonical(sr)
    &&& mul_spec(payload as int, inv as int) == 1
    &&& slots_generated(
        r,
        payload,
        BASE_INDEX as int,
        row_offset(cover, Some(units as usize), SPENDABLE as int, off_delta, None),
        run_units(cover, Some(units as usize), SPENDABLE as int, off_delta),
        cover,
    )
    &&& 4 <= cover
    &&& 11 <= depth <= 40
    &&& composed_width_spec(r, md, rd, cover) <= usize::MAX
}

/// The composed row is its whole half, its spend half and its tail.
proof fn lemma_composed_parts(r: int, md: int, rd: int, depth: int, cover: int, inv: u64, h: Option<ComposedBreak>)
    requires
        composed_row_ok(r, md, rd, depth, cover, inv, h),
    ensures
        ({
            let amount = composed_amount(h);
            let cap = composed_cap(h);
            let off_delta: int = if h == Some(ComposedBreak::RunStartMismatch) { 1 } else { 0 };
            let sr = spend_row_spec(
                r,
                depth,
                cover,
                payload_digest(r, amount),
                inv,
                Some(composed_units(h) as usize),
                off_delta,
                BASE_INDEX as int,
                SPENDABLE as int,
                None,
            );
            let row = composed_air_row(r, md, rd, depth, cover, inv, h);
            let w = whole_width_spec(r, md, rd);
            &&& row.len() == composed_width_spec(r, md, rd, cover)
            &&& row.subrange(0, w) == whole_row_spec(r, md, rd, amount, cap, cap)
            &&& row.subrange(w, w + spend_width_spec(r, cover)) == sr
            &&& 0 <= w
        }),
{
    let amount = composed_amount(h);
    let cap = composed_cap(h);
    let off_delta: int = if h == Some(ComposedBreak::RunStartMismatch) { 1 } else { 0 };
    let units = composed_units(h);
    let wr = whole_row_spec(r, md, rd, amount, cap, cap);
    let sr = spend_row_spec(r, depth, cover, payload_digest(r, amount), inv, Some(units as usize), off_delta, BASE_INDEX as int, SPENDABLE as int, None);
    let g = composed_gap_values(h);
    let m = pow2(RANGE_BITS as nat) as int;
    let tail = seq![unit_written(h)] + bits_seq(g[0] % m) + bits_seq(g[1] % m) + bits_seq(g[2] % m);
    let row = composed_air_row(r, md, rd, depth, cover, inv, h);
    assert(row == wr + sr + tail);
    crate::whole::lemma_whole_offsets(r, md, rd);
    let w = whole_width_spec(r, md, rd);
    assert(row.subrange(0, w) =~= wr);
    assert(row.subrange(w, w + spend_width_spec(r, cover)) =~= sr);
}

/// The spend half, shifted past the whole half, satisfies the spend
/// circuit against any public values whose first is the payload digest.
pub proof fn lemma_composed_spend_half(
    r: int,
    md: int,
    rd: int,
    depth: int,
    cover: int,
    inv: u64,
    h: Option<ComposedBreak>,
    pv: Seq<u64>,
)
    requires
        composed_row_ok(r, md, rd, depth, cover, inv, h),
        pv.len() >= 1,
        pv[0] == payload_digest(r, composed_amount(h)),
    ensures
        all_hold(
            spend_steps(r, depth as nat, cover, whole_width_spec(r, md, rd), false),
            r,
            composed_air_row(r, md, rd, depth, cover, inv, h),
            pv,
        ),
{
    let amount = composed_amount(h);
    let payload = payload_digest(r, amount);
    let off_delta: int = if h == Some(ComposedBreak::RunStartMismatch) { 1 } else { 0 };
    let units = composed_units(h);
    let sr = spend_row_spec(r, depth, cover, payload, inv, Some(units as usize), off_delta, BASE_INDEX as int, SPENDABLE as int, None);
    let row = composed_air_row(r, md, rd, depth, cover, inv, h);
    let w = whole_width_spec(r, md, rd);
    let sw = spend_width_spec(r, cover);
    lemma_composed_parts(r, md, rd, depth, cover, inv, h);
    assert(unit_size() == 4);
    assert((GOOD_AMOUNT + 4 - 1) / 4 == 3);
    assert(units == 3 || units == 4);
    vstd::arithmetic::power2::lemma2_to64();
    vstd::arithmetic::power2::lemma2_to64_rest();
    if depth < 40 {
        vstd::arithmetic::power2::lemma_pow2_strictly_increases(depth as nat, 40);
    }
    if 11 < depth {
        vstd::arithmetic::power2::lemma_pow2_strictly_increases(11, depth as nat);
    }
    let bw = block_width_spec(r);
    assert(cover * bw >= cover * 94) by (nonlinear_arith)
        requires
            cover >= 0,
            bw >= 94,
    ;
    let off = row_offset(cover, Some(units as usize), SPENDABLE as int, off_delta, None);
    let g = spend_gap_values(depth, BASE_INDEX as int, SPENDABLE as int, off, units);
    assert(forall|k: int| 0 <= k < 3 ==> 0 <= #[trigger] g[k] < pow2(RANGE_BITS as nat));
    assert(crate::spend_accept::honest_ok(
        r,
        depth,
        cover,
        payload,
        inv,
        Some(units as usize),
        off_delta,
        BASE_INDEX as int,
        SPENDABLE as int,
    ));
    crate::spend_accept::lemma_honest_spend_row_satisfies(
        r,
        depth,
        cover,
        payload,
        inv,
        Some(units as usize),
        off_delta,
        BASE_INDEX as int,
        SPENDABLE as int,
        pv,
    );
    crate::spend_frame::lemma_spend_within(r, depth as nat, cover, false);
    lemma_shift_holds(spend_steps(r, depth as nat, cover, 0, false), r, sr, row, w, pv);
    crate::spend_frame::lemma_spend_steps_shift(r, depth as nat, cover, w, false);
}

/// The whole half satisfies the whole circuit against the public values
/// its own pieces give.
pub proof fn lemma_composed_whole_half(r: int, md: int, rd: int, depth: int, cover: int, inv: u64, h: Option<ComposedBreak>)
    requires
        composed_row_ok(r, md, rd, depth, cover, inv, h),
    ensures
        all_hold(
            whole_steps(r, md, rd, 0, true),
            r,
            composed_air_row(r, md, rd, depth, cover, inv, h),
            whole_public_values_spec(r, md, rd, composed_amount(h), composed_cap(h)),
        ),
{
    let amount = composed_amount(h);
    let cap = composed_cap(h);
    let pv = whole_public_values_spec(r, md, rd, amount, cap);
    let row = composed_air_row(r, md, rd, depth, cover, inv, h);
    let wr = whole_row_spec(r, md, rd, amount, cap, cap);
    let w = whole_width_spec(r, md, rd);
    lemma_composed_parts(r, md, rd, depth, cover, inv, h);
    vstd::arithmetic::power2::lemma2_to64();
    vstd::arithmetic::power2::lemma2_to64_rest();
    assert(unit_size() == 4);
    assert((GOOD_AMOUNT + 4 - 1) / 4 == 3);
    assert(composed_units(h) <= 4);
    assert(composed_amount(h) <= 13);
    assert(composed_cap(h) >= 200);
    crate::acceptance::lemma_whole_row_satisfies(r, md, rd, amount, cap, cap, true);
    crate::whole_frame::lemma_whole_within(r, md, rd, true);
    assert(row.subrange(0, w) == wr.subrange(0, w));
    lemma_steps_frame(whole_steps(r, md, rd, 0, true), r, row, wr, pv, w);
}

/// The ties hold of the honest composed row: the unit size times the
/// holding and the self-region is the budget, the spend run is the run C8
/// checked, and the three gaps are the values their blocks encode.
#[verifier::rlimit(80)]
proof fn lemma_composed_ties_honest(r: int, md: int, rd: int, depth: int, cover: int, inv: u64, pv: Seq<u64>)
    requires
        composed_row_ok(r, md, rd, depth, cover, inv, None),
    ensures
        all_hold(composed_ties(r, md, rd, cover), r, composed_air_row(r, md, rd, depth, cover, inv, None), pv),
{
    let h: Option<ComposedBreak> = None;
    let amount = composed_amount(h);
    let cap = composed_cap(h);
    let payload = payload_digest(r, amount);
    let units = composed_units(h);
    let wr = whole_row_spec(r, md, rd, amount, cap, cap);
    let sr = spend_row_spec(r, depth, cover, payload, inv, Some(units as usize), 0, BASE_INDEX as int, SPENDABLE as int, None);
    let row = composed_air_row(r, md, rd, depth, cover, inv, h);
    let w = whole_width_spec(r, md, rd);
    let sw = spend_width_spec(r, cover);
    let u_col = unit_col_spec(r, md, rd, cover);
    let first = u_col + EXTRA_COLS;
    let g = composed_gap_values(h);
    let m = pow2(RANGE_BITS as nat) as int;
    let tail = seq![unit_written(h)] + bits_seq(g[0] % m) + bits_seq(g[1] % m) + bits_seq(g[2] % m);
    assert(row == wr + sr + tail);
    crate::acceptance::lemma_whole_layout(r, md, rd, amount, cap, cap);
    crate::whole::lemma_whole_offsets(r, md, rd);
    crate::spend_controls::lemma_spend_cells(r, depth, cover, payload, inv, Some(units as usize), 0, BASE_INDEX as int, SPENDABLE as int, None);
    vstd::arithmetic::power2::lemma2_to64();
    vstd::arithmetic::power2::lemma2_to64_rest();
    assert(unit_size() == 4);
    assert(13int / 4 == 3) by (nonlinear_arith);
    assert(GOOD_AMOUNT + 4 - 1 == 13);
    assert(units == 3);
    assert(amount == 10);
    assert(cap == 200);
    let p = P as int;
    let pc = crate::witness::whole_policy_cols(amount, cap, crate::witness::mroot_spec(r, md));
    let lo = whole_offsets(r, md, rd).5 + DIGEST + 1;
    let off = run_offset(SPENDABLE as int, 0);
    assert(off == 385);
    vstd::arithmetic::div_mod::lemma_small_mod(1536, p as nat);
    vstd::arithmetic::div_mod::lemma_small_mod(3, p as nat);
    vstd::arithmetic::div_mod::lemma_small_mod(385, p as nat);
    vstd::arithmetic::div_mod::lemma_small_mod(388, p as nat);
    vstd::arithmetic::div_mod::lemma_small_mod(10, p as nat);
    vstd::arithmetic::div_mod::lemma_small_mod(200, p as nat);
    assert(row[COL_B as int] == wr[COL_B as int]);
    assert(wr[COL_B as int] == pc[COL_B as int]);
    assert(row[COL_B as int] == GOOD_BUDGET);
    assert(row[COL_G as int] == wr[COL_G as int]);
    assert(wr[COL_G as int] == pc[COL_G as int]);
    assert(row[COL_G as int] == GOOD_BUDGET);
    assert(row[COL_C as int] == pc[COL_C as int]);
    assert(row[COL_C as int] == 200);
    assert(row[COL_AMOUNT as int] == pc[COL_AMOUNT as int]);
    assert(row[COL_AMOUNT as int] == 10);
    assert(row[lo] == wr[lo]);
    assert(row[lo] == RUN_START);
    assert(row[lo + 1] == wr[lo + 1]);
    assert(row[lo + 1] == RUN_START + RUN_UNITS - 1);
    assert(row[w + COL_M] == sr[COL_M as int]);
    assert(row[w + COL_M] == 1536);
    assert(row[w + COL_SELF] == sr[COL_SELF as int]);
    assert(row[w + COL_SELF] == 1536);
    assert(row[w + COL_UNITS] == sr[COL_UNITS as int]);
    assert(row[w + COL_UNITS] == 3);
    assert(row[w + FIXED_COLS] == sr[FIXED_COLS as int]);
    assert(row[w + FIXED_COLS] == 385);
    assert(sr[FIXED_COLS + cover] == fe(slot_pos(off, units, cover)));
    assert(row[w + FIXED_COLS + cover] == sr[FIXED_COLS + cover]);
    assert(row[w + FIXED_COLS + cover] == 388);
    assert(u_col == w + sw);
    assert(row[u_col] == 4);
    assert(4 * 1536 == 6144);
    // The links.
    let links = composed_links(r, md, rd, cover);
    reveal_with_fuel(eval, 3);
    assert(step_holds(links[0], r, row, pv));
    assert(step_holds(links[1], r, row, pv));
    assert(step_holds(links[2], r, row, pv));
    assert(step_holds(links[3], r, row, pv));
    assert(all_hold(links, r, row, pv)) by {
        assert forall|i: int| 0 <= i < links.len() implies #[trigger] step_holds(links[i], r, row, pv) by {
            if i == 0 {} else if i == 1 {} else if i == 2 {} else {}
        }
    }
    // The gaps.
    let gaps = composed_gaps(w, u_col);
    assert(g[0] == 2 && g[1] == 1 && g[2] == 5944);
    vstd::arithmetic::div_mod::lemma_small_mod(2, m as nat);
    vstd::arithmetic::div_mod::lemma_small_mod(1, m as nat);
    vstd::arithmetic::div_mod::lemma_small_mod(5944, m as nat);
    reveal_with_fuel(eval, 5);
    assert(eval(gaps[0], row, pv) == 2);
    assert(eval(gaps[1], row, pv) == 1);
    assert(eval(gaps[2], row, pv) == 5944);
    assert forall|k: int, j: int| 0 <= k < 3 && 0 <= j < RANGE_BITS implies #[trigger] row[first + k * RANGE_BITS + j] == bit(g[k], j as nat) by {
        assert(row[first + k * RANGE_BITS + j] == tail[1 + k * RANGE_BITS + j]);
    }
    assert forall|j: int| 0 <= j < RANGE_BITS implies row[first + j] == #[trigger] bit(2, j as nat) by {
        assert(row[first + 0 * RANGE_BITS + j] == bit(g[0], j as nat));
    }
    assert forall|j: int| 0 <= j < RANGE_BITS implies row[first + RANGE_BITS + j] == #[trigger] bit(1, j as nat) by {
        assert(row[first + 1 * RANGE_BITS + j] == bit(g[1], j as nat));
    }
    assert forall|j: int| 0 <= j < RANGE_BITS implies row[first + 2 * RANGE_BITS + j] == #[trigger] bit(5944, j as nat) by {
        assert(row[first + 2 * RANGE_BITS + j] == bit(g[2], j as nat));
    }
    lemma_range_block_holds(gaps[0], first, row, pv, r, 2);
    lemma_range_block_holds(gaps[1], first + RANGE_BITS, row, pv, r, 1);
    lemma_range_block_holds(gaps[2], first + 2 * RANGE_BITS, row, pv, r, 5944);
    assert forall|k: int| 0 <= k < gaps.len() implies #[trigger] all_hold(
        range_block_spec(gaps[k], first + k * RANGE_BITS),
        r,
        row,
        pv,
    ) by {
        if k == 0 {} else if k == 1 {} else {}
    }
    lemma_range_blocks_hold(gaps, first, r, row, pv);
    lemma_all_hold_concat(links, range_blocks_spec(gaps, first), r, row, pv);
}

/// The honest composed row satisfies every constraint of the composed
/// circuit, against the public values of its whole half.
pub proof fn lemma_composed_row_accepted(r: int, md: int, rd: int, depth: int, cover: int, inv: u64)
    requires
        composed_row_ok(r, md, rd, depth, cover, inv, None),
    ensures
        all_hold(
            composed_steps(r, md, rd, depth, cover),
            r,
            composed_air_row(r, md, rd, depth, cover, inv, None),
            whole_public_values_spec(r, md, rd, composed_amount(None), composed_cap(None)),
        ),
{
    let pv = whole_public_values_spec(r, md, rd, composed_amount(None), composed_cap(None));
    let row = composed_air_row(r, md, rd, depth, cover, inv, None);
    lemma_composed_whole_half(r, md, rd, depth, cover, inv, None);
    lemma_composed_spend_half(r, md, rd, depth, cover, inv, None, pv);
    lemma_composed_ties_honest(r, md, rd, depth, cover, inv, pv);
    let w = whole_width_spec(r, md, rd);
    lemma_all_hold_concat(whole_steps(r, md, rd, 0, true), spend_steps(r, depth as nat, cover, w, false), r, row, pv);
    lemma_all_hold_concat(
        whole_steps(r, md, rd, 0, true) + spend_steps(r, depth as nat, cover, w, false),
        composed_ties(r, md, rd, cover),
        r,
        row,
        pv,
    );
}

} // verus!
