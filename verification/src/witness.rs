//! Witnesses for the composite circuits: the policy with its commitment
//! sponge, the whole compliance row, the composed row, their public values,
//! and the corrupted traces the negative controls prove against.
use crate::air::{
    bits_of, bits_seq, low_bits, ALL_CLAUSES, RANGE_BITS, COL_B, COL_C, COL_CID, COL_CROOT, COL_G, COL_MID, COL_MROOT, COL_N, COL_PAYEE, COL_R, COL_TEXP,
    COL_TSTART, COL_W, DIGEST, PAYLOAD_ELEMS, PAYLOAD_SRC, POLICY_SCALARS,
};
use crate::field::{add_spec, all_canonical, fadd, mul_spec, P};
use crate::gen::{
    absorb, generated, lemma_sponge_lanes, lemma_sponge_rows, perm_out, perm_output,
    poseidon2_trace_row, rows_view, sponge, sponge_from, sponge_inputs, sponge_spec, sponge_start,
};
use crate::expr::{
    all_hold, eval, lemma_all_hold_concat, lemma_steps_frame, some_fails, step_holds, steps_within,
    Expr, Step,
};
use crate::full::{binding_steps, block_steps, full_steps, policy_sources, policy_width_spec, start_steps, C9_PERMUTATIONS};
use crate::hash::{block_width, block_width_spec, DOMAIN_OPENING, DOMAIN_PAYLOAD, WIDTH};
use crate::merkle::{level_width_spec, merkle_width_spec};
use crate::revocation::nonmembership_width_spec;
use crate::whole::whole_width_spec;
use crate::table::{append, lemma_repeats_row, raise, repeat, Trace};
use crate::spend_trace::{spend_row, spend_row_ok, spend_row_spec, spend_row_width};
use vstd::arithmetic::power2::pow2;
use crate::trace::{
    lemma_merkle_blocks_len, lemma_merkle_digest_len, merkle_digest, merkle_generated,
    merkle_row_spec, merkle_trace, nm_leaf, nm_row_spec, nonmembership_trace, policy_row_spec,
    policy_trace, policy_trace_full, policy_value, GOOD_AMOUNT, GOOD_BUDGET, GOOD_CAP, GOOD_T,
    GOOD_T_EXP, GOOD_T_START, GOOD_VELOCITY_N, POLICY_WIDTH, RUN_START, RUN_UNITS, SPENDABLE,
    BASE_INDEX,
};
use vstd::prelude::*;

verus! {

/// The rows of a sequence of blocks, one after another.
pub open spec fn concat_rows(rows: Seq<Seq<u64>>) -> Seq<u64>
    decreases rows.len(),
{
    if rows.len() == 0 {
        seq![]
    } else {
        concat_rows(rows.drop_last()) + rows.last()
    }
}

/// A sponge at rate four produces one block per four elements, rounded up.
pub proof fn lemma_sponge_len(r: int, state: Seq<u64>, elements: Seq<u64>)
    ensures
        sponge_from(r, state, elements, 4).len() == (elements.len() + 3) / 4,
    decreases elements.len(),
{
    if elements.len() > 0 {
        let k = if 4 < elements.len() {
            4
        } else {
            elements.len() as int
        };
        lemma_sponge_len(
            r,
            perm_out(crate::gen::poseidon2_trace_row(r, absorb(state, elements.take(k)))),
            elements.skip(k),
        );
    }
}

/// The policy elements C9 absorbs for the satisfying payment: the scalars,
/// both roots, and the blinding value.
pub open spec fn absorbed_spec() -> Seq<u64> {
    seq![
        GOOD_BUDGET,
        GOOD_CAP,
        GOOD_T_START,
        GOOD_T_EXP,
        GOOD_VELOCITY_N,
        100,
        GOOD_BUDGET,
        11,
        12,
        13,
        14,
        13,
        14,
        15,
        16,
        4242,
    ]
}

/// The policy elements C9 absorbs, as field elements.
pub fn absorbed() -> (v: Vec<u64>)
    ensures
        v@ == absorbed_spec(),
{
    let mut v: Vec<u64> = Vec::new();
    v.push(GOOD_BUDGET);
    v.push(GOOD_CAP);
    v.push(GOOD_T_START);
    v.push(GOOD_T_EXP);
    v.push(GOOD_VELOCITY_N);
    v.push(100);
    v.push(GOOD_BUDGET);
    let mut j: u64 = 0;
    while j < DIGEST as u64
        invariant
            j <= DIGEST,
            v@ == absorbed_spec().take(7 + j),
        decreases DIGEST - j,
    {
        v.push(11 + j);
        j += 1;
        assert(v@ =~= absorbed_spec().take(7 + j));
    }
    let mut j: u64 = 0;
    while j < DIGEST as u64
        invariant
            j <= DIGEST,
            v@ == absorbed_spec().take(11 + j),
        decreases DIGEST - j,
    {
        v.push(13 + j);
        j += 1;
        assert(v@ =~= absorbed_spec().take(11 + j));
    }
    v.push(4242);
    assert(v@ =~= absorbed_spec());
    v
}

/// The commitment a sponge over `elements` opens to: the first `DIGEST`
/// lanes of its final output.
pub open spec fn commitment_spec(r: int, elements: Seq<u64>) -> Seq<u64> {
    perm_out(sponge_spec(r, elements, 4, DOMAIN_OPENING).last()).take(DIGEST as int)
}

/// The first `DIGEST` lanes of the final block's output.
fn final_digest<const R: usize>(rows: &Vec<Vec<u64>>) -> (d: Vec<u64>)
    requires
        R <= 1,
        rows@.len() > 0,
        rows@.last()@.len() == block_width_spec(R as int),
    ensures
        d@ == perm_out(rows@.last()@).take(DIGEST as int),
{
    let out = perm_output::<R>(rows[rows.len() - 1].as_slice());
    let mut d: Vec<u64> = Vec::new();
    let mut j: usize = 0;
    while j < DIGEST
        invariant
            j <= DIGEST,
            out@ == perm_out(rows@.last()@),
            d@ == out@.take(j as int),
        decreases DIGEST - j,
    {
        d.push(out[j]);
        j += 1;
        assert(d@ =~= out@.take(j as int));
    }
    d
}

/// The commitment the policy-plus-opening circuit computes.
pub fn full_public_values<const R: usize>() -> (v: Vec<u64>)
    requires
        R == 0 || R == 1,
    ensures
        v@ == commitment_spec(R as int, absorbed_spec()),
{
    let a = absorbed();
    let perms = sponge::<R>(a.as_slice(), 4, DOMAIN_OPENING);
    proof {
        lemma_sponge_len(R as int, crate::gen::sponge_start(4, DOMAIN_OPENING), absorbed_spec());
        assert(rows_view(perms@).len() == perms@.len());
        assert(rows_view(perms@).last() == perms@.last()@);
    }
    final_digest::<R>(&perms)
}

/// The row of the policy-plus-opening circuit: the satisfying policy row,
/// then the blocks of the commitment sponge.
pub open spec fn composed_row_spec(r: int) -> Seq<u64> {
    policy_row_spec(GOOD_AMOUNT, GOOD_CAP) + concat_rows(
        sponge_spec(r, absorbed_spec(), 4, DOMAIN_OPENING),
    )
}

/// Append every block, in order.
pub fn append_rows(row: &mut Vec<u64>, rows: &Vec<Vec<u64>>)
    ensures
        final(row)@ == old(row)@ + concat_rows(rows_view(rows@)),
{
    let mut i: usize = 0;
    while i < rows.len()
        invariant
            i <= rows@.len(),
            row@ == old(row)@ + concat_rows(rows_view(rows@.take(i as int))),
        decreases rows@.len() - i,
    {
        let ghost before = row@;
        append(row, rows[i].as_slice());
        proof {
            let t = rows_view(rows@.take(i + 1));
            assert(t.drop_last() =~= rows_view(rows@.take(i as int)));
            assert(t.last() == rows@[i as int]@);
        }
        i += 1;
    }
    assert(rows@.take(i as int) =~= rows@);
}

/// Policy columns followed by the commitment sponge's blocks. The bindings
/// hold by construction: the sponge absorbs exactly the values the policy
/// columns carry.
pub fn composed_trace<const R: usize>(rows: usize) -> (t: Trace)
    requires
        R == 0 || R == 1,
        rows * (POLICY_WIDTH + 4 * block_width_spec(R as int)) <= usize::MAX,
    ensures
        t.repeats(composed_row_spec(R as int), rows as int),
        t.wf(),
        all_canonical(composed_row_spec(R as int)),
        composed_row_spec(R as int).len() == POLICY_WIDTH + 4 * block_width_spec(R as int),
        forall|k: int|
            0 <= k < rows ==> #[trigger] all_hold(
                full_steps(R as int),
                R as int,
                t.row(k),
                commitment_spec(R as int, absorbed_spec()),
            ),
        forall|i: int| 0 <= i < 4 ==> #[trigger] generated(R as int, opening_inputs(R as int)[i]),
{
    let policy = policy_trace(1);
    proof {
        crate::table::lemma_repeats_one(policy, policy_row_spec(GOOD_AMOUNT, GOOD_CAP));
    }
    let mut row = policy.values;
    let a = absorbed();
    let perms = sponge::<R>(a.as_slice(), 4, DOMAIN_OPENING);
    let ghost head = row@;
    append_rows(&mut row, &perms);
    proof {
        lemma_sponge_len(R as int, crate::gen::sponge_start(4, DOMAIN_OPENING), absorbed_spec());
        lemma_concat_rows_len(rows_view(perms@), block_width_spec(R as int));
        lemma_concat_rows_canonical(rows_view(perms@));
        lemma_policy_row_canonical(GOOD_AMOUNT, GOOD_CAP);
        crate::field::lemma_canonical_concat(head, concat_rows(rows_view(perms@)));
        assert(rows_view(perms@).len() == perms@.len());
        assert forall|i: int| 0 <= i < 4 implies #[trigger] generated(R as int, opening_inputs(R as int)[i]) by {
            assert(a@ == absorbed_spec());
        }
    }
    let t = repeat(&row, rows);
    proof {
        assert forall|k: int| 0 <= k < rows implies #[trigger] all_hold(
            full_steps(R as int),
            R as int,
            t.row(k),
            commitment_spec(R as int, absorbed_spec()),
        ) by {
            lemma_repeats_row(t, row@, rows as int, k);
            lemma_composed_row_satisfies(R as int, commitment_spec(R as int, absorbed_spec()));
        }
    }
    t
}

/// Concatenated blocks of one width are that width times their count long.
pub proof fn lemma_concat_rows_len(rows: Seq<Seq<u64>>, w: int)
    requires
        forall|i: int| 0 <= i < rows.len() ==> (#[trigger] rows[i]).len() == w,
    ensures
        concat_rows(rows).len() == rows.len() * w,
    decreases rows.len(),
{
    if rows.len() > 0 {
        lemma_concat_rows_len(rows.drop_last(), w);
        assert((rows.len() - 1) * w + w == rows.len() * w) by (nonlinear_arith);
    }
}

/// Concatenated canonical blocks are canonical.
pub proof fn lemma_concat_rows_canonical(rows: Seq<Seq<u64>>)
    requires
        forall|i: int| 0 <= i < rows.len() ==> all_canonical(#[trigger] rows[i]),
    ensures
        all_canonical(concat_rows(rows)),
    decreases rows.len(),
{
    if rows.len() > 0 {
        lemma_concat_rows_canonical(rows.drop_last());
        assert(all_canonical(rows.last()));
        crate::field::lemma_canonical_concat(concat_rows(rows.drop_last()), rows.last());
    }
}

/// The satisfying policy row holds canonical elements at a canonical amount
/// and cap.
pub proof fn lemma_policy_row_canonical(amount: u64, cap: u64)
    ensures
        all_canonical(policy_row_spec(amount, cap)),
{
    let row = policy_row_spec(amount, cap);
    assert forall|i: int| 0 <= i < row.len() implies #[trigger] row[i] < P by {
        if i < crate::air::VALUE_COLS {
            assert(row[i] == policy_value(amount, cap, i));
        } else {
            assert(row[i] < 2);
        }
    }
}

/// How a composed trace can be broken. Each targets a different constraint.
#[derive(Clone, Copy)]
pub enum Break {
    /// An absorbed lane no longer equals the policy column it is bound to.
    Binding,
    /// A capacity lane no longer carries from one permutation into the next.
    Chaining,
    /// A permutation's internal round state is altered.
    Permutation,
}

/// The column a control raises: the first absorbed lane, a capacity lane of
/// the second permutation's input, or a post state inside the first
/// permutation's rounds.
pub open spec fn break_col(r: int, how: Break) -> int {
    match how {
        Break::Binding => POLICY_WIDTH as int,
        Break::Chaining => POLICY_WIDTH + block_width_spec(r) + 4,
        Break::Permutation => POLICY_WIDTH + 20,
    }
}

/// `values` with one column of every row raised by one in the field.
pub open spec fn corrupted(values: Seq<u64>, w: int, col: int) -> Seq<u64> {
    Seq::new(
        values.len(),
        |i: int|
            if i % w == col {
                add_spec(values[i] as int, 1) as u64
            } else {
                values[i]
            },
    )
}

/// Corrupt one column of a trace at every row.
pub fn corrupt(m: Trace, col: usize) -> (t: Trace)
    requires
        m.wf(),
        col < m.width,
        all_canonical(m.values@),
    ensures
        t.width == m.width,
        t.values@ == corrupted(m.values@, m.width as int, col as int),
        t.wf(),
{
    let w = m.width;
    let n = m.values.len();
    let rows = n / w;
    let ghost orig = m.values@;
    let mut values = m.values;
    let mut r: usize = 0;
    proof {
        vstd::arithmetic::div_mod::lemma_fundamental_div_mod(orig.len() as int, w as int);
    }
    while r < rows
        invariant
            w > 0,
            col < w,
            rows == (orig.len() as int) / (w as int),
            (orig.len() as int) % (w as int) == 0,
            orig.len() == w * rows,
            orig.len() == n,
            r <= rows,
            all_canonical(orig),
            values@.len() == orig.len(),
            forall|i: int|
                0 <= i < orig.len() ==> #[trigger] values@[i] == if i % (w as int) == col && i / (
                w as int) < r {
                    add_spec(orig[i] as int, 1) as u64
                } else {
                    orig[i]
                },
        decreases rows - r,
    {
        assert(r * w + col < rows * w) by (nonlinear_arith)
            requires
                r < rows,
                col < w,
        ;
        assert(r * w == w * r) by (nonlinear_arith);
        let at = r * w + col;
        proof {
            vstd::arithmetic::div_mod::lemma_mod_multiples_vanish(r as int, col as int, w as int);
            vstd::arithmetic::div_mod::lemma_small_mod(col as nat, w as nat);
            vstd::arithmetic::div_mod::lemma_div_multiples_vanish_fancy(r as int, col as int, w as int);
            assert(values@[at as int] == orig[at as int]);
        }
        let v = values[at];
        values.set(at, fadd(v, 1));
        proof {
            assert forall|i: int| 0 <= i < orig.len() implies #[trigger] values@[i] == if i % (
            w as int) == col && i / (w as int) < r + 1 {
                add_spec(orig[i] as int, 1) as u64
            } else {
                orig[i]
            } by {
                if i != at {
                    if i % (w as int) == col && i / (w as int) == r {
                        vstd::arithmetic::div_mod::lemma_fundamental_div_mod(i, w as int);
                        assert(i == w * r + col);
                        assert(false);
                    }
                }
            }
        }
        r += 1;
    }
    proof {
        assert forall|i: int| 0 <= i < orig.len() implies #[trigger] values@[i] == corrupted(
            orig,
            w as int,
            col as int,
        )[i] by {
            if i % (w as int) == col {
                vstd::arithmetic::div_mod::lemma_fundamental_div_mod(i, w as int);
                assert(i / (w as int) < rows) by (nonlinear_arith)
                    requires
                        i < w * rows,
                        i == w * (i / (w as int)) + i % (w as int),
                        i % (w as int) >= 0,
                        w > 0,
                ;
            }
        }
        assert(values@ =~= corrupted(orig, w as int, col as int));
    }
    Trace { values, width: w }
}

/// The composed trace with one control applied at every row.
pub fn broken_composed<const R: usize>(rows: usize, how: Break) -> (t: Trace)
    requires
        R == 0 || R == 1,
        rows * (POLICY_WIDTH + 4 * block_width_spec(R as int)) <= usize::MAX,
    ensures
        t.repeats(raise(composed_row_spec(R as int), break_col(R as int, how)), rows as int),
        t.wf(),
        forall|k: int, pv: Seq<u64>|
            0 <= k < rows ==> #[trigger] some_fails(full_steps(R as int), R as int, t.row(k), pv),
{
    let bw = crate::hash::block_width::<R>();
    let pw = POLICY_WIDTH;
    let m = composed_trace::<R>(rows);
    let ghost row = composed_row_spec(R as int);
    proof {
        assert forall|i: int| 0 <= i < m.values@.len() implies #[trigger] m.values@[i] < P by {
            vstd::arithmetic::div_mod::lemma_mod_pos_bound(i, row.len() as int);
            assert(m.values@[i] == row[i % (row.len() as int)]);
        }
    }
    let at = match how {
        Break::Binding => pw,
        Break::Chaining => pw + bw + 4,
        Break::Permutation => pw + 20,
    };
    let t = corrupt(m, at);
    proof {
        let b = raise(row, at as int);
        assert forall|i: int| 0 <= i < t.values@.len() implies #[trigger] t.values@[i] == b[i % (
        b.len() as int)] by {
            vstd::arithmetic::div_mod::lemma_mod_pos_bound(i, row.len() as int);
        }
        if how is Binding {
            assert forall|k: int, pv: Seq<u64>| 0 <= k < rows implies #[trigger] some_fails(
                full_steps(R as int),
                R as int,
                t.row(k),
                pv,
            ) by {
                lemma_repeats_row(t, b, rows as int, k);
                lemma_binding_control_fails(R as int, pv);
            }
        }
        if how is Chaining {
            assert forall|k: int, pv: Seq<u64>| 0 <= k < rows implies #[trigger] some_fails(
                full_steps(R as int),
                R as int,
                t.row(k),
                pv,
            ) by {
                lemma_repeats_row(t, b, rows as int, k);
                lemma_chaining_control_fails(R as int, pv);
            }
        }
        if how is Permutation {
            assert forall|k: int, pv: Seq<u64>| 0 <= k < rows implies #[trigger] some_fails(
                full_steps(R as int),
                R as int,
                t.row(k),
                pv,
            ) by {
                lemma_repeats_row(t, b, rows as int, k);
                lemma_permutation_control_fails(R as int, pv);
            }
        }
    }
    t
}

/// Raising a round state of the first permutation leaves its input lanes as
/// they were, so the block is no longer the trace row of its own input and the
/// row no longer satisfies the opening circuit.
pub proof fn lemma_permutation_control_fails(r: int, pv: Seq<u64>)
    requires
        r == 0 || r == 1,
        forall|i: int| 0 <= i < 4 ==> #[trigger] generated(r, opening_inputs(r)[i]),
        all_canonical(composed_row_spec(r)),
        composed_row_spec(r).len() == POLICY_WIDTH + 4 * block_width_spec(r),
    ensures
        some_fails(full_steps(r), r, raise(composed_row_spec(r), POLICY_WIDTH + 20), pv),
{
    let row = composed_row_spec(r);
    let at = POLICY_WIDTH + 20;
    let bad = raise(row, at);
    let bw = block_width_spec(r);
    let pw = POLICY_WIDTH as int;
    let cpv = commitment_spec(r, absorbed_spec());
    lemma_composed_row_satisfies(r, cpv);
    let ps = crate::air::policy_steps(ALL_CLAUSES@, 0);
    let hs = block_steps(pw, 4, bw);
    assert(policy_width_spec() == POLICY_WIDTH);
    assert(C9_PERMUTATIONS == 4);
    let steps = full_steps(r);
    let idx: int = ps.len() as int;
    assert(steps[idx] == hs[0]);
    assert(hs[0] == Step::Hash(POLICY_WIDTH));
    assert(step_holds(steps[idx], r, row, cpv));
    assert(step_holds(steps[idx], r, row, pv));
    assert(bad.subrange(pw, pw + WIDTH) =~= row.subrange(pw, pw + WIDTH));
    assert(row[at] < P);
    if step_holds(steps[idx], r, bad, pv) {
        assert(bad.subrange(pw, pw + bw)[20] == row.subrange(pw, pw + bw)[20]);
        assert(false);
    }
}

/// Raising the first absorbed lane breaks its binding to the budget column,
/// so the row no longer satisfies the opening circuit.
pub proof fn lemma_binding_control_fails(r: int, pv: Seq<u64>)
    requires
        r == 0 || r == 1,
        forall|i: int| 0 <= i < 4 ==> #[trigger] generated(r, opening_inputs(r)[i]),
        all_canonical(composed_row_spec(r)),
        composed_row_spec(r).len() == POLICY_WIDTH + 4 * block_width_spec(r),
    ensures
        some_fails(full_steps(r), r, raise(composed_row_spec(r), POLICY_WIDTH as int), pv),
{
    let row = composed_row_spec(r);
    let bad = raise(row, POLICY_WIDTH as int);
    let bw = block_width_spec(r);
    let cpv = commitment_spec(r, absorbed_spec());
    lemma_composed_row_satisfies(r, cpv);
    let ps = crate::air::policy_steps(ALL_CLAUSES@, 0);
    let hs = block_steps(POLICY_WIDTH as int, 4, bw);
    let bs = binding_steps(policy_sources(0), POLICY_WIDTH as int, bw);
    let ss = start_steps(POLICY_WIDTH as int, DOMAIN_OPENING);
    let cs = crate::whole::chain_steps(POLICY_WIDTH as int, 16, bw, 4);
    let os = crate::full::commitment_steps(crate::full::full_output_spec(r));
    assert(policy_width_spec() == POLICY_WIDTH);
    assert(C9_PERMUTATIONS == 4);
    let steps = full_steps(r);
    assert(steps == ps + hs + bs + ss + cs + os);
    let idx: int = (ps.len() + hs.len()) as int;
    assert(steps[idx] == bs[0]);
    assert(policy_sources(0)[0] == COL_B);
    assert(crate::full::absorbed_lane(POLICY_WIDTH as int, bw, 0) == POLICY_WIDTH);
    assert(bs[0] == Step::Eq(Expr::Col(COL_B), Expr::Col(POLICY_WIDTH)));
    assert(step_holds(steps[idx], r, row, cpv));
    assert(step_holds(steps[idx], r, row, pv));
    assert(row[COL_B as int] < P && row[POLICY_WIDTH as int] < P);
    assert(row[COL_B as int] == row[POLICY_WIDTH as int]);
    assert(bad[COL_B as int] == row[COL_B as int]);
    assert(row[COL_B as int] == GOOD_BUDGET);
    assert(bad[POLICY_WIDTH as int] == GOOD_BUDGET + 1);
    assert(!step_holds(steps[idx], r, bad, pv));
}


/// Raising the first capacity lane of the second permutation's input breaks
/// its chaining to the first permutation's output, so the row no longer
/// satisfies the opening circuit.
pub proof fn lemma_chaining_control_fails(r: int, pv: Seq<u64>)
    requires
        r == 0 || r == 1,
        forall|i: int| 0 <= i < 4 ==> #[trigger] generated(r, opening_inputs(r)[i]),
        all_canonical(composed_row_spec(r)),
        composed_row_spec(r).len() == POLICY_WIDTH + 4 * block_width_spec(r),
    ensures
        some_fails(full_steps(r), r, raise(composed_row_spec(r), break_col(r, Break::Chaining)), pv),
{
    let row = composed_row_spec(r);
    let bw = block_width_spec(r);
    let pw = POLICY_WIDTH as int;
    let at = pw + bw + 4;
    let bad = raise(row, at);
    let cpv = commitment_spec(r, absorbed_spec());
    lemma_composed_row_satisfies(r, cpv);
    let ps = crate::air::policy_steps(ALL_CLAUSES@, 0);
    let hs = block_steps(pw, 4, bw);
    let bs = binding_steps(policy_sources(0), pw, bw);
    let ss = start_steps(pw, DOMAIN_OPENING);
    let cs = crate::whole::chain_steps(pw, 16, bw, 4);
    let os = crate::full::commitment_steps(crate::full::full_output_spec(r));
    assert(policy_width_spec() == POLICY_WIDTH);
    assert(C9_PERMUTATIONS == 4);
    let steps = full_steps(r);
    assert(steps == ps + hs + bs + ss + cs + os);
    reveal_with_fuel(crate::whole::chain_steps, 4);
    let link = crate::whole::chain_link(pw, 16, bw, 1);
    assert(crate::whole::chain_steps(pw, 16, bw, 1) =~= Seq::<Step>::empty());
    assert(cs[0] == link[0]);
    assert(link[0] == Step::Eq(Expr::Col((pw + bw - 4) as usize), Expr::Col(at as usize)));
    let idx: int = (ps.len() + hs.len() + bs.len() + ss.len()) as int;
    assert(steps[idx] == cs[0]);
    assert(step_holds(steps[idx], r, row, cpv));
    assert(row[pw + bw - 4] < P && row[at] < P);
    crate::field::lemma_canonical_eq(row[pw + bw - 4] as int, row[at] as int);
    assert(bad[pw + bw - 4] == row[pw + bw - 4]);
    assert(bad[at] == (row[at] + 1) % (P as int));
    assert(!step_holds(steps[idx], r, bad, pv));
}

// ---------------------------------------------------------------------------
// The whole compliance row
// ---------------------------------------------------------------------------

/// The leaf both allowlist paths carry: the payee's identifier in the first
/// lane.
pub open spec fn merchant_leaf() -> Seq<u64> {
    seq![99, 0, 0, 0]
}

/// The root both allowlist paths recompute.
pub open spec fn mroot_spec(r: int, md: int) -> Seq<u64> {
    merkle_digest(r, merchant_leaf(), md as nat)
}

/// The root of the revocation accumulator the non-membership path recomputes.
pub open spec fn rroot_spec(r: int, rd: int) -> Seq<u64> {
    merkle_digest(r, nm_leaf(), rd as nat)
}

/// What C9 absorbs: the committed policy's scalars, the allowlist root for
/// both trees, and the blinding value.
pub open spec fn whole_absorbed(amount: u64, cap: u64, mroot: Seq<u64>) -> Seq<u64> {
    Seq::new(7, |e: int| policy_value(amount, cap, POLICY_SCALARS[e] as int)) + mroot + mroot
        + seq![4242u64]
}

/// What C7 absorbs: the payment's fields, the identifiers being the leaf the
/// paths carry.
pub open spec fn payload_elements(amount: u64) -> Seq<u64> {
    seq![amount % P, 99, 99, GOOD_T, 99, 777]
}

/// The payload digest: the first lane of C7's final output.
pub open spec fn payload_digest(r: int, amount: u64) -> u64 {
    perm_out(sponge_spec(r, payload_elements(amount), 4, DOMAIN_PAYLOAD).last())[0]
}

/// The policy columns of the whole row: the policy row, with the roots the
/// paths compute and the leaf identifier in place of the fixed ones.
pub open spec fn whole_policy_cols(amount: u64, cap: u64, mroot: Seq<u64>) -> Seq<u64> {
    Seq::new(
        POLICY_WIDTH as nat,
        |c: int|
            if COL_MROOT <= c < COL_MROOT + DIGEST {
                mroot[c - COL_MROOT]
            } else if COL_CROOT <= c < COL_CROOT + DIGEST {
                mroot[c - COL_CROOT]
            } else if c == COL_MID || c == COL_PAYEE || c == COL_CID {
                99
            } else {
                policy_row_spec(amount, cap)[c]
            },
    )
}

/// The whole row: the policy columns at one cap, the commitment sponge over
/// the policy at another, the payload sponge, both allowlist paths,
/// non-revocation, and the glue (the revocation root, the payload digest and
/// the consumed run).
#[verifier::opaque]
pub open spec fn whole_row_spec(r: int, md: int, rd: int, amount: u64, cap_cols: u64, cap_com: u64) -> Seq<u64> {
    let mroot = mroot_spec(r, md);
    whole_policy_cols(amount, cap_cols, mroot) + concat_rows(
        sponge_spec(r, whole_absorbed(amount, cap_com, mroot), 4, DOMAIN_OPENING),
    ) + concat_rows(sponge_spec(r, payload_elements(amount), 4, DOMAIN_PAYLOAD)) + merkle_row_spec(
        r,
        md as nat,
        merchant_leaf(),
    ) + merkle_row_spec(r, md as nat, merchant_leaf()) + nm_row_spec(r, rd as nat, None)
        + rroot_spec(r, rd) + seq![
        payload_digest(r, amount),
        RUN_START,
        (RUN_START + RUN_UNITS - 1) as u64,
    ]
}

/// The public values of the whole circuit: the payload digest, the
/// revocation root, and the commitment to the policy at `cap`.
pub open spec fn whole_public_values_spec(r: int, md: int, rd: int, amount: u64, cap: u64) -> Seq<u64> {
    seq![payload_digest(r, amount)] + rroot_spec(r, rd) + commitment_spec(
        r,
        whole_absorbed(amount, cap, mroot_spec(r, md)),
    )
}

/// The permutations the whole row's sponges and paths ran through the
/// generator.
pub open spec fn whole_generated(r: int, md: int, rd: int, amount: u64, cap_com: u64) -> bool {
    &&& merkle_generated(r, merchant_leaf(), md as nat)
    &&& merkle_generated(r, nm_leaf(), rd as nat)
    &&& forall|i: int|
        0 <= i < 4 ==> #[trigger] generated(
            r,
            sponge_inputs(
                r,
                sponge_start(4, DOMAIN_OPENING),
                whole_absorbed(amount, cap_com, mroot_spec(r, md)),
                4,
            )[i],
        )
    &&& forall|i: int|
        0 <= i < 2 ==> #[trigger] generated(
            r,
            sponge_inputs(r, sponge_start(4, DOMAIN_PAYLOAD), payload_elements(amount), 4)[i],
        )
}

/// The dimensions the whole witness supports.
pub open spec fn whole_trace_ok(r: int, md: int, rd: int, rows: int) -> bool {
    &&& r == 0 || r == 1
    &&& md >= 0
    &&& rd >= 0
    &&& whole_width_spec(r, md, rd) <= usize::MAX
    &&& rows * whole_width_spec(r, md, rd) <= usize::MAX
}

/// `len` entries of `v` from `start`.
fn copy_range(v: &Vec<u64>, start: usize, len: usize) -> (out: Vec<u64>)
    requires
        start + len <= v@.len(),
    ensures
        out@ == v@.subrange(start as int, start + len),
{
    let mut out: Vec<u64> = Vec::new();
    let n = v.len();
    let mut j: usize = 0;
    while j < len
        invariant
            j <= len,
            n == v@.len(),
            start + len <= v@.len(),
            out@ == v@.subrange(start as int, start + j),
        decreases len - j,
    {
        out.push(v[start + j]);
        j += 1;
        assert(out@ =~= v@.subrange(start as int, start + j));
    }
    out
}

/// The path row's root sits after its levels; the non-membership row's root
/// likewise, followed by the consumed run.
pub proof fn lemma_roots(r: int, md: nat, rd: nat)
    requires
        r == 0 || r == 1,
        merkle_generated(r, merchant_leaf(), md),
        merkle_generated(r, nm_leaf(), rd),
    ensures
        merkle_row_spec(r, md, merchant_leaf()).len() == md * level_width_spec(r) + DIGEST,
        merkle_row_spec(r, md, merchant_leaf()).subrange(
            md * level_width_spec(r),
            md * level_width_spec(r) + DIGEST,
        ) == mroot_spec(r, md as int),
        merkle_row_spec(r, md, merchant_leaf())[0] == 99,
        nm_row_spec(r, rd, None).subrange(
            rd * level_width_spec(r),
            rd * level_width_spec(r) + DIGEST,
        ) == rroot_spec(r, rd as int),
        nm_row_spec(r, rd, None)[rd * level_width_spec(r) + DIGEST] == RUN_START,
        nm_row_spec(r, rd, None)[rd * level_width_spec(r) + DIGEST + 1] == RUN_START + RUN_UNITS - 1,
        nm_row_spec(r, rd, None).len() == nonmembership_width_spec(r, rd as int),
        all_canonical(mroot_spec(r, md as int)),
{
    lemma_merkle_blocks_len(r, merchant_leaf(), md);
    lemma_merkle_digest_len(r, merchant_leaf(), md);
    lemma_merkle_blocks_len(r, nm_leaf(), rd);
    lemma_merkle_digest_len(r, nm_leaf(), rd);
    crate::trace::lemma_merkle_row_leaf(r, md, merchant_leaf());
    let m = merkle_row_spec(r, md, merchant_leaf());
    assert(m.subrange(0, DIGEST as int)[0] == m[0]);
    assert(m.subrange(md * level_width_spec(r), md * level_width_spec(r) + DIGEST) =~= mroot_spec(
        r,
        md as int,
    ));
    let n = nm_row_spec(r, rd, None);
    assert(n.subrange(rd * level_width_spec(r), rd * level_width_spec(r) + DIGEST) =~= rroot_spec(
        r,
        rd as int,
    ));
    crate::trace::lemma_merkle_digest_canonical(r, merchant_leaf(), md);
}

/// The allowlist path row, the non-revocation row, and the two roots they
/// compute.
fn whole_paths<const R: usize, const MD: usize, const RD: usize>() -> (res: (Vec<u64>, Vec<u64>, Vec<u64>, Vec<u64>))
    requires
        whole_trace_ok(R as int, MD as int, RD as int, 1),
    ensures
        res.0@ == merkle_row_spec(R as int, MD as nat, merchant_leaf()),
        res.1@ == nm_row_spec(R as int, RD as nat, None),
        res.2@ == mroot_spec(R as int, MD as int),
        res.3@ == rroot_spec(R as int, RD as int),
        res.2@.len() == DIGEST,
        res.3@.len() == DIGEST,
        all_canonical(res.3@),
        res.0@.len() == merkle_width_spec(R as int, MD as int),
        res.0@.len() > 0,
        res.0@[0] == 99,
        res.1@.len() == nonmembership_width_spec(R as int, RD as int),
        res.1@[RD * level_width_spec(R as int) + DIGEST] == RUN_START,
        res.1@[RD * level_width_spec(R as int) + DIGEST + 1] == RUN_START + RUN_UNITS - 1,
        all_canonical(res.2@),
        merkle_generated(R as int, merchant_leaf(), MD as nat),
        merkle_generated(R as int, nm_leaf(), RD as nat),
{
    proof {
        crate::whole::lemma_whole_offsets(R as int, MD as int, RD as int);
    }
    let bw = block_width::<R>();
    let mk = allowlist_row::<R, MD>();
    let rv = revocation_row::<R, RD>();
    proof {
        lemma_roots(R as int, MD as nat, RD as nat);
    }
    let lw = DIGEST + DIGEST + 1 + bw;
    let mroot = copy_range(&mk, MD * lw, DIGEST);
    let rroot = copy_range(&rv, RD * lw, DIGEST);
    proof {
        crate::trace::lemma_merkle_digest_len(R as int, nm_leaf(), RD as nat);
        crate::trace::lemma_merkle_digest_canonical(R as int, nm_leaf(), RD as nat);
    }
    (mk, rv, mroot, rroot)
}

/// The allowlist path row for the payee's leaf.
fn allowlist_row<const R: usize, const MD: usize>() -> (v: Vec<u64>)
    requires
        R == 0 || R == 1,
        merkle_width_spec(R as int, MD as int) <= usize::MAX,
    ensures
        v@ == merkle_row_spec(R as int, MD as nat, merchant_leaf()),
        merkle_generated(R as int, merchant_leaf(), MD as nat),
{
    let mk = merkle_trace::<R, MD>(1);
    proof {
        crate::trace::lemma_merkle_blocks_len(R as int, merchant_leaf(), MD as nat);
        crate::trace::lemma_merkle_digest_len(R as int, merchant_leaf(), MD as nat);
        crate::table::lemma_repeats_one(mk, merkle_row_spec(R as int, MD as nat, merchant_leaf()));
    }
    mk.values
}

/// The non-revocation row.
fn revocation_row<const R: usize, const RD: usize>() -> (v: Vec<u64>)
    requires
        R == 0 || R == 1,
        nonmembership_width_spec(R as int, RD as int) <= usize::MAX,
    ensures
        v@ == nm_row_spec(R as int, RD as nat, None),
        merkle_generated(R as int, nm_leaf(), RD as nat),
{
    let rv = nonmembership_trace::<R, RD>(1);
    proof {
        crate::trace::lemma_merkle_blocks_len(R as int, nm_leaf(), RD as nat);
        crate::trace::lemma_merkle_digest_len(R as int, nm_leaf(), RD as nat);
        assert(nm_row_spec(R as int, RD as nat, None).len() > 0);
        crate::table::lemma_repeats_one(rv, nm_row_spec(R as int, RD as nat, None));
    }
    rv.values
}

/// The whole row.
fn whole_row<const R: usize, const MD: usize, const RD: usize>(
    amount: u64,
    cap_in_columns: u64,
    cap_committed: u64,
) -> (row: Vec<u64>)
    requires
        whole_trace_ok(R as int, MD as int, RD as int, 1),
        amount <= cap_in_columns,
        amount <= cap_committed,
    ensures
        row@ == whole_row_spec(R as int, MD as int, RD as int, amount, cap_in_columns, cap_committed),
        row@.len() == whole_width_spec(R as int, MD as int, RD as int),
        whole_generated(R as int, MD as int, RD as int, amount, cap_committed),
{
    proof {
        crate::whole::lemma_whole_offsets(R as int, MD as int, RD as int);
    }
    let bw = block_width::<R>();
    let (mk, rv, mroot, rroot) = whole_paths::<R, MD, RD>();
    let (policy, committed) = policy_rows(amount, cap_in_columns, cap_committed);
    let absorbed_v = whole_absorbed_vec(amount, cap_committed, cap_in_columns, &committed, &policy, &mroot);
    let perms = sponge::<R>(absorbed_v.as_slice(), 4, DOMAIN_OPENING);
    let leaf = mk[0];
    let payload_v = payload_vec(amount, cap_in_columns, &policy, leaf);
    let pl_perms = sponge::<R>(payload_v.as_slice(), 4, DOMAIN_PAYLOAD);
    proof {
        lemma_sponge_len(R as int, crate::gen::sponge_start(4, DOMAIN_PAYLOAD), payload_elements(amount));
        lemma_sponge_len(R as int, crate::gen::sponge_start(4, DOMAIN_OPENING), absorbed_v@);
        assert(rows_view(pl_perms@).last() == pl_perms@.last()@);
        lemma_concat_rows_len(rows_view(perms@), block_width_spec(R as int));
        lemma_concat_rows_len(rows_view(pl_perms@), block_width_spec(R as int));
        assert(rows_view(perms@).len() == perms@.len());
        assert(rows_view(pl_perms@).len() == pl_perms@.len());
        assert(pl_perms@.len() == 2);
        assert(perms@.len() == 4);
        assert(pl_perms@[1]@.len() == block_width_spec(R as int));
    }
    let pl_out = perm_output::<R>(pl_perms[pl_perms.len() - 1].as_slice());
    let payload = pl_out[0];
    let prow = whole_policy_row(amount, cap_in_columns, &policy, &mroot, leaf);
    let lw = DIGEST + DIGEST + 1 + bw;
    let run_off = RD * lw + DIGEST;
    let lo = rv[run_off];
    let hi = rv[run_off + 1];
    let row = assemble(prow, &perms, &pl_perms, &mk, &rv, &rroot, payload, lo, hi);
    proof {
        reveal(whole_row_spec);
    }
    assert(row@ == whole_row_spec(R as int, MD as int, RD as int, amount, cap_in_columns, cap_committed));
    proof {
        assert(absorbed_v@ == whole_absorbed(amount, cap_committed, mroot_spec(R as int, MD as int)));
        assert(payload_v@ == payload_elements(amount));
        assert(mk@.len() == merkle_width_spec(R as int, MD as int));
        assert(concat_rows(rows_view(perms@)).len() == 4 * block_width_spec(R as int));
        assert(concat_rows(rows_view(pl_perms@)).len() == 2 * block_width_spec(R as int));
    }
    row
}

/// The policy rows at the two caps.
fn policy_rows(amount: u64, cap_cols: u64, cap_com: u64) -> (res: (Vec<u64>, Vec<u64>))
    requires
        amount <= cap_cols,
        amount <= cap_com,
    ensures
        res.0@ == policy_row_spec(amount, cap_cols),
        res.1@ == policy_row_spec(amount, cap_com),
{
    let policy = policy_trace_full(1, amount, cap_cols);
    let committed = policy_trace_full(1, amount, cap_com);
    proof {
        crate::table::lemma_repeats_one(policy, policy_row_spec(amount, cap_cols));
        crate::table::lemma_repeats_one(committed, policy_row_spec(amount, cap_com));
    }
    (policy.values, committed.values)
}

/// The whole-circuit trace with the cap in the policy columns chosen
/// separately from the cap the commitment opens to. They agree everywhere
/// except in the vacuity demonstration, where a payment complies with a cap
/// in the columns while the commitment carries another.
pub fn whole_trace_full<const R: usize, const MD: usize, const RD: usize>(
    rows: usize,
    amount: u64,
    cap_in_columns: u64,
    cap_committed: u64,
) -> (t: Trace)
    requires
        whole_trace_ok(R as int, MD as int, RD as int, rows as int),
        amount <= cap_in_columns,
        amount <= cap_committed,
    ensures
        t.repeats(
            whole_row_spec(R as int, MD as int, RD as int, amount, cap_in_columns, cap_committed),
            rows as int,
        ),
        t.wf(),
        whole_generated(R as int, MD as int, RD as int, amount, cap_committed),
        cap_in_columns - amount < pow2(RANGE_BITS as nat) ==> forall|k: int, bind: bool|
            0 <= k < rows && (bind ==> cap_in_columns == cap_committed) ==> #[trigger] all_hold(
                crate::whole::whole_steps(R as int, MD as int, RD as int, 0, bind),
                R as int,
                t.row(k),
                whole_public_values_spec(R as int, MD as int, RD as int, amount, cap_committed),
            ),
        cap_in_columns % P != cap_committed % P ==> forall|k: int, pv: Seq<u64>|
            0 <= k < rows ==> !#[trigger] step_holds(
                binding_steps(
                    policy_sources(0),
                    crate::whole::whole_offsets(R as int, MD as int, RD as int).0,
                    block_width_spec(R as int),
                )[1],
                R as int,
                t.row(k),
                pv,
            ),
        cap_in_columns % P != cap_committed % P ==> forall|k: int, pv: Seq<u64>|
            0 <= k < rows ==> #[trigger] some_fails(
                crate::whole::whole_steps(R as int, MD as int, RD as int, 0, true),
                R as int,
                t.row(k),
                pv,
            ),
        cap_in_columns - amount < pow2(RANGE_BITS as nat) ==> forall|k: int, i: int|
            0 <= k < rows && 0 <= i < crate::whole::whole_steps(R as int, MD as int, RD as int, 0, true).len()
                && crate::whole::whole_steps(R as int, MD as int, RD as int, 0, true)[i] != binding_steps(
                policy_sources(0),
                crate::whole::whole_offsets(R as int, MD as int, RD as int).0,
                block_width_spec(R as int),
            )[1] ==> #[trigger] step_holds(
                crate::whole::whole_steps(R as int, MD as int, RD as int, 0, true)[i],
                R as int,
                t.row(k),
                whole_public_values_spec(R as int, MD as int, RD as int, amount, cap_committed),
            ),
{
    let row = whole_row::<R, MD, RD>(amount, cap_in_columns, cap_committed);
    let t = repeat(&row, rows);
    proof {
        if cap_in_columns - amount < pow2(RANGE_BITS as nat) {
            assert forall|k: int, i: int|
                0 <= k < rows && 0 <= i < crate::whole::whole_steps(R as int, MD as int, RD as int, 0, true).len()
                    && crate::whole::whole_steps(R as int, MD as int, RD as int, 0, true)[i] != binding_steps(
                    policy_sources(0),
                    crate::whole::whole_offsets(R as int, MD as int, RD as int).0,
                    block_width_spec(R as int),
                )[1] implies #[trigger] step_holds(
                crate::whole::whole_steps(R as int, MD as int, RD as int, 0, true)[i],
                R as int,
                t.row(k),
                whole_public_values_spec(R as int, MD as int, RD as int, amount, cap_committed),
            ) by {
                lemma_repeats_row(t, row@, rows as int, k);
                crate::acceptance::lemma_whole_row_all_but_cap_binding(
                    R as int,
                    MD as int,
                    RD as int,
                    amount,
                    cap_in_columns,
                    cap_committed,
                    i,
                );
            }
            assert forall|k: int, bind: bool|
                0 <= k < rows && (bind ==> cap_in_columns == cap_committed) implies #[trigger] all_hold(
                crate::whole::whole_steps(R as int, MD as int, RD as int, 0, bind),
                R as int,
                t.row(k),
                whole_public_values_spec(R as int, MD as int, RD as int, amount, cap_committed),
            ) by {
                lemma_repeats_row(t, row@, rows as int, k);
                crate::acceptance::lemma_whole_row_satisfies(
                    R as int,
                    MD as int,
                    RD as int,
                    amount,
                    cap_in_columns,
                    cap_committed,
                    bind,
                );
            }
        }
        if cap_in_columns % P != cap_committed % P {
            assert forall|k: int, pv: Seq<u64>| 0 <= k < rows implies !#[trigger] step_holds(
                binding_steps(
                    policy_sources(0),
                    crate::whole::whole_offsets(R as int, MD as int, RD as int).0,
                    block_width_spec(R as int),
                )[1],
                R as int,
                t.row(k),
                pv,
            ) by {
                lemma_repeats_row(t, row@, rows as int, k);
                crate::acceptance::lemma_whole_row_binding_fails(
                    R as int,
                    MD as int,
                    RD as int,
                    amount,
                    cap_in_columns,
                    cap_committed,
                    pv,
                );
            }
            assert forall|k: int, pv: Seq<u64>| 0 <= k < rows implies #[trigger] some_fails(
                crate::whole::whole_steps(R as int, MD as int, RD as int, 0, true),
                R as int,
                t.row(k),
                pv,
            ) by {
                lemma_repeats_row(t, row@, rows as int, k);
                crate::acceptance::lemma_whole_row_binding_fails(
                    R as int,
                    MD as int,
                    RD as int,
                    amount,
                    cap_in_columns,
                    cap_committed,
                    pv,
                );
            }
        }
    }
    t
}

/// The pieces of the whole row, one after another.
fn assemble(
    prow: Vec<u64>,
    perms: &Vec<Vec<u64>>,
    pl_perms: &Vec<Vec<u64>>,
    mk: &Vec<u64>,
    rv: &Vec<u64>,
    rroot: &Vec<u64>,
    payload: u64,
    lo: u64,
    hi: u64,
) -> (row: Vec<u64>)
    ensures
        row@ == prow@ + concat_rows(rows_view(perms@)) + concat_rows(rows_view(pl_perms@)) + mk@
            + mk@ + rv@ + rroot@ + seq![payload, lo, hi],
{
    let mut row = prow;
    append_rows(&mut row, perms);
    append_rows(&mut row, pl_perms);
    append(&mut row, mk.as_slice());
    append(&mut row, mk.as_slice());
    append(&mut row, rv.as_slice());
    append(&mut row, rroot.as_slice());
    let ghost before = row@;
    row.push(payload);
    row.push(lo);
    row.push(hi);
    assert(row@ =~= before + seq![payload, lo, hi]);
    row
}

/// What C9 absorbs, read off the committed policy's columns.
fn whole_absorbed_vec(
    amount: u64,
    cap_com: u64,
    cap_cols: u64,
    committed: &Vec<u64>,
    policy: &Vec<u64>,
    mroot: &Vec<u64>,
) -> (v: Vec<u64>)
    requires
        committed@ == policy_row_spec(amount, cap_com),
        policy@ == policy_row_spec(amount, cap_cols),
    ensures
        v@ == whole_absorbed(amount, cap_com, mroot@),
{
    let mut v: Vec<u64> = Vec::new();
    v.push(committed[COL_B]);
    v.push(committed[COL_C]);
    v.push(committed[COL_TSTART]);
    v.push(committed[COL_TEXP]);
    v.push(committed[COL_N]);
    v.push(committed[COL_W]);
    v.push(committed[COL_G]);
    append(&mut v, mroot.as_slice());
    append(&mut v, mroot.as_slice());
    v.push(policy[COL_R]);
    assert(v@ =~= whole_absorbed(amount, cap_com, mroot@));
    v
}

/// What C7 absorbs: the payment's columns, with the identifiers read as the
/// leaf the paths carry.
fn payload_vec(amount: u64, cap: u64, policy: &Vec<u64>, leaf: u64) -> (v: Vec<u64>)
    requires
        policy@ == policy_row_spec(amount, cap),
        leaf == 99,
    ensures
        v@ == payload_elements(amount),
{
    let mut v: Vec<u64> = Vec::new();
    let mut e: usize = 0;
    while e < PAYLOAD_ELEMS
        invariant
            e <= PAYLOAD_ELEMS,
            leaf == 99,
            policy@ == policy_row_spec(amount, cap),
            v@ == payload_elements(amount).take(e as int),
        decreases PAYLOAD_ELEMS - e,
    {
        let c = PAYLOAD_SRC[e];
        if c == COL_MID || c == COL_CID || c == COL_PAYEE {
            v.push(leaf);
        } else {
            v.push(policy[c]);
        }
        e += 1;
        assert(v@ =~= payload_elements(amount).take(e as int));
    }
    assert(v@ =~= payload_elements(amount));
    v
}

/// The policy columns of the whole row.
fn whole_policy_row(amount: u64, cap: u64, policy: &Vec<u64>, mroot: &Vec<u64>, leaf: u64) -> (row: Vec<u64>)
    requires
        policy@ == policy_row_spec(amount, cap),
        mroot@.len() == DIGEST,
        leaf == 99,
    ensures
        row@ == whole_policy_cols(amount, cap, mroot@),
{
    let mut row = copy_range(policy, 0, POLICY_WIDTH);
    let mut j: usize = 0;
    while j < DIGEST
        invariant
            j <= DIGEST,
            mroot@.len() == DIGEST,
            row@.len() == POLICY_WIDTH,
            forall|c: int|
                0 <= c < POLICY_WIDTH ==> #[trigger] row@[c] == if COL_MROOT <= c < COL_MROOT + j {
                    mroot@[c - COL_MROOT]
                } else if COL_CROOT <= c < COL_CROOT + j {
                    mroot@[c - COL_CROOT]
                } else {
                    policy_row_spec(amount, cap)[c]
                },
        decreases DIGEST - j,
    {
        row.set(COL_MROOT + j, mroot[j]);
        row.set(COL_CROOT + j, mroot[j]);
        j += 1;
    }
    row.set(COL_MID, leaf);
    row.set(COL_PAYEE, leaf);
    row.set(COL_CID, leaf);
    assert(row@ =~= whole_policy_cols(amount, cap, mroot@));
    row
}

/// The satisfying whole trace.
pub fn whole_trace<const R: usize, const MD: usize, const RD: usize>(rows: usize) -> (t: Trace)
    requires
        whole_trace_ok(R as int, MD as int, RD as int, rows as int),
    ensures
        t.repeats(whole_row_spec(R as int, MD as int, RD as int, GOOD_AMOUNT, GOOD_CAP, GOOD_CAP), rows as int),
        t.wf(),
        whole_generated(R as int, MD as int, RD as int, GOOD_AMOUNT, GOOD_CAP),
        forall|k: int|
            0 <= k < rows ==> #[trigger] all_hold(
                crate::whole::whole_steps(R as int, MD as int, RD as int, 0, true),
                R as int,
                t.row(k),
                whole_public_values_spec(R as int, MD as int, RD as int, GOOD_AMOUNT, GOOD_CAP),
            ),
{
    let t = whole_trace_amount::<R, MD, RD>(rows, GOOD_AMOUNT);
    proof {
        vstd::arithmetic::power2::lemma2_to64();
        vstd::arithmetic::power2::lemma2_to64_rest();
        assert forall|k: int| 0 <= k < rows implies #[trigger] all_hold(
            crate::whole::whole_steps(R as int, MD as int, RD as int, 0, true),
            R as int,
            t.row(k),
            whole_public_values_spec(R as int, MD as int, RD as int, GOOD_AMOUNT, GOOD_CAP),
        ) by {
            assert(all_hold(
                crate::whole::whole_steps(R as int, MD as int, RD as int, 0, true),
                R as int,
                t.row(k),
                whole_public_values_spec(R as int, MD as int, RD as int, GOOD_AMOUNT, GOOD_CAP),
            ));
        }
    }
    t
}

/// The satisfying whole trace at a chosen amount.
pub fn whole_trace_amount<const R: usize, const MD: usize, const RD: usize>(rows: usize, amount: u64) -> (t: Trace)
    requires
        whole_trace_ok(R as int, MD as int, RD as int, rows as int),
        amount <= GOOD_CAP,
    ensures
        t.repeats(whole_row_spec(R as int, MD as int, RD as int, amount, GOOD_CAP, GOOD_CAP), rows as int),
        t.wf(),
        whole_generated(R as int, MD as int, RD as int, amount, GOOD_CAP),
        forall|k: int|
            0 <= k < rows ==> #[trigger] all_hold(
                crate::whole::whole_steps(R as int, MD as int, RD as int, 0, true),
                R as int,
                t.row(k),
                whole_public_values_spec(R as int, MD as int, RD as int, amount, GOOD_CAP),
            ),
{
    let t = whole_trace_full::<R, MD, RD>(rows, amount, GOOD_CAP, GOOD_CAP);
    proof {
        vstd::arithmetic::power2::lemma2_to64();
        vstd::arithmetic::power2::lemma2_to64_rest();
        assert forall|k: int| 0 <= k < rows implies #[trigger] all_hold(
            crate::whole::whole_steps(R as int, MD as int, RD as int, 0, true),
            R as int,
            t.row(k),
            whole_public_values_spec(R as int, MD as int, RD as int, amount, GOOD_CAP),
        ) by {
            assert(all_hold(
                crate::whole::whole_steps(R as int, MD as int, RD as int, 0, true),
                R as int,
                t.row(k),
                whole_public_values_spec(R as int, MD as int, RD as int, amount, GOOD_CAP),
            ));
        }
    }
    t
}


/// The public values a verifier supplies for the whole circuit.
pub fn whole_public_values<const R: usize, const MD: usize, const RD: usize>() -> (v: Vec<u64>)
    requires
        whole_trace_ok(R as int, MD as int, RD as int, 1),
    ensures
        v@ == whole_public_values_spec(R as int, MD as int, RD as int, GOOD_AMOUNT, GOOD_CAP),
{
    whole_public_values_amount::<R, MD, RD>(GOOD_AMOUNT)
}

/// The same values at a chosen amount.
pub fn whole_public_values_amount<const R: usize, const MD: usize, const RD: usize>(amount: u64) -> (v: Vec<u64>)
    requires
        whole_trace_ok(R as int, MD as int, RD as int, 1),
        amount <= GOOD_CAP,
    ensures
        v@ == whole_public_values_spec(R as int, MD as int, RD as int, amount, GOOD_CAP),
{
    whole_public_values_cap::<R, MD, RD>(amount, GOOD_CAP)
}

/// The public values when the committed policy carries a chosen cap: the
/// payload digest, the revocation root, and the commitment.
pub fn whole_public_values_cap<const R: usize, const MD: usize, const RD: usize>(
    amount: u64,
    cap: u64,
) -> (v: Vec<u64>)
    requires
        whole_trace_ok(R as int, MD as int, RD as int, 1),
        amount <= cap,
    ensures
        v@ == whole_public_values_spec(R as int, MD as int, RD as int, amount, cap),
        all_canonical(v@),
{
    let (mk, _rv, mroot, rroot) = whole_paths::<R, MD, RD>();
    let (policy, _committed) = policy_rows(amount, cap, cap);
    let absorbed_v = whole_absorbed_vec(amount, cap, cap, &policy, &policy, &mroot);
    let perms = sponge::<R>(absorbed_v.as_slice(), 4, DOMAIN_OPENING);
    let leaf = mk[0];
    let payload_v = payload_vec(amount, cap, &policy, leaf);
    let pl_perms = sponge::<R>(payload_v.as_slice(), 4, DOMAIN_PAYLOAD);
    proof {
        lemma_sponge_len(R as int, crate::gen::sponge_start(4, DOMAIN_PAYLOAD), payload_elements(amount));
        lemma_sponge_len(R as int, crate::gen::sponge_start(4, DOMAIN_OPENING), absorbed_v@);
        assert(rows_view(pl_perms@).last() == pl_perms@.last()@);
        assert(rows_view(perms@).last() == perms@.last()@);
        assert(rows_view(perms@).len() == perms@.len());
        assert(rows_view(pl_perms@).len() == pl_perms@.len());
        assert(pl_perms@[1]@.len() == block_width_spec(R as int));
        assert(perms@[3]@.len() == block_width_spec(R as int));
    }
    let com = final_digest::<R>(&perms);
    let pl_out = perm_output::<R>(pl_perms[pl_perms.len() - 1].as_slice());
    let mut out: Vec<u64> = Vec::new();
    out.push(pl_out[0]);
    append(&mut out, rroot.as_slice());
    append(&mut out, com.as_slice());
    assert(out@ =~= whole_public_values_spec(R as int, MD as int, RD as int, amount, cap));
    proof {
        let last = pl_perms@[1]@;
        assert(all_canonical(last));
        assert(pl_out@[0] == last[last.len() - WIDTH]);
        let plast = perms@[3]@;
        assert(all_canonical(plast));
        assert forall|k: int| 0 <= k < DIGEST implies #[trigger] com@[k] < P by {
            assert(com@[k] == plast[plast.len() - WIDTH + k]);
        }
        assert forall|k: int| 0 <= k < out@.len() implies #[trigger] out@[k] < P by {
            if 1 <= k < 5 {
                assert(out@[k] == rroot@[k - 1]);
            } else if k >= 5 {
                assert(out@[k] == com@[k - 5]);
            }
        }
    }
    out
}

/// The vacuity demonstration: a payment of 10 against a cap of 1000 in the
/// policy columns, while the commitment opens to a cap of 200.
pub fn vacuous_trace<const R: usize, const MD: usize, const RD: usize>(rows: usize) -> (t: Trace)
    requires
        whole_trace_ok(R as int, MD as int, RD as int, rows as int),
    ensures
        t.repeats(whole_row_spec(R as int, MD as int, RD as int, GOOD_AMOUNT, 1000, GOOD_CAP), rows as int),
        t.wf(),
        forall|k: int|
            0 <= k < rows ==> #[trigger] all_hold(
                crate::whole::whole_steps(R as int, MD as int, RD as int, 0, false),
                R as int,
                t.row(k),
                whole_public_values_spec(R as int, MD as int, RD as int, GOOD_AMOUNT, GOOD_CAP),
            ),
        forall|k: int, pv: Seq<u64>|
            0 <= k < rows ==> #[trigger] some_fails(
                crate::whole::whole_steps(R as int, MD as int, RD as int, 0, true),
                R as int,
                t.row(k),
                pv,
            ),
{
    let t = whole_trace_full::<R, MD, RD>(rows, GOOD_AMOUNT, 1000, GOOD_CAP);
    proof {
        vstd::arithmetic::power2::lemma2_to64();
        vstd::arithmetic::power2::lemma2_to64_rest();
        assert forall|k: int| 0 <= k < rows implies #[trigger] all_hold(
            crate::whole::whole_steps(R as int, MD as int, RD as int, 0, false),
            R as int,
            t.row(k),
            whole_public_values_spec(R as int, MD as int, RD as int, GOOD_AMOUNT, GOOD_CAP),
        ) by {
            assert(all_hold(
                crate::whole::whole_steps(R as int, MD as int, RD as int, 0, false),
                R as int,
                t.row(k),
                whole_public_values_spec(R as int, MD as int, RD as int, GOOD_AMOUNT, GOOD_CAP),
            ));
        }
    }
    t
}

// ---------------------------------------------------------------------------
// The composed row
// ---------------------------------------------------------------------------

/// What a control corrupts in the composed circuit. Each leaves both halves
/// internally satisfied and breaks only the binding between them.
#[derive(Clone, Copy, PartialEq, Eq, Debug, Structural)]
pub enum ComposedBreak {
    /// A policy whose per-payment cap exceeds the budget.
    CapAboveBudget,
    /// The spend component consumes a run one unit later than the run C8 was
    /// checked against.
    RunStartMismatch,
    /// The amount exceeds what the charged units buy.
    AmountRaised,
    /// The amount is low enough that one fewer unit would have covered it.
    AmountLowered,
    /// The witnessed unit size does not divide the committed budget.
    UnitSizeWrong,
}

/// The unit size: the budget over the spendable count.
pub open spec fn unit_size() -> int {
    (GOOD_BUDGET / SPENDABLE) as int
}

/// The units charged: the amount rounded up to whole units, or one more.
pub open spec fn composed_units(how: Option<ComposedBreak>) -> int {
    let u = unit_size();
    let base = (GOOD_AMOUNT + u - 1) / u;
    if how == Some(ComposedBreak::AmountLowered) {
        base + 1
    } else {
        base
    }
}

/// The amount settled: the satisfying amount, or one more than the charged
/// units buy.
pub open spec fn composed_amount(how: Option<ComposedBreak>) -> u64 {
    if how == Some(ComposedBreak::AmountRaised) {
        (composed_units(how) * unit_size() + 1) as u64
    } else {
        GOOD_AMOUNT
    }
}

/// The unit size written into the row.
pub open spec fn unit_written(how: Option<ComposedBreak>) -> u64 {
    if how == Some(ComposedBreak::UnitSizeWrong) {
        (unit_size() + 1) as u64
    } else {
        unit_size() as u64
    }
}

/// The cap, in the policy columns and in the commitment alike.
pub open spec fn composed_cap(how: Option<ComposedBreak>) -> u64 {
    if how == Some(ComposedBreak::CapAboveBudget) {
        (GOOD_BUDGET + 1) as u64
    } else {
        GOOD_CAP
    }
}

/// The three gaps: what the charged units buy over the amount, the amount
/// over what one unit fewer buys, and the budget over the cap.
pub open spec fn composed_gap_values(how: Option<ComposedBreak>) -> Seq<int> {
    let units = composed_units(how);
    let u = unit_written(how) as int;
    let amount = composed_amount(how) as int;
    seq![units * u - amount, amount - (units - 1) * u - 1, GOOD_BUDGET - composed_cap(how)]
}

/// The composed row: the whole row, the spend row for the same payment, the
/// unit size, and the low bits of the three gaps.
pub open spec fn composed_air_row(
    r: int,
    md: int,
    rd: int,
    depth: int,
    cover: int,
    inv: u64,
    how: Option<ComposedBreak>,
) -> Seq<u64> {
    let amount = composed_amount(how);
    let cap = composed_cap(how);
    let g = composed_gap_values(how);
    let m = pow2(RANGE_BITS as nat) as int;
    whole_row_spec(r, md, rd, amount, cap, cap) + spend_row_spec(
        r,
        depth,
        cover,
        payload_digest(r, amount),
        inv,
        Some(composed_units(how) as usize),
        if how == Some(ComposedBreak::RunStartMismatch) { 1 } else { 0 },
        BASE_INDEX as int,
        SPENDABLE as int,
        None,
    ) + seq![unit_written(how)] + bits_seq(g[0] % m) + bits_seq(g[1] % m) + bits_seq(g[2] % m)
}

/// The dimensions the composed witness supports: the index space holds the
/// delegation's padded range, the slots hold the charged units, and the row
/// fits the machine.
pub open spec fn composed_trace_ok(r: int, md: int, rd: int, depth: int, cover: int, rows: int) -> bool {
    let w = whole_width_spec(r, md, rd) + spend_row_width(cover, block_width_spec(r)) + 1 + 3
        * RANGE_BITS;
    &&& whole_trace_ok(r, md, rd, 1)
    &&& 11 <= depth <= 63
    &&& 4 <= cover
    &&& SPENDABLE + cover + 3 <= usize::MAX
    &&& spend_row_width(cover, block_width_spec(r)) <= usize::MAX
    &&& w <= usize::MAX
    &&& rows * w <= usize::MAX
}

/// The composed trace, or `None` where the payload digest is zero and so
/// cannot serve as a share index.
pub fn composed_air_trace<
    const R: usize,
    const MD: usize,
    const RD: usize,
    const DEPTH: usize,
    const COVER: usize,
>(rows: usize) -> (t: Option<Trace>)
    requires
        composed_trace_ok(R as int, MD as int, RD as int, DEPTH as int, COVER as int, rows as int),
    ensures
        t is None <==> payload_digest(R as int, composed_amount(None)) == 0,
        t matches Some(t) ==> t.wf() && exists|inv: u64|
            inv < P && mul_spec(payload_digest(R as int, composed_amount(None)) as int, inv as int) == 1
                && #[trigger] t.repeats(
                composed_air_row(R as int, MD as int, RD as int, DEPTH as int, COVER as int, inv, None),
                rows as int,
            ),
        DEPTH <= 40 ==> (t matches Some(t) ==> forall|k: int|
            0 <= k < rows ==> #[trigger] all_hold(
                crate::composed::composed_steps(R as int, MD as int, RD as int, DEPTH as int, COVER as int),
                R as int,
                t.row(k),
                whole_public_values_spec(R as int, MD as int, RD as int, composed_amount(None), composed_cap(None)),
            )),
{
    build_composed::<R, MD, RD, DEPTH, COVER>(rows, None)
}

/// The composed trace with a control applied.
pub fn broken_composed_air<
    const R: usize,
    const MD: usize,
    const RD: usize,
    const DEPTH: usize,
    const COVER: usize,
>(rows: usize, how: ComposedBreak) -> (t: Option<Trace>)
    requires
        composed_trace_ok(R as int, MD as int, RD as int, DEPTH as int, COVER as int, rows as int),
    ensures
        t is None <==> payload_digest(R as int, composed_amount(Some(how))) == 0,
        t matches Some(t) ==> t.wf() && exists|inv: u64|
            inv < P && mul_spec(payload_digest(R as int, composed_amount(Some(how))) as int, inv as int)
                == 1 && #[trigger] t.repeats(
                composed_air_row(R as int, MD as int, RD as int, DEPTH as int, COVER as int, inv, Some(how)),
                rows as int,
            ),
        t matches Some(t) ==> forall|k: int, pv: Seq<u64>|
            0 <= k < rows ==> #[trigger] some_fails(
                crate::composed::composed_steps(R as int, MD as int, RD as int, DEPTH as int, COVER as int),
                R as int,
                t.row(k),
                pv,
            ),
        t matches Some(t) ==> forall|k: int|
            0 <= k < rows ==> #[trigger] all_hold(
                crate::whole::whole_steps(R as int, MD as int, RD as int, 0, true),
                R as int,
                t.row(k).subrange(0, whole_width_spec(R as int, MD as int, RD as int)),
                whole_public_values_spec(R as int, MD as int, RD as int, composed_amount(Some(how)), composed_cap(Some(how))),
            ),
        DEPTH <= 40 ==> (t matches Some(t) ==> forall|k: int|
            0 <= k < rows ==> #[trigger] all_hold(
                crate::spend::spend_steps(
                    R as int,
                    DEPTH as nat,
                    COVER as int,
                    whole_width_spec(R as int, MD as int, RD as int),
                    false,
                ),
                R as int,
                t.row(k),
                whole_public_values_spec(R as int, MD as int, RD as int, composed_amount(Some(how)), composed_cap(Some(how))),
            )),
{
    build_composed::<R, MD, RD, DEPTH, COVER>(rows, Some(how))
}

/// The amount, units, unit size and cap a control sets.
fn composed_params(how: Option<ComposedBreak>) -> (res: (u64, u64, u64, u64))
    ensures
        res.0 == composed_units(how),
        res.1 == composed_amount(how),
        res.2 == unit_written(how),
        res.3 == composed_cap(how),
        res.0 <= 4,
        res.1 <= 13,
        res.2 <= 5,
        res.1 <= res.3,
{
    let u = GOOD_BUDGET / SPENDABLE;
    assert(u == 4);
    assert(unit_size() == 4);
    let amount0 = GOOD_AMOUNT;
    let units = match how {
        Some(ComposedBreak::AmountLowered) => (amount0 + u - 1) / u + 1,
        _ => (amount0 + u - 1) / u,
    };
    let amount = match how {
        Some(ComposedBreak::AmountRaised) => units * u + 1,
        _ => amount0,
    };
    let u_written = match how {
        Some(ComposedBreak::UnitSizeWrong) => u + 1,
        _ => u,
    };
    let cap = match how {
        Some(ComposedBreak::CapAboveBudget) => GOOD_BUDGET + 1,
        _ => GOOD_CAP,
    };
    (units, amount, u_written, cap)
}

/// The unit size and the low bits of the three gaps.
fn composed_tail(how: Option<ComposedBreak>) -> (v: Vec<u64>)
    ensures
        v@ == ({
            let g = composed_gap_values(how);
            let m = pow2(RANGE_BITS as nat) as int;
            seq![unit_written(how)] + bits_seq(g[0] % m) + bits_seq(g[1] % m) + bits_seq(g[2] % m)
        }),
{
    let (units, amount, u_written, cap) = composed_params(how);
    assert(units * u_written <= 20) by (nonlinear_arith)
        requires
            units <= 4,
            u_written <= 5,
    ;
    assert((units - 1) * u_written <= 20) by (nonlinear_arith)
        requires
            units <= 4,
            u_written <= 5,
    ;
    let gaps: [i128; 3] = [
        units as i128 * u_written as i128 - amount as i128,
        amount as i128 - (units as i128 - 1) * u_written as i128 - 1,
        GOOD_BUDGET as i128 - cap as i128,
    ];
    let ghost g = composed_gap_values(how);
    let ghost m = pow2(RANGE_BITS as nat) as int;
    let mut v: Vec<u64> = Vec::new();
    v.push(u_written);
    let b0 = bits_of(low_bits(gaps[0]));
    let b1 = bits_of(low_bits(gaps[1]));
    let b2 = bits_of(low_bits(gaps[2]));
    assert(b0@ =~= bits_seq(g[0] % m));
    assert(b1@ =~= bits_seq(g[1] % m));
    assert(b2@ =~= bits_seq(g[2] % m));
    append(&mut v, b0.as_slice());
    append(&mut v, b1.as_slice());
    append(&mut v, b2.as_slice());
    v
}

/// The spend row of the composed trace: the payment's units charged against
/// the delegation, with the payload digest as the share index.
fn composed_spend<const R: usize, const DEPTH: usize, const COVER: usize>(
    how: Option<ComposedBreak>,
    payload: u64,
) -> (row: Vec<u64>)
    requires
        R == 0 || R == 1,
        0 < payload < P,
        11 <= DEPTH <= 63,
        4 <= COVER,
        SPENDABLE + COVER + 3 <= usize::MAX,
        spend_row_width(COVER as int, block_width_spec(R as int)) <= usize::MAX,
    ensures
        row@[crate::spend::COL_INDEX_INV as int] < P,
        mul_spec(payload as int, row@[crate::spend::COL_INDEX_INV as int] as int) == 1,
        row@.len() == spend_row_width(COVER as int, block_width_spec(R as int)),
        row@ == spend_row_spec(
            R as int,
            DEPTH as int,
            COVER as int,
            payload,
            row@[crate::spend::COL_INDEX_INV as int],
            Some(composed_units(how) as usize),
            if how == Some(ComposedBreak::RunStartMismatch) { 1 } else { 0 },
            BASE_INDEX as int,
            SPENDABLE as int,
            None,
        ),
        spend_row_ok(
            R as int,
            DEPTH as int,
            COVER as int,
            payload,
            Some(composed_units(how) as usize),
            if how == Some(ComposedBreak::RunStartMismatch) { 1 } else { 0 },
            BASE_INDEX as int,
            SPENDABLE as int,
            None,
        ),
        all_canonical(row@),
        crate::spend_trace::slots_generated(
            R as int,
            payload,
            BASE_INDEX as int,
            crate::spend_trace::row_offset(
                COVER as int,
                Some(composed_units(how) as usize),
                SPENDABLE as int,
                if how == Some(ComposedBreak::RunStartMismatch) { 1 } else { 0 },
                None,
            ),
            crate::spend_trace::run_units(
                COVER as int,
                Some(composed_units(how) as usize),
                SPENDABLE as int,
                if how == Some(ComposedBreak::RunStartMismatch) { 1 } else { 0 },
            ),
            COVER as int,
        ),
{
    let (units, _, _, _) = composed_params(how);
    let off_delta: usize = match how {
        Some(ComposedBreak::RunStartMismatch) => 1,
        _ => 0,
    };
    spend_row::<R, DEPTH, COVER>(payload, Some(units as usize), off_delta, BASE_INDEX as usize, SPENDABLE as usize, None)
}

/// The composed trace: both halves generated from one set of parameters.
/// The spend half takes the payload digest as its share index, which must be
/// non-zero; where it is zero there is no trace and the result is `None`.
pub fn build_composed<
    const R: usize,
    const MD: usize,
    const RD: usize,
    const DEPTH: usize,
    const COVER: usize,
>(rows: usize, how: Option<ComposedBreak>) -> (t: Option<Trace>)
    requires
        composed_trace_ok(R as int, MD as int, RD as int, DEPTH as int, COVER as int, rows as int),
    ensures
        t is None <==> payload_digest(R as int, composed_amount(how)) == 0,
        t matches Some(t) ==> t.wf() && exists|inv: u64|
            inv < P && mul_spec(payload_digest(R as int, composed_amount(how)) as int, inv as int) == 1
                && #[trigger] t.repeats(
                composed_air_row(R as int, MD as int, RD as int, DEPTH as int, COVER as int, inv, how),
                rows as int,
            ),
        t matches Some(t) ==> forall|k: int|
            0 <= k < rows ==> #[trigger] all_hold(
                crate::whole::whole_steps(R as int, MD as int, RD as int, 0, true),
                R as int,
                t.row(k).subrange(0, whole_width_spec(R as int, MD as int, RD as int)),
                whole_public_values_spec(R as int, MD as int, RD as int, composed_amount(how), composed_cap(how)),
            ),
        how is Some ==> (t matches Some(t) ==> forall|k: int, pv: Seq<u64>|
            0 <= k < rows ==> #[trigger] some_fails(
                crate::composed::composed_steps(R as int, MD as int, RD as int, DEPTH as int, COVER as int),
                R as int,
                t.row(k),
                pv,
            )),
        DEPTH <= 40 ==> (t matches Some(t) ==> forall|k: int|
            0 <= k < rows ==> #[trigger] all_hold(
                crate::spend::spend_steps(
                    R as int,
                    DEPTH as nat,
                    COVER as int,
                    whole_width_spec(R as int, MD as int, RD as int),
                    false,
                ),
                R as int,
                t.row(k),
                whole_public_values_spec(R as int, MD as int, RD as int, composed_amount(how), composed_cap(how)),
            )),
        how is None && DEPTH <= 40 ==> (t matches Some(t) ==> forall|k: int|
            0 <= k < rows ==> #[trigger] all_hold(
                crate::composed::composed_steps(R as int, MD as int, RD as int, DEPTH as int, COVER as int),
                R as int,
                t.row(k),
                whole_public_values_spec(R as int, MD as int, RD as int, composed_amount(None), composed_cap(None)),
            )),
{
    let (_, amount, _, cap) = composed_params(how);
    let whole = whole_row::<R, MD, RD>(amount, cap, cap);
    let pv = whole_public_values_cap::<R, MD, RD>(amount, cap);
    let payload = pv[0];
    assert(payload == payload_digest(R as int, composed_amount(how)));
    if payload == 0 {
        return None;
    }
    let spend = composed_spend::<R, DEPTH, COVER>(how, payload);
    let ghost inv = spend@[crate::spend::COL_INDEX_INV as int];
    let tail = composed_tail(how);
    assert(tail@.len() == 1 + 3 * RANGE_BITS);
    let mut row = whole;
    append(&mut row, spend.as_slice());
    append(&mut row, tail.as_slice());
    assert(row@ == composed_air_row(R as int, MD as int, RD as int, DEPTH as int, COVER as int, inv, how));
    let t = repeat(&row, rows);
    assert(how is Some ==> forall|k: int, pv: Seq<u64>|
        0 <= k < rows ==> #[trigger] some_fails(
            crate::composed::composed_steps(R as int, MD as int, RD as int, DEPTH as int, COVER as int),
            R as int,
            t.row(k),
            pv,
        )) by {
        if how is Some {
            let b = how.unwrap();
            crate::whole::lemma_whole_offsets(R as int, MD as int, RD as int);
            assert(crate::composed::composed_width_spec(R as int, MD as int, RD as int, COVER as int)
                == whole_width_spec(R as int, MD as int, RD as int) + spend_row_width(COVER as int, block_width_spec(R as int))
                + 1 + 3 * RANGE_BITS);
            assert forall|k: int, pv: Seq<u64>| 0 <= k < rows implies #[trigger] some_fails(
                crate::composed::composed_steps(R as int, MD as int, RD as int, DEPTH as int, COVER as int),
                R as int,
                t.row(k),
                pv,
            ) by {
                lemma_repeats_row(t, row@, rows as int, k);
                crate::composed_controls::lemma_composed_control_fails(
                    R as int,
                    MD as int,
                    RD as int,
                    DEPTH as int,
                    COVER as int,
                    inv,
                    b,
                    pv,
                );
            }
        }
    }
    assert(t.repeats(
        composed_air_row(R as int, MD as int, RD as int, DEPTH as int, COVER as int, inv, how),
        rows as int,
    ));
    assert forall|k: int| 0 <= k < rows implies #[trigger] all_hold(
        crate::whole::whole_steps(R as int, MD as int, RD as int, 0, true),
        R as int,
        t.row(k).subrange(0, whole_width_spec(R as int, MD as int, RD as int)),
        whole_public_values_spec(R as int, MD as int, RD as int, composed_amount(how), composed_cap(how)),
    ) by {
        lemma_repeats_row(t, row@, rows as int, k);
        vstd::arithmetic::power2::lemma2_to64();
        vstd::arithmetic::power2::lemma2_to64_rest();
        assert(whole@ == whole_row_spec(R as int, MD as int, RD as int, amount, cap, cap));
        assert(t.row(k).subrange(0, whole_width_spec(R as int, MD as int, RD as int)) =~= whole@);
        crate::acceptance::lemma_whole_row_satisfies(R as int, MD as int, RD as int, amount, cap, cap, true);
    }
    assert(DEPTH <= 40 ==> forall|k: int|
        0 <= k < rows ==> #[trigger] all_hold(
            crate::spend::spend_steps(
                R as int,
                DEPTH as nat,
                COVER as int,
                whole_width_spec(R as int, MD as int, RD as int),
                false,
            ),
            R as int,
            t.row(k),
            whole_public_values_spec(R as int, MD as int, RD as int, composed_amount(how), composed_cap(how)),
        )) by {
        if DEPTH <= 40 {
            assert(crate::composed_accept::composed_row_ok(
                R as int,
                MD as int,
                RD as int,
                DEPTH as int,
                COVER as int,
                inv,
                how,
            ));
            assert forall|k: int| 0 <= k < rows implies #[trigger] all_hold(
                crate::spend::spend_steps(
                    R as int,
                    DEPTH as nat,
                    COVER as int,
                    whole_width_spec(R as int, MD as int, RD as int),
                    false,
                ),
                R as int,
                t.row(k),
                whole_public_values_spec(R as int, MD as int, RD as int, composed_amount(how), composed_cap(how)),
            ) by {
                lemma_repeats_row(t, row@, rows as int, k);
                crate::composed_accept::lemma_composed_spend_half(
                    R as int,
                    MD as int,
                    RD as int,
                    DEPTH as int,
                    COVER as int,
                    inv,
                    how,
                    whole_public_values_spec(R as int, MD as int, RD as int, composed_amount(how), composed_cap(how)),
                );
            }
        }
    }
    assert(how is None && DEPTH <= 40 ==> forall|k: int|
        0 <= k < rows ==> #[trigger] all_hold(
            crate::composed::composed_steps(R as int, MD as int, RD as int, DEPTH as int, COVER as int),
            R as int,
            t.row(k),
            whole_public_values_spec(R as int, MD as int, RD as int, composed_amount(None), composed_cap(None)),
        )) by {
        if how is None && DEPTH <= 40 {
            assert(crate::composed_accept::composed_row_ok(
                R as int,
                MD as int,
                RD as int,
                DEPTH as int,
                COVER as int,
                inv,
                None,
            ));
            assert forall|k: int| 0 <= k < rows implies #[trigger] all_hold(
                crate::composed::composed_steps(R as int, MD as int, RD as int, DEPTH as int, COVER as int),
                R as int,
                t.row(k),
                whole_public_values_spec(R as int, MD as int, RD as int, composed_amount(None), composed_cap(None)),
            ) by {
                lemma_repeats_row(t, row@, rows as int, k);
                crate::composed_accept::lemma_composed_row_accepted(
                    R as int,
                    MD as int,
                    RD as int,
                    DEPTH as int,
                    COVER as int,
                    inv,
                );
            }
        }
    }
    assert(t.wf());
    assert(inv < P);
    assert(mul_spec(payload_digest(R as int, composed_amount(how)) as int, inv as int) == 1);
    Some(t)
}


// ---------------------------------------------------------------------------
// What the opening witness satisfies
// ---------------------------------------------------------------------------

/// Block `i` of a concatenation of equal-width blocks sits at `i * w`.
pub proof fn lemma_concat_rows_block(rows: Seq<Seq<u64>>, w: int, i: int)
    requires
        w >= 0,
        0 <= i < rows.len(),
        forall|k: int| 0 <= k < rows.len() ==> (#[trigger] rows[k]).len() == w,
    ensures
        concat_rows(rows).subrange(i * w, i * w + w) == rows[i],
        concat_rows(rows).len() == rows.len() * w,
    decreases rows.len(),
{
    lemma_concat_rows_len(rows, w);
    lemma_concat_rows_len(rows.drop_last(), w);
    let n = rows.len() - 1;
    if i < n {
        lemma_concat_rows_block(rows.drop_last(), w, i);
        assert(i * w + w <= n * w) by (nonlinear_arith)
            requires
                i < n,
                w >= 0,
        ;
        assert(concat_rows(rows).subrange(i * w, i * w + w) =~= concat_rows(rows.drop_last()).subrange(
            i * w,
            i * w + w,
        ));
    } else {
        assert(concat_rows(rows).subrange(i * w, i * w + w) =~= rows.last());
    }
}

/// Block `i` of the blocks following a prefix sits at the prefix's length
/// plus `i * w`.
pub proof fn lemma_block_after(prefix: Seq<u64>, rows: Seq<Seq<u64>>, w: int, i: int)
    requires
        w >= 0,
        0 <= i < rows.len(),
        forall|k: int| 0 <= k < rows.len() ==> (#[trigger] rows[k]).len() == w,
    ensures
        (prefix + concat_rows(rows)).subrange(prefix.len() + i * w, prefix.len() + i * w + w) == rows[i],
        forall|j: int| 0 <= j < w ==> #[trigger] (prefix + concat_rows(rows))[prefix.len() + i * w + j] == rows[i][j],
{
    lemma_concat_rows_block(rows, w, i);
    let c = concat_rows(rows);
    assert(i * w + w <= rows.len() * w) by (nonlinear_arith)
        requires
            i < rows.len(),
            w >= 0,
    ;
    assert forall|j: int| 0 <= j < w implies #[trigger] (prefix + c)[prefix.len() + i * w + j] == rows[i][j] by {
        assert(c.subrange(i * w, i * w + w)[j] == c[i * w + j]);
    }
    assert((prefix + c).subrange(prefix.len() + i * w, prefix.len() + i * w + w) =~= rows[i]);
}

/// The policy circuit reads only the policy columns.
pub proof fn lemma_policy_within(r: int)
    ensures
        steps_within(crate::air::policy_steps(ALL_CLAUSES@, 0), r, POLICY_WIDTH as int),
{
    crate::trace::lemma_all_clauses_steps();
    let d = crate::air::direct_steps(ALL_CLAUSES@, 0);
    let g = crate::air::all_gaps(ALL_CLAUSES@, 0);
    assert(steps_within(d, r, POLICY_WIDTH as int));
    assert(g.len() == 3);
    reveal_with_fuel(crate::expr::expr_cols_below, 3);
    assert(crate::expr::expr_cols_below(g[0], POLICY_WIDTH as int));
    assert(crate::expr::expr_cols_below(g[1], POLICY_WIDTH as int));
    assert(crate::expr::expr_cols_below(g[2], POLICY_WIDTH as int));
    crate::air::lemma_range_blocks_within(g, crate::air::VALUE_COLS as int, r, POLICY_WIDTH as int);
    crate::expr::lemma_within_concat(
        d,
        crate::air::range_blocks_spec(g, crate::air::VALUE_COLS as int),
        r,
        POLICY_WIDTH as int,
    );
}

/// The policy elements C9 absorbs are the satisfying policy's columns.
proof fn lemma_absorbed_matches(e: int)
    requires
        0 <= e < 16,
    ensures
        policy_row_spec(GOOD_AMOUNT, GOOD_CAP)[crate::air::policy_src_spec(e)] == absorbed_spec()[e],
{
}

/// The inputs of the commitment sponge over the satisfying policy.
pub open spec fn opening_inputs(r: int) -> Seq<Seq<u64>> {
    sponge_inputs(r, sponge_start(4, DOMAIN_OPENING), absorbed_spec(), 4)
}

/// The composed row satisfies every constraint of the policy-plus-opening
/// circuit against the commitment it computes: the clauses, the
/// permutations, the binding of each absorbed lane to its policy column, the
/// sponge's starting state and chaining, and the commitment.
pub proof fn lemma_composed_row_satisfies(r: int, pv: Seq<u64>)
    requires
        r == 0 || r == 1,
        forall|i: int| 0 <= i < 4 ==> #[trigger] generated(r, opening_inputs(r)[i]),
        pv == commitment_spec(r, absorbed_spec()),
    ensures
        all_hold(full_steps(r), r, composed_row_spec(r), pv),
{
    let bw = block_width_spec(r);
    let pw = POLICY_WIDTH as int;
    let pol = policy_row_spec(GOOD_AMOUNT, GOOD_CAP);
    let ins = opening_inputs(r);
    let blocks = sponge_spec(r, absorbed_spec(), 4, DOMAIN_OPENING);
    let row = composed_row_spec(r);
    lemma_sponge_rows(r, sponge_start(4, DOMAIN_OPENING), absorbed_spec(), 4);
    lemma_sponge_lanes(r, sponge_start(4, DOMAIN_OPENING), absorbed_spec());
    assert(ins.len() == 4);
    assert forall|k: int| 0 <= k < blocks.len() implies (#[trigger] blocks[k]).len() == bw by {
        assert(generated(r, ins[k]));
    }
    lemma_concat_rows_len(blocks, bw);
    assert(row.len() == pw + 4 * bw);
    // The clauses read only the policy columns, which the row starts with.
    crate::full::lemma_all_clauses_gaps();
    vstd::arithmetic::power2::lemma2_to64();
    vstd::arithmetic::power2::lemma2_to64_rest();
    crate::trace::lemma_policy_row_satisfies(GOOD_AMOUNT, GOOD_CAP, r, pv);
    lemma_policy_within(r);
    assert(row.subrange(0, pw) =~= pol.subrange(0, pw));
    lemma_steps_frame(crate::air::policy_steps(ALL_CLAUSES@, 0), r, row, pol, pv, pw);
    // Each block is the generator's row for its own input lanes.
    let hs = block_steps(pw, 4, bw);
    assert forall|i: int| 0 <= i < hs.len() implies #[trigger] step_holds(hs[i], r, row, pv) by {
        lemma_block_after(pol, blocks, bw, i);
        assert(generated(r, ins[i]));
        assert(i * bw + bw <= 4 * bw) by (nonlinear_arith)
            requires
                0 <= i < 4,
                bw >= 0,
        ;
        let start = pw + i * bw;
        assert(row.subrange(start, start + bw) == blocks[i]);
        assert(row.subrange(start, start + WIDTH as int) =~= row.subrange(start, start + bw).subrange(
            0,
            WIDTH as int,
        ));
        assert(blocks[i] == poseidon2_trace_row(r, ins[i]));
    }
    // Each absorbed lane equals the policy column it is drawn from.
    let bs = binding_steps(policy_sources(0), pw, bw);
    assert forall|e: int| 0 <= e < bs.len() implies #[trigger] step_holds(bs[e], r, row, pv) by {
        let i = e / 4;
        let j = e % 4;
        lemma_block_after(pol, blocks, bw, i);
        assert(generated(r, ins[i]));
        lemma_absorbed_matches(e);
        let lane = crate::full::absorbed_lane(pw, bw, e);
        let src = crate::air::policy_src_spec(e);
        assert(0 <= j < 4);
        assert(0 <= i < 4);
        assert(i * bw + j < 4 * bw) by (nonlinear_arith)
            requires
                0 <= i < 4,
                0 <= j < 4,
                bw >= 8,
        ;
        assert(lane == pol.len() + i * bw + j);
        assert(0 <= lane < 1000);
        assert(row[lane] == blocks[i][j]);
        assert(blocks[i][j] == blocks[i].subrange(0, WIDTH as int)[j]);
        assert(ins[e / 4][e % 4] == absorbed_spec()[e]);
        assert(0 <= src < pw);
        assert(row[src] == pol[src]);
        assert(policy_sources(0)[e] == src as usize);
        assert(bs[e] == Step::Eq(Expr::Col(src as usize), Expr::Col(lane as usize)));
        assert(eval(Expr::Col(src as usize), row, pv) == row[src]);
        assert(eval(Expr::Col(lane as usize), row, pv) == row[lane]);
    }
    // The sponge starts at its separator.
    let ss = start_steps(pw, DOMAIN_OPENING);
    lemma_block_after(pol, blocks, bw, 0);
    assert(generated(r, ins[0]));
    assert forall|q: int| 0 <= q < 4 implies #[trigger] row[pw + 4 + q] == ins[0][4 + q] by {
        assert(row[pw + 4 + q] == blocks[0][4 + q]);
        assert(blocks[0][4 + q] == blocks[0].subrange(0, WIDTH as int)[4 + q]);
    }
    crate::gen::lemma_sponge_first(r, sponge_start(4, DOMAIN_OPENING), absorbed_spec(), 4);
    crate::gen::lemma_sponge_first(r, sponge_start(4, DOMAIN_OPENING), absorbed_spec(), 5);
    crate::gen::lemma_sponge_first(r, sponge_start(4, DOMAIN_OPENING), absorbed_spec(), 6);
    crate::gen::lemma_sponge_first(r, sponge_start(4, DOMAIN_OPENING), absorbed_spec(), 7);
    assert forall|q: int| 0 <= q < ss.len() implies #[trigger] step_holds(ss[q], r, row, pv) by {
        assert(row[pw + 4 + q] == ins[0][4 + q]);
    }
    assert(policy_width_spec() == pw);
    assert(C9_PERMUTATIONS == 4);
    lemma_all_hold_concat(crate::air::policy_steps(ALL_CLAUSES@, 0), hs, r, row, pv);
    lemma_all_hold_concat(crate::air::policy_steps(ALL_CLAUSES@, 0) + hs, bs, r, row, pv);
    lemma_all_hold_concat(crate::air::policy_steps(ALL_CLAUSES@, 0) + hs + bs, ss, r, row, pv);
    // Each step carries the previous step's output.
    let state = sponge_start(4, DOMAIN_OPENING);
    crate::acceptance::lemma_sponge_blocks(r, state, absorbed_spec(), 4, true);
    assert forall|i: int, j: int| 0 <= i < blocks.len() && 0 <= j < bw implies row[pw + i * bw + j]
        == #[trigger] blocks[i][j] by {
        lemma_block_after(pol, blocks, bw, i);
    }
    assert(crate::acceptance::holds_blocks(row, pw, blocks, bw));
    crate::acceptance::lemma_chain_holds(r, row, pw, state, absorbed_spec(), 4, pv);
    let cs = crate::whole::chain_steps(pw, 16, bw, 4);
    lemma_all_hold_concat(crate::air::policy_steps(ALL_CLAUSES@, 0) + hs + bs + ss, cs, r, row, pv);
    // The final output's first lanes are the commitment.
    let last = crate::full::full_output_spec(r);
    let os = crate::full::commitment_steps(last);
    assert(last == pw + 3 * bw + bw - WIDTH);
    assert forall|j: int| 0 <= j < os.len() implies #[trigger] step_holds(os[j], r, row, pv) by {
        lemma_block_after(pol, blocks, bw, 3);
        assert(blocks.last() == blocks[3]);
        assert(row[last + j] == blocks[3][bw - WIDTH + j]);
        assert(perm_out(blocks[3])[j] == blocks[3][bw - WIDTH + j]);
        assert(pv[j] == blocks[3][bw - WIDTH + j]);
    }
    lemma_all_hold_concat(crate::air::policy_steps(ALL_CLAUSES@, 0) + hs + bs + ss + cs, os, r, row, pv);
}

/// The commitment a verifier holds does not move with the payment's amount:
/// of the public values, only the payload digest depends on it.
pub proof fn lemma_commitment_ignores_amount(r: int, md: int, rd: int, a1: u64, a2: u64, cap: u64)
    ensures
        whole_public_values_spec(r, md, rd, a1, cap).skip(1) == whole_public_values_spec(
            r,
            md,
            rd,
            a2,
            cap,
        ).skip(1),
{
    let m = mroot_spec(r, md);
    assert(whole_absorbed(a1, cap, m) =~= whole_absorbed(a2, cap, m));
    assert(whole_public_values_spec(r, md, rd, a1, cap).skip(1) =~= rroot_spec(r, rd)
        + commitment_spec(r, whole_absorbed(a1, cap, m)));
    assert(whole_public_values_spec(r, md, rd, a2, cap).skip(1) =~= rroot_spec(r, rd)
        + commitment_spec(r, whole_absorbed(a2, cap, m)));
}
} // verus!
