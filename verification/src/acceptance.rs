//! What the whole compliance witness satisfies: every constraint of the whole
//! circuit, against the public values computed from the same pieces.
use crate::air::{
    policy_src_spec, policy_steps, ALL_CLAUSES, COL_CID, COL_CROOT, COL_MID, COL_MROOT, COL_PAYEE,
    DIGEST, PAYLOAD_SRC,
};
use crate::expr::{all_hold, eval, step_holds, Expr, Step};
use crate::field::{all_canonical, P};
use crate::gen::{
    generated, lemma_sponge_lanes, lemma_sponge_rows, perm_out, poseidon2_trace_row, sponge_inputs,
    sponge_spec, sponge_start,
};
use crate::hash::{block_width_spec, DOMAIN_OPENING, DOMAIN_PAYLOAD, WIDTH};
use crate::merkle::{level_width_spec, merkle_width_spec};
use crate::revocation::nonmembership_width_spec;
use crate::trace::{merkle_row_spec, nm_row_spec, policy_row_spec, POLICY_WIDTH, RUN_START, RUN_UNITS};
use crate::whole::whole_offsets;
use crate::witness::{
    concat_rows, lemma_concat_rows_block, lemma_concat_rows_len, merchant_leaf, mroot_spec,
    payload_digest, payload_elements, rroot_spec, whole_absorbed, whole_generated, whole_policy_cols,
    whole_row_spec, whole_trace_ok,
};
use vstd::prelude::*;

verus! {

/// The commitment sponge's blocks over the committed policy.
pub open spec fn opening_blocks(r: int, md: int, amount: u64, cap_com: u64) -> Seq<Seq<u64>> {
    sponge_spec(r, whole_absorbed(amount, cap_com, mroot_spec(r, md)), 4, DOMAIN_OPENING)
}

/// The commitment sponge's inputs over the committed policy.
pub open spec fn opening_ins(r: int, md: int, amount: u64, cap_com: u64) -> Seq<Seq<u64>> {
    sponge_inputs(r, sponge_start(4, DOMAIN_OPENING), whole_absorbed(amount, cap_com, mroot_spec(r, md)), 4)
}

/// The payload sponge's blocks.
pub open spec fn payload_blocks(r: int, amount: u64) -> Seq<Seq<u64>> {
    sponge_spec(r, payload_elements(amount), 4, DOMAIN_PAYLOAD)
}

/// The payload sponge's inputs.
pub open spec fn payload_ins(r: int, amount: u64) -> Seq<Seq<u64>> {
    sponge_inputs(r, sponge_start(4, DOMAIN_PAYLOAD), payload_elements(amount), 4)
}

/// The facts about one sponge's blocks the layout rests on: each block is
/// the generator's row for its input, as wide as a block, starting with that
/// input.
pub proof fn lemma_sponge_blocks(r: int, state: Seq<u64>, elements: Seq<u64>, n: int, domain_start: bool)
    requires
        r == 0 || r == 1,
        n == (elements.len() + 3) / 4,
        forall|i: int| 0 <= i < n ==> #[trigger] generated(r, sponge_inputs(r, state, elements, 4)[i]),
    ensures
        crate::gen::sponge_from(r, state, elements, 4).len() == n,
        sponge_inputs(r, state, elements, 4).len() == n,
        forall|i: int|
            0 <= i < n ==> #[trigger] crate::gen::sponge_from(r, state, elements, 4)[i]
                == poseidon2_trace_row(r, sponge_inputs(r, state, elements, 4)[i]),
        forall|i: int|
            0 <= i < n ==> (#[trigger] crate::gen::sponge_from(r, state, elements, 4)[i]).len()
                == block_width_spec(r),
        forall|i: int, j: int|
            0 <= i < n && 0 <= j < WIDTH ==> #[trigger] crate::gen::sponge_from(r, state, elements, 4)[i][j]
                == sponge_inputs(r, state, elements, 4)[i][j],
{
    lemma_sponge_rows(r, state, elements, 4);
    lemma_sponge_lanes(r, state, elements);
    let rows = crate::gen::sponge_from(r, state, elements, 4);
    let ins = sponge_inputs(r, state, elements, 4);
    assert forall|i: int, j: int| 0 <= i < n && 0 <= j < WIDTH implies #[trigger] rows[i][j] == ins[i][j] by {
        assert(generated(r, ins[i]));
        assert(rows[i].subrange(0, WIDTH as int)[j] == rows[i][j]);
    }
    assert forall|i: int| 0 <= i < n implies (#[trigger] rows[i]).len() == block_width_spec(r) by {
        assert(generated(r, ins[i]));
    }
}

/// Where each part of the whole row sits.
pub proof fn lemma_whole_layout(r: int, md: int, rd: int, amount: u64, cap_cols: u64, cap_com: u64)
    requires
        whole_trace_ok(r, md, rd, 1),
        whole_generated(r, md, rd, amount, cap_com),
    ensures
        ({
            let w = whole_row_spec(r, md, rd, amount, cap_cols, cap_com);
            let o = whole_offsets(r, md, rd);
            let bw = block_width_spec(r);
            let b9 = opening_blocks(r, md, amount, cap_com);
            let b7 = payload_blocks(r, amount);
            let pc = whole_policy_cols(amount, cap_cols, mroot_spec(r, md));
            let mw = merkle_width_spec(r, md);
            let nw = nonmembership_width_spec(r, rd);
            &&& o.0 == POLICY_WIDTH
            &&& w.len() == o.5 + DIGEST + 3
            &&& b9.len() == 4
            &&& b7.len() == 2
            &&& forall|j: int| 0 <= j < POLICY_WIDTH ==> #[trigger] w[j] == pc[j]
            &&& forall|i: int, j: int|
                0 <= i < 4 && 0 <= j < bw ==> w[o.0 + i * bw + j] == #[trigger] b9[i][j]
            &&& forall|i: int, j: int|
                0 <= i < 2 && 0 <= j < bw ==> w[o.1 + i * bw + j] == #[trigger] b7[i][j]
            &&& w.subrange(o.2, o.2 + mw) == merkle_row_spec(r, md as nat, merchant_leaf())
            &&& w.subrange(o.3, o.3 + mw) == merkle_row_spec(r, md as nat, merchant_leaf())
            &&& w.subrange(o.4, o.4 + nw) == nm_row_spec(r, rd as nat, None)
            &&& forall|j: int| 0 <= j < DIGEST ==> #[trigger] w[o.5 + j] == rroot_spec(r, rd)[j]
            &&& w[o.5 + DIGEST] == payload_digest(r, amount)
            &&& w[o.5 + DIGEST + 1] == RUN_START
            &&& w[o.5 + DIGEST + 2] == RUN_START + RUN_UNITS - 1
        }),
{
    reveal(whole_row_spec);
    let w = whole_row_spec(r, md, rd, amount, cap_cols, cap_com);
    let o = whole_offsets(r, md, rd);
    let bw = block_width_spec(r);
    let b9 = opening_blocks(r, md, amount, cap_com);
    let b7 = payload_blocks(r, amount);
    let mroot = mroot_spec(r, md);
    let pc = whole_policy_cols(amount, cap_cols, mroot);
    let mrow = merkle_row_spec(r, md as nat, merchant_leaf());
    let nrow = nm_row_spec(r, rd as nat, None);
    let mw = merkle_width_spec(r, md);
    let nw = nonmembership_width_spec(r, rd);
    crate::whole::lemma_whole_offsets(r, md, rd);
    crate::witness::lemma_roots(r, md as nat, rd as nat);
    crate::trace::lemma_merkle_digest_len(r, crate::trace::nm_leaf(), rd as nat);
    crate::trace::lemma_merkle_digest_len(r, merchant_leaf(), md as nat);
    let a = whole_absorbed(amount, cap_com, mroot);
    assert(a.len() == 16);
    lemma_sponge_blocks(r, sponge_start(4, DOMAIN_OPENING), a, 4, true);
    lemma_sponge_blocks(r, sponge_start(4, DOMAIN_PAYLOAD), payload_elements(amount), 2, true);
    lemma_concat_rows_len(b9, bw);
    lemma_concat_rows_len(b7, bw);
    assert(crate::full::policy_width_spec() == POLICY_WIDTH);
    let s9 = concat_rows(b9);
    let s7 = concat_rows(b7);
    let rr = rroot_spec(r, rd);
    let g = seq![payload_digest(r, amount), RUN_START, (RUN_START + RUN_UNITS - 1) as u64];
    let x1 = pc + s9;
    let x2 = x1 + s7;
    let x3 = x2 + mrow;
    let x4 = x3 + mrow;
    let x5 = x4 + nrow;
    let x6 = x5 + rr;
    assert(w == x6 + g);
    assert(x1.len() == o.1);
    assert(x2.len() == o.2);
    assert(x3.len() == o.3);
    assert(x4.len() == o.4);
    assert(x5.len() == o.5);
    assert forall|j: int| 0 <= j < POLICY_WIDTH implies #[trigger] w[j] == pc[j] by {
        assert(w[j] == x6[j]);
        assert(x6[j] == x5[j]);
        assert(x5[j] == x4[j]);
        assert(x4[j] == x3[j]);
        assert(x3[j] == x2[j]);
        assert(x2[j] == x1[j]);
    }
    assert forall|i: int, j: int| 0 <= i < 4 && 0 <= j < bw implies w[o.0 + i * bw + j] == #[trigger] b9[i][j] by {
        lemma_concat_rows_block(b9, bw, i);
        assert(i * bw + j < 4 * bw) by (nonlinear_arith)
            requires
                0 <= i < 4,
                0 <= j < bw,
        ;
        let k = o.0 + i * bw + j;
        assert(s9.subrange(i * bw, i * bw + bw)[j] == s9[i * bw + j]);
        assert(x1[k] == s9[i * bw + j]);
        assert(w[k] == x6[k]);
        assert(x6[k] == x5[k]);
        assert(x5[k] == x4[k]);
        assert(x4[k] == x3[k]);
        assert(x3[k] == x2[k]);
        assert(x2[k] == x1[k]);
    }
    assert forall|i: int, j: int| 0 <= i < 2 && 0 <= j < bw implies w[o.1 + i * bw + j] == #[trigger] b7[i][j] by {
        lemma_concat_rows_block(b7, bw, i);
        assert(i * bw + j < 2 * bw) by (nonlinear_arith)
            requires
                0 <= i < 2,
                0 <= j < bw,
        ;
        let k = o.1 + i * bw + j;
        assert(s7.subrange(i * bw, i * bw + bw)[j] == s7[i * bw + j]);
        assert(x2[k] == s7[i * bw + j]);
        assert(w[k] == x6[k]);
        assert(x6[k] == x5[k]);
        assert(x5[k] == x4[k]);
        assert(x4[k] == x3[k]);
        assert(x3[k] == x2[k]);
    }
    assert(w.subrange(o.2, o.2 + mw) =~= mrow) by {
        assert forall|j: int| 0 <= j < mw implies #[trigger] w[o.2 + j] == mrow[j] by {
            let k = o.2 + j;
            assert(w[k] == x6[k]);
            assert(x6[k] == x5[k]);
            assert(x5[k] == x4[k]);
            assert(x4[k] == x3[k]);
        }
    }
    assert(w.subrange(o.3, o.3 + mw) =~= mrow) by {
        assert forall|j: int| 0 <= j < mw implies #[trigger] w[o.3 + j] == mrow[j] by {
            let k = o.3 + j;
            assert(w[k] == x6[k]);
            assert(x6[k] == x5[k]);
            assert(x5[k] == x4[k]);
        }
    }
    assert(w.subrange(o.4, o.4 + nw) =~= nrow) by {
        assert forall|j: int| 0 <= j < nw implies #[trigger] w[o.4 + j] == nrow[j] by {
            let k = o.4 + j;
            assert(w[k] == x6[k]);
            assert(x6[k] == x5[k]);
        }
    }
    assert forall|j: int| 0 <= j < DIGEST implies #[trigger] w[o.5 + j] == rr[j] by {
        let k = o.5 + j;
        assert(w[k] == x6[k]);
    }
}


/// The whole row's policy columns satisfy the policy circuit: they differ
/// from the satisfying policy row only in columns the clauses do not read,
/// and in the payee and merchant columns, which agree.
pub proof fn lemma_policy_cols_satisfy(amount: u64, cap: u64, mroot: Seq<u64>, r: int, pv: Seq<u64>)
    requires
        amount <= cap,
        cap - amount < vstd::arithmetic::power2::pow2(crate::air::RANGE_BITS as nat),
    ensures
        all_hold(policy_steps(ALL_CLAUSES@, 0), r, whole_policy_cols(amount, cap, mroot), pv),
{
    let row = whole_policy_cols(amount, cap, mroot);
    let base = policy_row_spec(amount, cap);
    crate::trace::lemma_all_clauses_steps();
    vstd::arithmetic::power2::lemma2_to64();
    vstd::arithmetic::power2::lemma2_to64_rest();
    reveal_with_fuel(eval, 2);
    let d = crate::air::direct_steps(ALL_CLAUSES@, 0);
    assert forall|i: int| 0 <= i < d.len() implies #[trigger] step_holds(d[i], r, row, pv) by {}
    let g0 = Expr::Sub(Box::new(Expr::Col(crate::air::COL_C)), Box::new(Expr::Col(crate::air::COL_AMOUNT)));
    let g1 = Expr::Sub(Box::new(Expr::Col(crate::air::COL_T)), Box::new(Expr::Col(crate::air::COL_TSTART)));
    let g2 = Expr::Sub(Box::new(Expr::Col(crate::air::COL_TEXP)), Box::new(Expr::Col(crate::air::COL_T)));
    let vc = crate::air::VALUE_COLS as int;
    let rb = crate::air::RANGE_BITS as int;
    assert(eval(g0, row, pv) == (cap % P) - (amount % P));
    crate::trace::lemma_reduced_gap(cap as int, amount as int);
    assert(eval(g1, row, pv) == crate::trace::GOOD_T - crate::trace::GOOD_T_START);
    assert(eval(g2, row, pv) == crate::trace::GOOD_T_EXP - crate::trace::GOOD_T);
    assert forall|k: int| 0 <= k < rb implies row[vc + k] == #[trigger] crate::air::bit(
        cap - amount,
        k as nat,
    ) by {
        assert(row[vc + k] == base[vc + k]);
    }
    assert forall|k: int| 0 <= k < rb implies row[vc + rb + k] == #[trigger] crate::air::bit(
        crate::trace::GOOD_T - crate::trace::GOOD_T_START,
        k as nat,
    ) by {
        assert(row[vc + rb + k] == base[vc + rb + k]);
    }
    assert forall|k: int| 0 <= k < rb implies row[vc + 2 * rb + k] == #[trigger] crate::air::bit(
        crate::trace::GOOD_T_EXP - crate::trace::GOOD_T,
        k as nat,
    ) by {
        assert(row[vc + 2 * rb + k] == base[vc + 2 * rb + k]);
    }
    crate::air::lemma_range_block_holds(g0, vc, row, pv, r, cap - amount);
    crate::air::lemma_range_block_holds(g1, vc + rb, row, pv, r, crate::trace::GOOD_T - crate::trace::GOOD_T_START);
    crate::air::lemma_range_block_holds(g2, vc + 2 * rb, row, pv, r, crate::trace::GOOD_T_EXP - crate::trace::GOOD_T);
    let b0 = crate::air::range_block_spec(g0, vc);
    let b1 = crate::air::range_block_spec(g1, vc + rb);
    let b2 = crate::air::range_block_spec(g2, vc + 2 * rb);
    crate::expr::lemma_all_hold_concat(b0, b1, r, row, pv);
    crate::expr::lemma_all_hold_concat(b0 + b1, b2, r, row, pv);
    crate::expr::lemma_all_hold_concat(d, b0 + b1 + b2, r, row, pv);
}

/// The whole row satisfies the policy circuit.
pub proof fn lemma_whole_policy(r: int, md: int, rd: int, amount: u64, cap_cols: u64, cap_com: u64, pv: Seq<u64>)
    requires
        whole_trace_ok(r, md, rd, 1),
        whole_generated(r, md, rd, amount, cap_com),
        amount <= cap_cols,
        cap_cols - amount < vstd::arithmetic::power2::pow2(crate::air::RANGE_BITS as nat),
    ensures
        all_hold(policy_steps(ALL_CLAUSES@, 0), r, whole_row_spec(r, md, rd, amount, cap_cols, cap_com), pv),
{
    let w = whole_row_spec(r, md, rd, amount, cap_cols, cap_com);
    let pc = whole_policy_cols(amount, cap_cols, mroot_spec(r, md));
    lemma_whole_layout(r, md, rd, amount, cap_cols, cap_com);
    lemma_policy_cols_satisfy(amount, cap_cols, mroot_spec(r, md), r, pv);
    crate::witness::lemma_policy_within(r);
    let pw = POLICY_WIDTH as int;
    assert(w.subrange(0, pw) =~= pc.subrange(0, pw));
    crate::expr::lemma_steps_frame(policy_steps(ALL_CLAUSES@, 0), r, w, pc, pv, pw);
}

/// Every permutation block of both sponges is the generator's row for its
/// own input lanes.
pub proof fn lemma_whole_blocks(r: int, md: int, rd: int, amount: u64, cap_cols: u64, cap_com: u64, pv: Seq<u64>)
    requires
        whole_trace_ok(r, md, rd, 1),
        whole_generated(r, md, rd, amount, cap_com),
    ensures
        ({
            let o = whole_offsets(r, md, rd);
            let bw = block_width_spec(r);
            let w = whole_row_spec(r, md, rd, amount, cap_cols, cap_com);
            &&& all_hold(crate::full::block_steps(o.0, 4, bw), r, w, pv)
            &&& all_hold(crate::full::block_steps(o.1, 2, bw), r, w, pv)
        }),
{
    let o = whole_offsets(r, md, rd);
    let bw = block_width_spec(r);
    let w = whole_row_spec(r, md, rd, amount, cap_cols, cap_com);
    let b9 = opening_blocks(r, md, amount, cap_com);
    let b7 = payload_blocks(r, amount);
    let a = whole_absorbed(amount, cap_com, mroot_spec(r, md));
    lemma_whole_layout(r, md, rd, amount, cap_cols, cap_com);
    crate::whole::lemma_whole_offsets(r, md, rd);
    crate::trace::lemma_merkle_digest_len(r, merchant_leaf(), md as nat);
    assert(a.len() == 16);
    lemma_sponge_blocks(r, sponge_start(4, DOMAIN_OPENING), a, 4, true);
    lemma_sponge_blocks(r, sponge_start(4, DOMAIN_PAYLOAD), payload_elements(amount), 2, true);
    let h9 = crate::full::block_steps(o.0, 4, bw);
    assert forall|i: int| 0 <= i < h9.len() implies #[trigger] step_holds(h9[i], r, w, pv) by {
        let s = o.0 + i * bw;
        assert(i * bw + bw <= 4 * bw) by (nonlinear_arith)
            requires
                0 <= i < 4,
                bw >= 0,
        ;
        assert(w.subrange(s, s + bw) =~= b9[i]) by {
            assert forall|j: int| 0 <= j < bw implies #[trigger] w.subrange(s, s + bw)[j] == b9[i][j] by {
                assert(w[o.0 + i * bw + j] == b9[i][j]);
            }
        }
        assert(w.subrange(s, s + WIDTH as int) =~= w.subrange(s, s + bw).subrange(0, WIDTH as int));
        assert(b9[i].subrange(0, WIDTH as int) =~= opening_ins(r, md, amount, cap_com)[i]) by {
            assert forall|j: int| 0 <= j < WIDTH implies #[trigger] b9[i].subrange(0, WIDTH as int)[j]
                == opening_ins(r, md, amount, cap_com)[i][j] by {
                assert(b9[i][j] == opening_ins(r, md, amount, cap_com)[i][j]);
            }
            assert(generated(r, opening_ins(r, md, amount, cap_com)[i]));
        }
    }
    let h7 = crate::full::block_steps(o.1, 2, bw);
    assert forall|i: int| 0 <= i < h7.len() implies #[trigger] step_holds(h7[i], r, w, pv) by {
        let s = o.1 + i * bw;
        assert(i * bw + bw <= 2 * bw) by (nonlinear_arith)
            requires
                0 <= i < 2,
                bw >= 0,
        ;
        assert(w.subrange(s, s + bw) =~= b7[i]) by {
            assert forall|j: int| 0 <= j < bw implies #[trigger] w.subrange(s, s + bw)[j] == b7[i][j] by {
                assert(w[o.1 + i * bw + j] == b7[i][j]);
            }
        }
        assert(w.subrange(s, s + WIDTH as int) =~= w.subrange(s, s + bw).subrange(0, WIDTH as int));
        assert(b7[i].subrange(0, WIDTH as int) =~= payload_ins(r, amount)[i]) by {
            assert forall|j: int| 0 <= j < WIDTH implies #[trigger] b7[i].subrange(0, WIDTH as int)[j]
                == payload_ins(r, amount)[i][j] by {
                assert(b7[i][j] == payload_ins(r, amount)[i][j]);
            }
            assert(generated(r, payload_ins(r, amount)[i]));
        }
    }
}

/// Both allowlist paths and non-revocation hold where the whole row places
/// them.
pub proof fn lemma_whole_paths(r: int, md: int, rd: int, amount: u64, cap_cols: u64, cap_com: u64, pv: Seq<u64>)
    requires
        whole_trace_ok(r, md, rd, 1),
        whole_generated(r, md, rd, amount, cap_com),
    ensures
        ({
            let o = whole_offsets(r, md, rd);
            let w = whole_row_spec(r, md, rd, amount, cap_cols, cap_com);
            &&& all_hold(crate::expr::shift_steps(crate::merkle::merkle_steps(r, 0, md), o.2), r, w, pv)
            &&& all_hold(crate::expr::shift_steps(crate::merkle::merkle_steps(r, 0, md), o.3), r, w, pv)
            &&& all_hold(crate::expr::shift_steps(crate::revocation::nonmembership_steps(r, rd, 0), o.4), r, w, pv)
        }),
{
    let o = whole_offsets(r, md, rd);
    let w = whole_row_spec(r, md, rd, amount, cap_cols, cap_com);
    let mrow = merkle_row_spec(r, md as nat, merchant_leaf());
    let nrow = nm_row_spec(r, rd as nat, None);
    lemma_whole_layout(r, md, rd, amount, cap_cols, cap_com);
    crate::whole::lemma_whole_offsets(r, md, rd);
    crate::witness::lemma_roots(r, md as nat, rd as nat);
    crate::trace::lemma_merkle_row_satisfies(r, md as nat, md as nat, merchant_leaf(), pv);
    crate::trace::lemma_nm_row(r, rd as nat, None, pv);
    crate::merkle::lemma_merkle_within(r, 0, md, md);
    crate::revocation::lemma_nonmembership_within(r, rd);
    crate::expr::lemma_shift_holds(crate::merkle::merkle_steps(r, 0, md), r, mrow, w, o.2, pv);
    crate::expr::lemma_shift_holds(crate::merkle::merkle_steps(r, 0, md), r, mrow, w, o.3, pv);
    crate::expr::lemma_shift_holds(crate::revocation::nonmembership_steps(r, rd, 0), r, nrow, w, o.4, pv);
}

/// A row holds a sponge's blocks one after another from `start`.
pub open spec fn holds_blocks(w: Seq<u64>, start: int, blocks: Seq<Seq<u64>>, bw: int) -> bool {
    forall|i: int, j: int|
        0 <= i < blocks.len() && 0 <= j < bw ==> w[start + i * bw + j] == #[trigger] blocks[i][j]
}

/// The facts a sponge's blocks carry once generated: each is the
/// generator's row for its input, a block wide, starting with that input.
pub open spec fn sponge_ok(r: int, state: Seq<u64>, elements: Seq<u64>) -> bool {
    let n = (elements.len() + 3) / 4;
    let blocks = crate::gen::sponge_from(r, state, elements, 4);
    let ins = sponge_inputs(r, state, elements, 4);
    &&& blocks.len() == n
    &&& ins.len() == n
    &&& forall|i: int| 0 <= i < n ==> #[trigger] blocks[i] == poseidon2_trace_row(r, ins[i])
    &&& forall|i: int| 0 <= i < n ==> (#[trigger] blocks[i]).len() == block_width_spec(r)
    &&& forall|i: int, j: int| 0 <= i < n && 0 <= j < WIDTH ==> #[trigger] blocks[i][j] == ins[i][j]
}

/// The chaining between a sponge's steps holds of a row holding its blocks.
pub proof fn lemma_chain_holds(
    r: int,
    w: Seq<u64>,
    start: int,
    state: Seq<u64>,
    elements: Seq<u64>,
    k: int,
    pv: Seq<u64>,
)
    requires
        r == 0 || r == 1,
        sponge_ok(r, state, elements),
        holds_blocks(w, start, crate::gen::sponge_from(r, state, elements, 4), block_width_spec(r)),
        0 <= start,
        start + ((elements.len() + 3) / 4) * block_width_spec(r) <= w.len(),
        w.len() <= usize::MAX,
        k <= (elements.len() + 3) / 4,
    ensures
        all_hold(crate::whole::chain_steps(start, elements.len() as int, block_width_spec(r), k), r, w, pv),
    decreases k,
{
    let bw = block_width_spec(r);
    let n = (elements.len() + 3) / 4;
    let blocks = crate::gen::sponge_from(r, state, elements, 4);
    let ins = sponge_inputs(r, state, elements, 4);
    if k > 1 {
        lemma_chain_holds(r, w, start, state, elements, k - 1, pv);
        let i = k - 1;
        let link = crate::whole::chain_link(start, elements.len() as int, bw, i);
        let taken = if 4 < elements.len() - i * 4 { 4 } else { elements.len() - i * 4 };
        assert(i * 4 < elements.len());
        assert(i * bw + bw <= n * bw) by (nonlinear_arith)
            requires
                i < n,
                bw >= 0,
        ;
        assert((i - 1) * bw + bw == i * bw) by (nonlinear_arith);
        assert(link.len() == WIDTH - taken);
        assert forall|q: int| 0 <= q < link.len() implies #[trigger] step_holds(link[q], r, w, pv) by {
            let lane = taken + q;
            assert(lane < WIDTH);
            crate::gen::lemma_sponge_chain(r, state, elements, i, lane);
            let a = start + (i - 1) * bw + (bw - WIDTH + lane);
            let b = start + i * bw + lane;
            assert(w[a] == blocks[i - 1][bw - WIDTH + lane]);
            assert(w[b] == blocks[i][lane]);
            assert(blocks[i][lane] == ins[i][lane]);
            assert(blocks[i - 1] == poseidon2_trace_row(r, ins[i - 1]));
            assert(perm_out(blocks[i - 1])[lane] == blocks[i - 1][bw - WIDTH + lane]);
            assert(a < w.len() && b < w.len());
            assert(link[q] == Step::Eq(Expr::Col(a as usize), Expr::Col(b as usize)));
        }
        crate::expr::lemma_all_hold_concat(
            crate::whole::chain_steps(start, elements.len() as int, bw, k - 1),
            link,
            r,
            w,
            pv,
        );
    }
}

/// A sponge's starting state holds of a row holding its blocks.
pub proof fn lemma_start_holds(r: int, w: Seq<u64>, start: int, domain: u64, elements: Seq<u64>, pv: Seq<u64>)
    requires
        r == 0 || r == 1,
        domain < P,
        elements.len() > 0,
        sponge_ok(r, sponge_start(4, domain), elements),
        holds_blocks(w, start, crate::gen::sponge_from(r, sponge_start(4, domain), elements, 4), block_width_spec(r)),
        0 <= start,
        start + block_width_spec(r) <= w.len(),
        w.len() <= usize::MAX,
    ensures
        all_hold(crate::full::start_steps(start, domain), r, w, pv),
{
    let blocks = crate::gen::sponge_from(r, sponge_start(4, domain), elements, 4);
    let ins = sponge_inputs(r, sponge_start(4, domain), elements, 4);
    let ss = crate::full::start_steps(start, domain);
    assert forall|q: int| 0 <= q < 4 implies #[trigger] w[start + 4 + q] == sponge_start(4, domain)[4 + q] by {
        crate::gen::lemma_sponge_first(r, sponge_start(4, domain), elements, 4 + q);
        assert(w[start + 0 * block_width_spec(r) + (4 + q)] == blocks[0][4 + q]);
        assert(blocks[0][4 + q] == ins[0][4 + q]);
    }
    assert forall|q: int| 0 <= q < ss.len() implies #[trigger] step_holds(ss[q], r, w, pv) by {
        assert(w[start + 4 + q] == sponge_start(4, domain)[4 + q]);
    }
}

/// Each absorbed lane equals its source column, for a row whose source
/// columns hold the elements and which holds the sponge's blocks.
pub proof fn lemma_binding_holds(
    r: int,
    w: Seq<u64>,
    srcs: Seq<usize>,
    start: int,
    state: Seq<u64>,
    elements: Seq<u64>,
    pv: Seq<u64>,
)
    requires
        r == 0 || r == 1,
        srcs.len() == elements.len(),
        forall|e: int| 0 <= e < srcs.len() ==> #[trigger] w[srcs[e] as int] == elements[e],
        forall|e: int| 0 <= e < srcs.len() ==> (#[trigger] srcs[e]) < w.len(),
        sponge_ok(r, state, elements),
        holds_blocks(w, start, crate::gen::sponge_from(r, state, elements, 4), block_width_spec(r)),
        0 <= start,
        start + ((elements.len() + 3) / 4) * block_width_spec(r) <= w.len(),
        w.len() <= usize::MAX,
    ensures
        all_hold(crate::full::binding_steps(srcs, start, block_width_spec(r)), r, w, pv),
{
    let bw = block_width_spec(r);
    let n = (elements.len() + 3) / 4;
    let blocks = crate::gen::sponge_from(r, state, elements, 4);
    let ins = sponge_inputs(r, state, elements, 4);
    lemma_sponge_lanes(r, state, elements);
    let bs = crate::full::binding_steps(srcs, start, bw);
    assert forall|e: int| 0 <= e < bs.len() implies #[trigger] step_holds(bs[e], r, w, pv) by {
        let i = e / 4;
        let j = e % 4;
        assert(i < n);
        assert(i * bw + j < n * bw) by (nonlinear_arith)
            requires
                0 <= i < n,
                0 <= j < 4,
                bw >= 8,
        ;
        let lane = crate::full::absorbed_lane(start, bw, e);
        assert(lane == start + i * bw + j);
        assert(w[lane] == blocks[i][j]);
        assert(blocks[i][j] == ins[i][j]);
        assert(ins[e / 4][e % 4] == elements[e]);
        assert(w[srcs[e] as int] == elements[e]);
    }
}

/// The policy columns of the whole row hold what C9 absorbs, element for
/// element.
proof fn lemma_policy_cols_absorbed(amount: u64, cap: u64, mroot: Seq<u64>, e: int)
    requires
        0 <= e < 16,
        mroot.len() == DIGEST,
    ensures
        whole_policy_cols(amount, cap, mroot)[policy_src_spec(e)] == whole_absorbed(amount, cap, mroot)[e],
        0 <= policy_src_spec(e) < POLICY_WIDTH,
{
}

/// The payment columns of the whole row hold what C7 absorbs.
proof fn lemma_payload_cols(amount: u64, cap: u64, mroot: Seq<u64>, e: int)
    requires
        0 <= e < 6,
    ensures
        whole_policy_cols(amount, cap, mroot)[PAYLOAD_SRC[e] as int] == payload_elements(amount)[e],
        0 <= PAYLOAD_SRC[e] < POLICY_WIDTH,
{
}

/// The sponges of the whole row carry the facts the generator gave.
proof fn lemma_whole_sponges(r: int, md: int, rd: int, amount: u64, cap_com: u64)
    requires
        whole_trace_ok(r, md, rd, 1),
        whole_generated(r, md, rd, amount, cap_com),
    ensures
        sponge_ok(r, sponge_start(4, DOMAIN_OPENING), whole_absorbed(amount, cap_com, mroot_spec(r, md))),
        sponge_ok(r, sponge_start(4, DOMAIN_PAYLOAD), payload_elements(amount)),
        whole_absorbed(amount, cap_com, mroot_spec(r, md)).len() == 16,
        mroot_spec(r, md).len() == DIGEST,
{
    crate::trace::lemma_merkle_digest_len(r, merchant_leaf(), md as nat);
    let a = whole_absorbed(amount, cap_com, mroot_spec(r, md));
    assert(a.len() == 16);
    lemma_sponge_blocks(r, sponge_start(4, DOMAIN_OPENING), a, 4, true);
    lemma_sponge_blocks(r, sponge_start(4, DOMAIN_PAYLOAD), payload_elements(amount), 2, true);
}

/// What binds the sponges to the row and the row to the public values holds
/// of the whole row, against the public values computed from the same
/// pieces; C9's binding to the policy columns holds where the columns carry
/// the committed cap.
pub proof fn lemma_whole_bindings(
    r: int,
    md: int,
    rd: int,
    amount: u64,
    cap_cols: u64,
    cap_com: u64,
    bind_policy: bool,
)
    requires
        whole_trace_ok(r, md, rd, 1),
        whole_generated(r, md, rd, amount, cap_com),
        bind_policy ==> cap_cols == cap_com,
    ensures
        all_hold(
            crate::whole::whole_bindings(r, md, rd, 0, bind_policy),
            r,
            whole_row_spec(r, md, rd, amount, cap_cols, cap_com),
            crate::witness::whole_public_values_spec(r, md, rd, amount, cap_com),
        ),
{
    let w = whole_row_spec(r, md, rd, amount, cap_cols, cap_com);
    let pv = crate::witness::whole_public_values_spec(r, md, rd, amount, cap_com);
    let o = whole_offsets(r, md, rd);
    let bw = block_width_spec(r);
    let mroot = mroot_spec(r, md);
    let a = whole_absorbed(amount, cap_com, mroot);
    let el = payload_elements(amount);
    let b9 = opening_blocks(r, md, amount, cap_com);
    let b7 = payload_blocks(r, amount);
    let pc = whole_policy_cols(amount, cap_cols, mroot);
    lemma_whole_layout(r, md, rd, amount, cap_cols, cap_com);
    lemma_whole_sponges(r, md, rd, amount, cap_com);
    crate::whole::lemma_whole_offsets(r, md, rd);
    crate::witness::lemma_roots(r, md as nat, rd as nat);
    crate::trace::lemma_merkle_digest_len(r, crate::trace::nm_leaf(), rd as nat);
    assert(crate::whole::whole_width_spec(r, md, rd) == w.len());
    let psteps = if bind_policy {
        crate::full::binding_steps(crate::full::policy_sources(0), o.0, bw)
    } else {
        seq![]
    };
    if bind_policy {
        let srcs = crate::full::policy_sources(0);
        assert forall|e: int| 0 <= e < srcs.len() implies #[trigger] w[srcs[e] as int] == a[e] by {
            lemma_policy_cols_absorbed(amount, cap_cols, mroot, e);
            assert(w[policy_src_spec(e)] == pc[policy_src_spec(e)]);
        }
        assert forall|e: int| 0 <= e < srcs.len() implies (#[trigger] srcs[e]) < w.len() by {
            lemma_policy_cols_absorbed(amount, cap_cols, mroot, e);
        }
        lemma_binding_holds(r, w, srcs, o.0, sponge_start(4, DOMAIN_OPENING), a, pv);
    }
    let srcs7 = crate::whole::payload_sources(0);
    assert forall|e: int| 0 <= e < srcs7.len() implies #[trigger] w[srcs7[e] as int] == el[e] by {
        lemma_payload_cols(amount, cap_cols, mroot, e);
        assert(w[PAYLOAD_SRC[e] as int] == pc[PAYLOAD_SRC[e] as int]);
    }
    assert forall|e: int| 0 <= e < srcs7.len() implies (#[trigger] srcs7[e]) < w.len() by {
        lemma_payload_cols(amount, cap_cols, mroot, e);
    }
    lemma_binding_holds(r, w, srcs7, o.1, sponge_start(4, DOMAIN_PAYLOAD), el, pv);
    let p7 = crate::full::binding_steps(srcs7, o.1, bw);
    // The payload digest, the revocation root and the commitment.
    let oo = bw - WIDTH;
    let g_payload = o.5 + DIGEST;
    let last = o.0 + 3 * bw + oo;
    assert(w[o.1 + 1 * bw + oo] == b7[1][oo]);
    assert(b7.last() == b7[1]);
    assert(perm_out(b7[1])[0] == b7[1][oo]);
    let tail = seq![
        Step::Eq(Expr::Col((o.1 + 1 * bw + oo) as usize), Expr::Col(g_payload as usize)),
        Step::Eq(Expr::Col(g_payload as usize), Expr::Pub(0)),
    ];
    assert(pv[0] == payload_digest(r, amount));
    assert forall|q: int| 0 <= q < tail.len() implies #[trigger] step_holds(tail[q], r, w, pv) by {}
    let rr = Seq::new(DIGEST as nat, |j: int| Step::Eq(Expr::Col((o.5 + j) as usize), Expr::Pub((1 + j) as usize)));
    assert forall|q: int| 0 <= q < rr.len() implies #[trigger] step_holds(rr[q], r, w, pv) by {
        assert(w[o.5 + q] == rroot_spec(r, rd)[q]);
        assert(pv[1 + q] == rroot_spec(r, rd)[q]);
    }
    let cm = Seq::new(DIGEST as nat, |j: int| Step::Eq(Expr::Col((last + j) as usize), Expr::Pub((1 + DIGEST + j) as usize)));
    assert forall|q: int| 0 <= q < cm.len() implies #[trigger] step_holds(cm[q], r, w, pv) by {
        assert(w[o.0 + 3 * bw + (oo + q)] == b9[3][oo + q]);
        assert(b9.last() == b9[3]);
        assert(perm_out(b9[3])[q] == b9[3][oo + q]);
        assert(pv[1 + DIGEST + q] == crate::witness::commitment_spec(r, a)[q]);
    }
    assert(crate::whole::whole_bindings(r, md, rd, 0, bind_policy) =~= psteps + p7 + tail + rr + cm);
    if bind_policy {
        crate::expr::lemma_all_hold_concat(psteps, p7, r, w, pv);
    } else {
        assert(psteps + p7 =~= p7);
    }
    crate::expr::lemma_all_hold_concat(psteps + p7, tail, r, w, pv);
    crate::expr::lemma_all_hold_concat(psteps + p7 + tail, rr, r, w, pv);
    crate::expr::lemma_all_hold_concat(psteps + p7 + tail + rr, cm, r, w, pv);
}

/// The sponges' starting states and chaining hold of the whole row.
proof fn lemma_whole_sponge_glue(r: int, md: int, rd: int, amount: u64, cap_cols: u64, cap_com: u64, pv: Seq<u64>)
    requires
        whole_trace_ok(r, md, rd, 1),
        whole_generated(r, md, rd, amount, cap_com),
    ensures
        ({
            let w = whole_row_spec(r, md, rd, amount, cap_cols, cap_com);
            let o = whole_offsets(r, md, rd);
            let bw = block_width_spec(r);
            all_hold(
                crate::full::start_steps(o.0, DOMAIN_OPENING) + crate::whole::chain_steps(o.0, 16, bw, 4)
                    + crate::full::start_steps(o.1, DOMAIN_PAYLOAD) + crate::whole::chain_steps(
                    o.1,
                    6,
                    bw,
                    2,
                ),
                r,
                w,
                pv,
            )
        }),
{
    let w = whole_row_spec(r, md, rd, amount, cap_cols, cap_com);
    let o = whole_offsets(r, md, rd);
    let bw = block_width_spec(r);
    let a = whole_absorbed(amount, cap_com, mroot_spec(r, md));
    let el = payload_elements(amount);
    lemma_whole_layout(r, md, rd, amount, cap_cols, cap_com);
    lemma_whole_sponges(r, md, rd, amount, cap_com);
    crate::whole::lemma_whole_offsets(r, md, rd);
    let s9 = crate::full::start_steps(o.0, DOMAIN_OPENING);
    let c9 = crate::whole::chain_steps(o.0, 16, bw, 4);
    let s7 = crate::full::start_steps(o.1, DOMAIN_PAYLOAD);
    let c7 = crate::whole::chain_steps(o.1, 6, bw, 2);
    lemma_start_holds(r, w, o.0, DOMAIN_OPENING, a, pv);
    lemma_chain_holds(r, w, o.0, sponge_start(4, DOMAIN_OPENING), a, 4, pv);
    lemma_start_holds(r, w, o.1, DOMAIN_PAYLOAD, el, pv);
    lemma_chain_holds(r, w, o.1, sponge_start(4, DOMAIN_PAYLOAD), el, 2, pv);
    crate::expr::lemma_all_hold_concat(s9, c9, r, w, pv);
    crate::expr::lemma_all_hold_concat(s9 + c9, s7, r, w, pv);
    crate::expr::lemma_all_hold_concat(s9 + c9 + s7, c7, r, w, pv);
}

/// Each recomputed root is the committed one, and the revocation root the
/// glue's.
proof fn lemma_whole_roots(r: int, md: int, rd: int, amount: u64, cap_cols: u64, cap_com: u64, pv: Seq<u64>)
    requires
        whole_trace_ok(r, md, rd, 1),
        whole_generated(r, md, rd, amount, cap_com),
    ensures
        ({
            let w = whole_row_spec(r, md, rd, amount, cap_cols, cap_com);
            let o = whole_offsets(r, md, rd);
            let lw = level_width_spec(r);
            all_hold(crate::whole::root_steps(0, o.2 + md * lw, o.3 + md * lw, o.5, o.4 + rd * lw), r, w, pv)
        }),
{
    let w = whole_row_spec(r, md, rd, amount, cap_cols, cap_com);
    let o = whole_offsets(r, md, rd);
    let lw = level_width_spec(r);
    let mroot = mroot_spec(r, md);
    let pc = whole_policy_cols(amount, cap_cols, mroot);
    let mrow = merkle_row_spec(r, md as nat, merchant_leaf());
    let nrow = nm_row_spec(r, rd as nat, None);
    lemma_whole_layout(r, md, rd, amount, cap_cols, cap_com);
    crate::whole::lemma_whole_offsets(r, md, rd);
    crate::witness::lemma_roots(r, md as nat, rd as nat);
    crate::trace::lemma_merkle_digest_len(r, crate::trace::nm_leaf(), rd as nat);
    crate::trace::lemma_merkle_digest_len(r, merchant_leaf(), md as nat);
    let rs = crate::whole::root_steps(0, o.2 + md * lw, o.3 + md * lw, o.5, o.4 + rd * lw);
    assert forall|q: int| 0 <= q < rs.len() implies #[trigger] step_holds(rs[q], r, w, pv) by {
        let j = q / 3;
        assert(0 <= j < DIGEST);
        assert(w[COL_MROOT + j] == pc[COL_MROOT + j]);
        assert(w[COL_CROOT + j] == pc[COL_CROOT + j]);
        assert(w.subrange(o.2, o.2 + merkle_width_spec(r, md))[md * lw + j] == w[o.2 + md * lw + j]);
        assert(w.subrange(o.3, o.3 + merkle_width_spec(r, md))[md * lw + j] == w[o.3 + md * lw + j]);
        assert(w.subrange(o.4, o.4 + nonmembership_width_spec(r, rd))[rd * lw + j] == w[o.4 + rd * lw + j]);
        assert(mrow.subrange(md * lw, md * lw + DIGEST)[j] == mrow[md * lw + j]);
        assert(nrow.subrange(rd * lw, rd * lw + DIGEST)[j] == nrow[rd * lw + j]);
        assert(w[o.5 + j] == rroot_spec(r, rd)[j]);
    }
}

/// Each leaf carries the identifier in its first lane and zeros after, and
/// the run C8 is checked against is the run the glue carries.
#[verifier::spinoff_prover]
#[verifier::rlimit(30)]
proof fn lemma_whole_leaves(r: int, md: int, rd: int, amount: u64, cap_cols: u64, cap_com: u64, pv: Seq<u64>)
    requires
        whole_trace_ok(r, md, rd, 1),
        whole_generated(r, md, rd, amount, cap_com),
    ensures
        ({
            let w = whole_row_spec(r, md, rd, amount, cap_cols, cap_com);
            let o = whole_offsets(r, md, rd);
            let run = o.4 + merkle_width_spec(r, rd);
            all_hold(
                crate::whole::leaf_steps(0, o.2, o.3) + seq![
                    Step::Eq(Expr::Col((o.5 + DIGEST + 1) as usize), Expr::Col(run as usize)),
                    Step::Eq(Expr::Col((o.5 + DIGEST + 2) as usize), Expr::Col((run + 1) as usize)),
                ],
                r,
                w,
                pv,
            )
        }),
{
    let w = whole_row_spec(r, md, rd, amount, cap_cols, cap_com);
    let o = whole_offsets(r, md, rd);
    let lw = level_width_spec(r);
    let mroot = mroot_spec(r, md);
    let pc = whole_policy_cols(amount, cap_cols, mroot);
    let mrow = merkle_row_spec(r, md as nat, merchant_leaf());
    lemma_whole_layout(r, md, rd, amount, cap_cols, cap_com);
    crate::whole::lemma_whole_offsets(r, md, rd);
    crate::witness::lemma_roots(r, md as nat, rd as nat);
    crate::trace::lemma_merkle_row_leaf(r, md as nat, merchant_leaf());
    let ls = crate::whole::leaf_steps(0, o.2, o.3);
    assert forall|q: int| 0 <= q < ls.len() implies #[trigger] step_holds(ls[q], r, w, pv) by {
        assert(w.subrange(o.2, o.2 + merkle_width_spec(r, md))[0] == w[o.2]);
        assert(w.subrange(o.3, o.3 + merkle_width_spec(r, md))[0] == w[o.3]);
        assert(w[COL_MID as int] == pc[COL_MID as int]);
        assert(w[COL_CID as int] == pc[COL_CID as int]);
        if q >= 2 {
            let j = 1 + (q - 2) / 2;
            assert(1 <= j < DIGEST);
            assert(w.subrange(o.2, o.2 + merkle_width_spec(r, md))[j] == w[o.2 + j]);
            assert(w.subrange(o.3, o.3 + merkle_width_spec(r, md))[j] == w[o.3 + j]);
            assert(mrow.subrange(0, DIGEST as int)[j] == mrow[j]);
        }
    }
    let run = o.4 + merkle_width_spec(r, rd);
    let rn = seq![
        Step::Eq(Expr::Col((o.5 + DIGEST + 1) as usize), Expr::Col(run as usize)),
        Step::Eq(Expr::Col((o.5 + DIGEST + 2) as usize), Expr::Col((run + 1) as usize)),
    ];
    assert(w.subrange(o.4, o.4 + nonmembership_width_spec(r, rd))[rd * lw + DIGEST] == w[run]);
    assert(w.subrange(o.4, o.4 + nonmembership_width_spec(r, rd))[rd * lw + DIGEST + 1] == w[run + 1]);
    assert forall|q: int| 0 <= q < rn.len() implies #[trigger] step_holds(rn[q], r, w, pv) by {}
    crate::expr::lemma_all_hold_concat(ls, rn, r, w, pv);
}

/// The sponges' starting states and chaining, the roots, the leaves and the
/// run hold of the whole row.
pub proof fn lemma_whole_glue(r: int, md: int, rd: int, amount: u64, cap_cols: u64, cap_com: u64, pv: Seq<u64>)
    requires
        whole_trace_ok(r, md, rd, 1),
        whole_generated(r, md, rd, amount, cap_com),
    ensures
        all_hold(crate::whole::whole_glue(r, md, rd, 0), r, whole_row_spec(r, md, rd, amount, cap_cols, cap_com), pv),
{
    let w = whole_row_spec(r, md, rd, amount, cap_cols, cap_com);
    let o = whole_offsets(r, md, rd);
    let bw = block_width_spec(r);
    let lw = level_width_spec(r);
    lemma_whole_sponge_glue(r, md, rd, amount, cap_cols, cap_com, pv);
    lemma_whole_roots(r, md, rd, amount, cap_cols, cap_com, pv);
    lemma_whole_leaves(r, md, rd, amount, cap_cols, cap_com, pv);
    let sg = crate::full::start_steps(o.0, DOMAIN_OPENING) + crate::whole::chain_steps(o.0, 16, bw, 4)
        + crate::full::start_steps(o.1, DOMAIN_PAYLOAD) + crate::whole::chain_steps(o.1, 6, bw, 2);
    let rs = crate::whole::root_steps(0, o.2 + md * lw, o.3 + md * lw, o.5, o.4 + rd * lw);
    let run = o.4 + merkle_width_spec(r, rd);
    let lr = crate::whole::leaf_steps(0, o.2, o.3) + seq![
        Step::Eq(Expr::Col((o.5 + DIGEST + 1) as usize), Expr::Col(run as usize)),
        Step::Eq(Expr::Col((o.5 + DIGEST + 2) as usize), Expr::Col((run + 1) as usize)),
    ];
    assert(crate::whole::ABSORBED == 16);
    assert(crate::full::C9_PERMUTATIONS == 4);
    assert(crate::whole::PAYLOAD_PERMUTATIONS == 2);
    assert(crate::whole::whole_glue(r, md, rd, 0) =~= sg + rs + lr);
    crate::expr::lemma_all_hold_concat(sg, rs, r, w, pv);
    crate::expr::lemma_all_hold_concat(sg + rs, lr, r, w, pv);
}


/// The whole witness satisfies every constraint of the whole circuit,
/// against the public values computed from the same pieces. Where the policy
/// columns carry a cap other than the committed one, it still satisfies the
/// circuit without C9's binding to the policy.
pub proof fn lemma_whole_row_satisfies(
    r: int,
    md: int,
    rd: int,
    amount: u64,
    cap_cols: u64,
    cap_com: u64,
    bind_policy: bool,
)
    requires
        whole_trace_ok(r, md, rd, 1),
        whole_generated(r, md, rd, amount, cap_com),
        amount <= cap_cols,
        cap_cols - amount < vstd::arithmetic::power2::pow2(crate::air::RANGE_BITS as nat),
        bind_policy ==> cap_cols == cap_com,
    ensures
        all_hold(
            crate::whole::whole_steps(r, md, rd, 0, bind_policy),
            r,
            whole_row_spec(r, md, rd, amount, cap_cols, cap_com),
            crate::witness::whole_public_values_spec(r, md, rd, amount, cap_com),
        ),
{
    let w = whole_row_spec(r, md, rd, amount, cap_cols, cap_com);
    let pv = crate::witness::whole_public_values_spec(r, md, rd, amount, cap_com);
    let o = whole_offsets(r, md, rd);
    let bw = block_width_spec(r);
    lemma_whole_policy(r, md, rd, amount, cap_cols, cap_com, pv);
    lemma_whole_blocks(r, md, rd, amount, cap_cols, cap_com, pv);
    lemma_whole_paths(r, md, rd, amount, cap_cols, cap_com, pv);
    lemma_whole_bindings(r, md, rd, amount, cap_cols, cap_com, bind_policy);
    lemma_whole_glue(r, md, rd, amount, cap_cols, cap_com, pv);
    let ps = policy_steps(ALL_CLAUSES@, 0);
    let h9 = crate::full::block_steps(o.0, 4, bw);
    let h7 = crate::full::block_steps(o.1, 2, bw);
    let m1 = crate::expr::shift_steps(crate::merkle::merkle_steps(r, 0, md), o.2);
    let m2 = crate::expr::shift_steps(crate::merkle::merkle_steps(r, 0, md), o.3);
    let n1 = crate::expr::shift_steps(crate::revocation::nonmembership_steps(r, rd, 0), o.4);
    assert(crate::full::C9_PERMUTATIONS == 4);
    assert(crate::whole::PAYLOAD_PERMUTATIONS == 2);
    assert(crate::whole::whole_components(r, md, rd, 0) =~= ps + h9 + h7 + m1 + m2 + n1);
    crate::expr::lemma_all_hold_concat(ps, h9, r, w, pv);
    crate::expr::lemma_all_hold_concat(ps + h9, h7, r, w, pv);
    crate::expr::lemma_all_hold_concat(ps + h9 + h7, m1, r, w, pv);
    crate::expr::lemma_all_hold_concat(ps + h9 + h7 + m1, m2, r, w, pv);
    crate::expr::lemma_all_hold_concat(ps + h9 + h7 + m1 + m2, n1, r, w, pv);
    let c = crate::whole::whole_components(r, md, rd, 0);
    let b = crate::whole::whole_bindings(r, md, rd, 0, bind_policy);
    let g = crate::whole::whole_glue(r, md, rd, 0);
    crate::expr::lemma_all_hold_concat(c, b, r, w, pv);
    crate::expr::lemma_all_hold_concat(c + b, g, r, w, pv);
}

/// Where the policy columns carry a cap other than the committed one (as
/// field elements), C9's binding of element 1, the cap's absorbed lane, to
/// its column fails, so the whole circuit rejects the row whatever the
/// public values.
pub proof fn lemma_whole_row_binding_fails(
    r: int,
    md: int,
    rd: int,
    amount: u64,
    cap_cols: u64,
    cap_com: u64,
    pv: Seq<u64>,
)
    requires
        whole_trace_ok(r, md, rd, 1),
        whole_generated(r, md, rd, amount, cap_com),
        cap_cols % P != cap_com % P,
    ensures
        !step_holds(
            crate::full::binding_steps(crate::full::policy_sources(0), whole_offsets(r, md, rd).0, block_width_spec(r))[1],
            r,
            whole_row_spec(r, md, rd, amount, cap_cols, cap_com),
            pv,
        ),
        crate::expr::some_fails(
            crate::whole::whole_steps(r, md, rd, 0, true),
            r,
            whole_row_spec(r, md, rd, amount, cap_cols, cap_com),
            pv,
        ),
{
    let w = whole_row_spec(r, md, rd, amount, cap_cols, cap_com);
    let o = whole_offsets(r, md, rd);
    let bw = block_width_spec(r);
    let a = whole_absorbed(amount, cap_com, mroot_spec(r, md));
    let b9 = opening_blocks(r, md, amount, cap_com);
    let pc = whole_policy_cols(amount, cap_cols, mroot_spec(r, md));
    lemma_whole_layout(r, md, rd, amount, cap_cols, cap_com);
    lemma_whole_sponges(r, md, rd, amount, cap_com);
    lemma_sponge_lanes(r, sponge_start(4, DOMAIN_OPENING), a);
    let ins = opening_ins(r, md, amount, cap_com);
    assert(w[o.0 + 0 * bw + 1] == b9[0][1]);
    assert(b9[0][1] == ins[0][1]);
    assert(ins[1int / 4][1int % 4] == a[1]);
    assert(a[1] == cap_com % P);
    assert(w[crate::air::COL_C as int] == pc[crate::air::COL_C as int]);
    assert(pc[crate::air::COL_C as int] == cap_cols % P);
    let c = crate::whole::whole_components(r, md, rd, 0);
    let bsteps = crate::full::binding_steps(crate::full::policy_sources(0), o.0, bw);
    let steps = crate::whole::whole_steps(r, md, rd, 0, true);
    let idx: int = c.len() as int + 1;
    assert(steps[idx] == bsteps[1]);
    assert(bsteps[1] == Step::Eq(Expr::Col(crate::air::COL_C), Expr::Col((o.0 + 1) as usize)));
    assert(w[o.0 + 1] == cap_com % P);
    assert(!step_holds(steps[idx], r, w, pv));
}

/// Where the policy columns carry a cap other than the committed one, C9's
/// binding of every absorbed element but the cap still holds.
proof fn lemma_whole_row_other_binding_holds(
    r: int,
    md: int,
    rd: int,
    amount: u64,
    cap_cols: u64,
    cap_com: u64,
    pv: Seq<u64>,
    e: int,
)
    requires
        whole_trace_ok(r, md, rd, 1),
        whole_generated(r, md, rd, amount, cap_com),
        0 <= e < 16,
        e != 1,
    ensures
        step_holds(
            crate::full::binding_steps(crate::full::policy_sources(0), whole_offsets(r, md, rd).0, block_width_spec(r))[e],
            r,
            whole_row_spec(r, md, rd, amount, cap_cols, cap_com),
            pv,
        ),
{
    let w = whole_row_spec(r, md, rd, amount, cap_cols, cap_com);
    let o = whole_offsets(r, md, rd);
    let bw = block_width_spec(r);
    let mroot = mroot_spec(r, md);
    let a = whole_absorbed(amount, cap_com, mroot);
    let b9 = opening_blocks(r, md, amount, cap_com);
    let pc = whole_policy_cols(amount, cap_cols, mroot);
    lemma_whole_layout(r, md, rd, amount, cap_cols, cap_com);
    lemma_whole_sponges(r, md, rd, amount, cap_com);
    lemma_sponge_lanes(r, sponge_start(4, DOMAIN_OPENING), a);
    crate::vacuous::lemma_missing_binding_cost(r, md, rd, 0);
    let ins = opening_ins(r, md, amount, cap_com);
    let i = e / 4;
    let j = e % 4;
    assert(w[o.0 + i * bw + j] == b9[i][j]);
    assert(b9[i][j] == ins[i][j]);
    assert(ins[e / 4][e % 4] == a[e]);
    lemma_policy_cols_absorbed(amount, cap_cols, mroot, e);
    assert(whole_absorbed(amount, cap_cols, mroot)[e] == a[e]);
    assert(w[policy_src_spec(e)] == pc[policy_src_spec(e)]);
    assert(crate::full::absorbed_lane(o.0, bw, e) == o.0 + i * bw + j);
}

/// Where the policy columns carry a cap other than the committed one, and
/// the columns' cap still covers the amount within the range check, every
/// constraint of the whole circuit holds of the whole row but C9's binding
/// of the cap.
pub proof fn lemma_whole_row_all_but_cap_binding(
    r: int,
    md: int,
    rd: int,
    amount: u64,
    cap_cols: u64,
    cap_com: u64,
    i: int,
)
    requires
        whole_trace_ok(r, md, rd, 1),
        whole_generated(r, md, rd, amount, cap_com),
        amount <= cap_cols,
        cap_cols - amount < vstd::arithmetic::power2::pow2(crate::air::RANGE_BITS as nat),
        0 <= i < crate::whole::whole_steps(r, md, rd, 0, true).len(),
        crate::whole::whole_steps(r, md, rd, 0, true)[i] != crate::full::binding_steps(
            crate::full::policy_sources(0),
            whole_offsets(r, md, rd).0,
            block_width_spec(r),
        )[1],
    ensures
        step_holds(
            crate::whole::whole_steps(r, md, rd, 0, true)[i],
            r,
            whole_row_spec(r, md, rd, amount, cap_cols, cap_com),
            crate::witness::whole_public_values_spec(r, md, rd, amount, cap_com),
        ),
{
    let w = whole_row_spec(r, md, rd, amount, cap_cols, cap_com);
    let pv = crate::witness::whole_public_values_spec(r, md, rd, amount, cap_com);
    crate::vacuous::lemma_missing_binding_cost(r, md, rd, 0);
    lemma_whole_row_satisfies(r, md, rd, amount, cap_cols, cap_com, false);
    let c = crate::whole::whole_components(r, md, rd, 0);
    let b = crate::full::binding_steps(crate::full::policy_sources(0), 0 + whole_offsets(r, md, rd).0, block_width_spec(r));
    let rest = crate::whole::whole_bindings(r, md, rd, 0, false) + crate::whole::whole_glue(r, md, rd, 0);
    let wt = crate::whole::whole_steps(r, md, rd, 0, true);
    let wf = crate::whole::whole_steps(r, md, rd, 0, false);
    assert(wt =~= c + b + rest);
    assert(wf =~= c + rest);
    if i < c.len() {
        assert(wt[i] == wf[i]);
        assert(step_holds(wf[i], r, w, pv));
    } else if i < c.len() + b.len() {
        let e = i - c.len();
        assert(wt[i] == b[e]);
        lemma_whole_row_other_binding_holds(r, md, rd, amount, cap_cols, cap_com, pv, e);
    } else {
        assert(wt[i] == wf[i - b.len()]);
        assert(step_holds(wf[i - b.len()], r, w, pv));
    }
}

/// Where each payment field and the lane C7 absorbs it into stand in the
/// whole row, and that both hold the field's value.
proof fn lemma_payment_field_lanes(r: int, md: int, rd: int, amount: u64, cap_cols: u64, cap_com: u64, e: int)
    requires
        whole_trace_ok(r, md, rd, 1),
        whole_generated(r, md, rd, amount, cap_com),
        0 <= e < 6,
    ensures
        ({
            let w = whole_row_spec(r, md, rd, amount, cap_cols, cap_com);
            let lane = whole_offsets(r, md, rd).1 + (e / 4) * block_width_spec(r) + e % 4;
            &&& PAYLOAD_SRC[e] < POLICY_WIDTH <= whole_offsets(r, md, rd).1 <= lane < w.len()
            &&& w[lane] == payload_elements(amount)[e]
            &&& w[PAYLOAD_SRC[e] as int] == payload_elements(amount)[e]
            &&& payload_elements(amount)[e] < P
        }),
{
    let w = whole_row_spec(r, md, rd, amount, cap_cols, cap_com);
    let o = whole_offsets(r, md, rd);
    let bw = block_width_spec(r);
    let el = payload_elements(amount);
    let b7 = payload_blocks(r, amount);
    let ins = payload_ins(r, amount);
    let pc = whole_policy_cols(amount, cap_cols, mroot_spec(r, md));
    lemma_whole_layout(r, md, rd, amount, cap_cols, cap_com);
    lemma_whole_sponges(r, md, rd, amount, cap_com);
    lemma_sponge_lanes(r, sponge_start(4, DOMAIN_PAYLOAD), el);
    lemma_payload_cols(amount, cap_cols, mroot_spec(r, md), e);
    crate::whole::lemma_whole_offsets(r, md, rd);
    let i: int = if e < 4 { 0 } else { 1 };
    let j: int = e - 4 * i;
    assert(e / 4 == i && e % 4 == j);
    let lane = o.1 + i * bw + j;
    assert(w[lane] == b7[i][j]);
    assert(b7[i][j] == ins[i][j]);
    assert(ins[e / 4][e % 4] == el[e]);
    assert(w[PAYLOAD_SRC[e] as int] == pc[PAYLOAD_SRC[e] as int]);
}

/// Raising one payment field of the whole row (the amount, an identifier,
/// the time or the nonce) without recomputing the payload digest leaves the
/// lane C7 absorbed it into as it was, so that field's binding fails and the
/// whole circuit rejects the row, with or without C9's policy binding and
/// whatever the public values.
pub proof fn lemma_payment_field_control_fails(
    r: int,
    md: int,
    rd: int,
    amount: u64,
    cap_cols: u64,
    cap_com: u64,
    e: int,
    bind_policy: bool,
    pv: Seq<u64>,
)
    requires
        whole_trace_ok(r, md, rd, 1),
        whole_generated(r, md, rd, amount, cap_com),
        0 <= e < 6,
    ensures
        crate::expr::some_fails(
            crate::whole::whole_steps(r, md, rd, 0, bind_policy),
            r,
            crate::table::raise(whole_row_spec(r, md, rd, amount, cap_cols, cap_com), PAYLOAD_SRC[e] as int),
            pv,
        ),
{
    let w = whole_row_spec(r, md, rd, amount, cap_cols, cap_com);
    let c = PAYLOAD_SRC[e] as int;
    let bad = crate::table::raise(w, c);
    let o = whole_offsets(r, md, rd);
    let bw = block_width_spec(r);
    let v = payload_elements(amount)[e];
    lemma_payment_field_lanes(r, md, rd, amount, cap_cols, cap_com, e);
    let lane = o.1 + (e / 4) * bw + e % 4;
    assert(bad[lane] == v);
    assert(bad[c] == (v + 1) % (P as int));
    let comps = crate::whole::whole_components(r, md, rd, 0);
    let psteps = if bind_policy {
        crate::full::binding_steps(crate::full::policy_sources(0), o.0, bw)
    } else {
        seq![]
    };
    let p7 = crate::full::binding_steps(crate::whole::payload_sources(0), o.1, bw);
    let steps = crate::whole::whole_steps(r, md, rd, 0, bind_policy);
    let idx: int = comps.len() + psteps.len() + e;
    assert(steps[idx] == p7[e]);
    assert(p7[e] == Step::Eq(Expr::Col(c as usize), Expr::Col(lane as usize)));
    assert(!step_holds(steps[idx], r, bad, pv));
}

} // verus!
