//! The whole circuit at offset zero reads only the whole row's columns, so
//! what a whole row satisfies, any row starting with it satisfies.
use crate::air::{policy_src_spec, policy_steps, ALL_CLAUSES, DIGEST, PAYLOAD_ELEMS, PAYLOAD_SRC};
use crate::trace::POLICY_WIDTH;
use crate::expr::{expr_cols_below, shift_expr, shift_step, shift_steps, step_within, steps_within, Expr, Step};
use crate::full::{absorbed_lane, binding_steps, block_steps, policy_sources, start_steps, C9_PERMUTATIONS, RATE};
use crate::hash::{block_width_spec, DOMAIN_OPENING, DOMAIN_PAYLOAD, WIDTH};
use crate::merkle::{level_width_spec, merkle_steps, merkle_width_spec};
use crate::revocation::{nonmembership_steps, nonmembership_width_spec};
use crate::whole::{
    chain_link, chain_steps, leaf_steps, payload_sources, root_steps, whole_bindings, whole_components, whole_glue,
    whole_offsets, whole_steps, whole_width_spec, ABSORBED, PAYLOAD_PERMUTATIONS,
};
use vstd::prelude::*;

verus! {

proof fn lemma_shift_expr_below(e: Expr, w: int, off: int)
    requires
        expr_cols_below(e, w),
        0 <= off,
        w + off <= usize::MAX,
    ensures
        expr_cols_below(shift_expr(e, off), w + off),
    decreases e,
{
    match e {
        Expr::Add(a, b) => {
            lemma_shift_expr_below(*a, w, off);
            lemma_shift_expr_below(*b, w, off);
        },
        Expr::Sub(a, b) => {
            lemma_shift_expr_below(*a, w, off);
            lemma_shift_expr_below(*b, w, off);
        },
        Expr::Mul(a, b) => {
            lemma_shift_expr_below(*a, w, off);
            lemma_shift_expr_below(*b, w, off);
        },
        Expr::Double(a) => {
            lemma_shift_expr_below(*a, w, off);
        },
        _ => {},
    }
}

/// Steps reading below `w`, shifted by `off`, read below `w + off`.
pub proof fn lemma_shift_within(steps: Seq<Step>, r: int, w: int, off: int)
    requires
        steps_within(steps, r, w),
        0 <= off,
        w + off <= usize::MAX,
    ensures
        steps_within(shift_steps(steps, off), r, w + off),
{
    let sh = shift_steps(steps, off);
    assert forall|k: int| 0 <= k < sh.len() implies #[trigger] step_within(sh[k], r, w + off) by {
        let s = steps[k];
        assert(step_within(s, r, w));
        assert(sh[k] == shift_step(s, off));
        match s {
            Step::Hash(start) => {},
            Step::Zero(e) => lemma_shift_expr_below(e, w, off),
            Step::Eq(a, b) => {
                lemma_shift_expr_below(a, w, off);
                lemma_shift_expr_below(b, w, off);
            },
            Step::Bool(e) => lemma_shift_expr_below(e, w, off),
            Step::One(e) => lemma_shift_expr_below(e, w, off),
        }
    }
}

proof fn lemma_chain_within(start: int, elems: int, bw: int, k: int, w: int, r: int)
    requires
        bw >= WIDTH,
        0 <= start,
        k >= 0,
        (k - 1) * RATE < elems,
        start + k * bw <= w,
        w <= usize::MAX,
    ensures
        steps_within(chain_steps(start, elems, bw, k), r, w),
    decreases k,
{
    if k > 1 {
        assert(start + (k - 1) * bw <= start + k * bw && (k - 2) * RATE < (k - 1) * RATE) by (nonlinear_arith)
            requires
                bw >= 0,
                k >= 1,
        ;
        lemma_chain_within(start, elems, bw, k - 1, w, r);
        let i = k - 1;
        let link = chain_link(start, elems, bw, i);
        assert((i - 1) * bw + bw == i * bw && i * bw + bw == k * bw && 0 <= (i - 1) * bw) by (nonlinear_arith)
            requires
                i == k - 1,
                i >= 1,
                bw >= 0,
        ;
        let taken = if (RATE as int) < elems - i * RATE { RATE as int } else { elems - i * RATE };
        assert(0 < taken <= RATE);
        let prev_out = start + (i - 1) * bw + bw - WIDTH;
        let next_in = start + i * bw;
        assert forall|q: int| 0 <= q < link.len() implies #[trigger] step_within(link[q], r, w) by {
            assert(link[q] == Step::Eq(
                Expr::Col((prev_out + taken + q) as usize),
                Expr::Col((next_in + taken + q) as usize),
            ));
            assert(0 <= prev_out + taken + q < w);
            assert(0 <= next_in + taken + q < w);
        }
        crate::expr::lemma_within_concat(chain_steps(start, elems, bw, k - 1), link, r, w);
    }
}

proof fn lemma_components_within(r: int, md: int, rd: int)
    requires
        r == 0 || r == 1,
        md >= 0,
        rd >= 0,
        whole_width_spec(r, md, rd) <= usize::MAX,
    ensures
        steps_within(whole_components(r, md, rd, 0), r, whole_width_spec(r, md, rd)),
{
    let o = whole_offsets(r, md, rd);
    let bw = block_width_spec(r);
    let w = whole_width_spec(r, md, rd);
    crate::whole::lemma_whole_offsets(r, md, rd);
    let ps = policy_steps(ALL_CLAUSES@, 0);
    crate::witness::lemma_policy_within(r);
    crate::expr::lemma_within_widen(ps, r, POLICY_WIDTH as int, w);
    let h9 = block_steps(o.0, 4, bw);
    assert forall|i: int| 0 <= i < h9.len() implies #[trigger] step_within(h9[i], r, w) by {
        assert(i * bw + bw <= 4 * bw) by (nonlinear_arith)
            requires
                0 <= i < 4,
                bw >= 0,
        ;
    }
    let h7 = block_steps(o.1, 2, bw);
    assert forall|i: int| 0 <= i < h7.len() implies #[trigger] step_within(h7[i], r, w) by {
        assert(i * bw + bw <= 2 * bw) by (nonlinear_arith)
            requires
                0 <= i < 2,
                bw >= 0,
        ;
    }
    let mw = merkle_width_spec(r, md);
    crate::merkle::lemma_merkle_within(r, 0, md, md);
    lemma_shift_within(merkle_steps(r, 0, md), r, mw, o.2);
    lemma_shift_within(merkle_steps(r, 0, md), r, mw, o.3);
    crate::expr::lemma_within_widen(shift_steps(merkle_steps(r, 0, md), o.2), r, o.2 + mw, w);
    crate::expr::lemma_within_widen(shift_steps(merkle_steps(r, 0, md), o.3), r, o.3 + mw, w);
    let nw = nonmembership_width_spec(r, rd);
    crate::revocation::lemma_nonmembership_within(r, rd);
    lemma_shift_within(nonmembership_steps(r, rd, 0), r, nw, o.4);
    crate::expr::lemma_within_widen(shift_steps(nonmembership_steps(r, rd, 0), o.4), r, o.4 + nw, w);
    assert(crate::full::C9_PERMUTATIONS == 4);
    assert(PAYLOAD_PERMUTATIONS == 2);
    let m1 = shift_steps(merkle_steps(r, 0, md), o.2);
    let m2 = shift_steps(merkle_steps(r, 0, md), o.3);
    let n1 = shift_steps(nonmembership_steps(r, rd, 0), o.4);
    assert(whole_components(r, md, rd, 0) =~= ps + h9 + h7 + m1 + m2 + n1);
    crate::expr::lemma_within_concat(ps, h9, r, w);
    crate::expr::lemma_within_concat(ps + h9, h7, r, w);
    crate::expr::lemma_within_concat(ps + h9 + h7, m1, r, w);
    crate::expr::lemma_within_concat(ps + h9 + h7 + m1, m2, r, w);
    crate::expr::lemma_within_concat(ps + h9 + h7 + m1 + m2, n1, r, w);
}

proof fn lemma_bindings_glue_within(r: int, md: int, rd: int, bind: bool)
    requires
        r == 0 || r == 1,
        md >= 0,
        rd >= 0,
        whole_width_spec(r, md, rd) <= usize::MAX,
    ensures
        steps_within(whole_bindings(r, md, rd, 0, bind), r, whole_width_spec(r, md, rd)),
{
    let o = whole_offsets(r, md, rd);
    let bw = block_width_spec(r);
    let w = whole_width_spec(r, md, rd);
    crate::whole::lemma_whole_offsets(r, md, rd);
    let bp = binding_steps(policy_sources(0), o.0, bw);
    let bl = binding_steps(payload_sources(0), o.1, bw);
    assert forall|e: int| 0 <= e < bp.len() implies #[trigger] step_within(bp[e], r, w) by {
        crate::air::lemma_policy_src_distinct(e, if e == 0 { 1 } else { 0 });
        assert((e / 4) * bw + 4 <= 4 * bw) by (nonlinear_arith)
            requires
                0 <= e < 16,
                bw >= 8,
        ;
    }
    assert forall|e: int| 0 <= e < bl.len() implies #[trigger] step_within(bl[e], r, w) by {
        assert((e / 4) * bw + 4 <= 2 * bw) by (nonlinear_arith)
            requires
                0 <= e < 6,
                bw >= 8,
        ;
        assert(PAYLOAD_SRC[e] < POLICY_WIDTH);
    }
    let rv = o.5;
    let oo = bw - WIDTH;
    let g_payload = rv + DIGEST;
    let last = o.0 + (C9_PERMUTATIONS - 1) * bw + oo;
    let mid = seq![
        Step::Eq(Expr::Col((o.1 + (PAYLOAD_PERMUTATIONS - 1) * bw + oo) as usize), Expr::Col(g_payload as usize)),
        Step::Eq(Expr::Col(g_payload as usize), Expr::Pub(0)),
    ];
    let rs = Seq::new(DIGEST as nat, |j: int| Step::Eq(Expr::Col((rv + j) as usize), Expr::Pub((1 + j) as usize)));
    let ls = Seq::new(
        DIGEST as nat,
        |j: int| Step::Eq(Expr::Col((last + j) as usize), Expr::Pub((1 + DIGEST + j) as usize)),
    );
    assert(steps_within(mid, r, w)) by {
        assert forall|i: int| 0 <= i < mid.len() implies #[trigger] step_within(mid[i], r, w) by {}
    }
    assert(steps_within(rs, r, w)) by {
        assert forall|i: int| 0 <= i < rs.len() implies #[trigger] step_within(rs[i], r, w) by {}
    }
    assert(steps_within(ls, r, w)) by {
        assert forall|i: int| 0 <= i < ls.len() implies #[trigger] step_within(ls[i], r, w) by {}
    }
    let first: Seq<Step> = if bind { bp } else { seq![] };
    assert(steps_within(first, r, w));
    assert(whole_bindings(r, md, rd, 0, bind) == first + bl + mid + rs + ls);
    crate::expr::lemma_within_concat(first, bl, r, w);
    crate::expr::lemma_within_concat(first + bl, mid, r, w);
    crate::expr::lemma_within_concat(first + bl + mid, rs, r, w);
    crate::expr::lemma_within_concat(first + bl + mid + rs, ls, r, w);
}

proof fn lemma_chain_within_r(start: int, elems: int, bw: int, k: int, w: int, r: int)
    requires
        bw >= WIDTH,
        0 <= start,
        k >= 0,
        (k - 1) * RATE < elems,
        start + k * bw <= w,
        w <= usize::MAX,
    ensures
        steps_within(chain_steps(start, elems, bw, k), r, w),
{
    lemma_chain_within(start, elems, bw, k, w, r);
}

#[verifier::rlimit(60)]
proof fn lemma_glue_within(r: int, md: int, rd: int)
    requires
        r == 0 || r == 1,
        md >= 0,
        rd >= 0,
        whole_width_spec(r, md, rd) <= usize::MAX,
    ensures
        steps_within(whole_glue(r, md, rd, 0), r, whole_width_spec(r, md, rd)),
{
    let o = whole_offsets(r, md, rd);
    let bw = block_width_spec(r);
    let w = whole_width_spec(r, md, rd);
    crate::whole::lemma_whole_offsets(r, md, rd);
    let (p, pl, h, mc, ct, rv) = o;
    let g_payload = rv + DIGEST;
    let run = ct + merkle_width_spec(r, rd);
    let s9 = start_steps(p, DOMAIN_OPENING);
    let c9 = chain_steps(p, ABSORBED as int, bw, C9_PERMUTATIONS as int);
    let s7 = start_steps(pl, DOMAIN_PAYLOAD);
    let c7 = chain_steps(pl, PAYLOAD_ELEMS as int, bw, PAYLOAD_PERMUTATIONS as int);
    let lw = level_width_spec(r);
    assert(md * lw >= 0 && rd * lw >= 0) by (nonlinear_arith)
        requires
            md >= 0,
            rd >= 0,
            lw >= 0,
    ;
    let rs = root_steps(0, h + md * lw, mc + md * lw, rv, ct + rd * lw);
    let ls = leaf_steps(0, h, mc);
    let run2 = seq![
        Step::Eq(Expr::Col((g_payload + 1) as usize), Expr::Col(run as usize)),
        Step::Eq(Expr::Col((g_payload + 2) as usize), Expr::Col((run + 1) as usize)),
    ];
    assert(whole_glue(r, md, rd, 0) == s9 + c9 + s7 + c7 + rs + ls + run2);
    assert(steps_within(s9, r, w)) by {
        assert forall|i: int| 0 <= i < s9.len() implies #[trigger] step_within(s9[i], r, w) by {}
    }
    assert(steps_within(s7, r, w)) by {
        assert forall|i: int| 0 <= i < s7.len() implies #[trigger] step_within(s7[i], r, w) by {}
    }
    lemma_chain_within_r(p, ABSORBED as int, bw, 4, w, r);
    lemma_chain_within_r(pl, PAYLOAD_ELEMS as int, bw, 2, w, r);
    assert(steps_within(rs, r, w)) by {
        assert forall|i: int| 0 <= i < rs.len() implies #[trigger] step_within(rs[i], r, w) by {}
    }
    assert(steps_within(ls, r, w)) by {
        assert forall|i: int| 0 <= i < ls.len() implies #[trigger] step_within(ls[i], r, w) by {}
    }
    assert(steps_within(run2, r, w)) by {
        assert forall|i: int| 0 <= i < run2.len() implies #[trigger] step_within(run2[i], r, w) by {}
    }
    crate::expr::lemma_within_concat(s9, c9, r, w);
    crate::expr::lemma_within_concat(s9 + c9, s7, r, w);
    crate::expr::lemma_within_concat(s9 + c9 + s7, c7, r, w);
    crate::expr::lemma_within_concat(s9 + c9 + s7 + c7, rs, r, w);
    crate::expr::lemma_within_concat(s9 + c9 + s7 + c7 + rs, ls, r, w);
    crate::expr::lemma_within_concat(s9 + c9 + s7 + c7 + rs + ls, run2, r, w);
}

/// The whole circuit at offset zero reads only the whole row's columns.
pub proof fn lemma_whole_within(r: int, md: int, rd: int, bind: bool)
    requires
        r == 0 || r == 1,
        md >= 0,
        rd >= 0,
        whole_width_spec(r, md, rd) <= usize::MAX,
    ensures
        steps_within(whole_steps(r, md, rd, 0, bind), r, whole_width_spec(r, md, rd)),
{
    lemma_components_within(r, md, rd);
    lemma_bindings_glue_within(r, md, rd, bind);
    lemma_glue_within(r, md, rd);
    let w = whole_width_spec(r, md, rd);
    crate::expr::lemma_within_concat(whole_components(r, md, rd, 0), whole_bindings(r, md, rd, 0, bind), r, w);
    crate::expr::lemma_within_concat(
        whole_components(r, md, rd, 0) + whole_bindings(r, md, rd, 0, bind),
        whole_glue(r, md, rd, 0),
        r,
        w,
    );
}

} // verus!
