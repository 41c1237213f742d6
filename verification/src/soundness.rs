//! What the whole compliance circuit guarantees of every row it accepts: the
//! commitment a verifier supplies is the sponge over the very policy columns
//! the clauses read, and the payload digest is the sponge over the payment's
//! own fields.
use crate::air::{
    policy_src_spec, policy_steps, ALL_CLAUSES, COL_CID, COL_CROOT, COL_MID, COL_MROOT, DIGEST, PAYLOAD_ELEMS,
    PAYLOAD_SRC, POLICY_ELEMS, RANGE_BITS, VALUE_COLS,
};
use crate::merkle::{level_width_spec, merkle_steps, merkle_width_spec, path_digest};
use crate::revocation::{
    nonmembership_steps, nonmembership_width_spec, nm_values_small, run_unrevoked, RUN_COLS, RUN_HI, RUN_LO,
};
use crate::expr::shift_steps;
use crate::trace::POLICY_WIDTH;
use crate::expr::{all_hold, hash_block_holds, lemma_all_hold_split, step_holds, Expr, Step};
use crate::field::{all_canonical, lemma_canonical_eq, P};
use crate::full::{absorbed_lane, binding_steps, block_steps, start_steps, RATE};
use crate::gen::{
    lemma_sponge_chain, lemma_sponge_first, lemma_sponge_lanes, lemma_sponge_rows, perm_out,
    poseidon2_trace_row, sponge_from, sponge_inputs, sponge_start,
};
use crate::hash::{block_width_spec, DOMAIN_OPENING, DOMAIN_PAYLOAD, WIDTH};
use crate::whole::{
    chain_link, chain_steps, leaf_steps, lemma_whole_offsets, payload_sources, root_steps, whole_bindings,
    whole_components, whole_glue,
    whole_offsets, whole_steps, whole_width_spec, PUBLIC_VALUES,
};
use crate::full::policy_sources;
use crate::witness::{commitment_spec, whole_trace_ok};
use crate::gen::sponge_spec;
use vstd::prelude::*;

verus! {

/// Every link of a sponge's chaining holds where the chaining does.
proof fn lemma_links_hold(start: int, elems: int, bw: int, k: int, i: int, r: int, w: Seq<u64>, pv: Seq<u64>)
    requires
        1 <= i < k,
        all_hold(chain_steps(start, elems, bw, k), r, w, pv),
    ensures
        all_hold(chain_link(start, elems, bw, i), r, w, pv),
    decreases k,
{
    lemma_all_hold_split(chain_steps(start, elems, bw, k - 1), chain_link(start, elems, bw, k - 1), r, w, pv);
    if i < k - 1 {
        lemma_links_hold(start, elems, bw, k - 1, i, r, w, pv);
    }
}

/// The facts an accepted row gives about a sponge laid out from `start`: its
/// blocks are permutation rows of their own inputs, it starts at its domain
/// separator, its steps carry the lanes they do not absorb, and its absorbed
/// lanes hold `elements`.
pub open spec fn sponge_accepted(
    r: int,
    w: Seq<u64>,
    start: int,
    domain: u64,
    elements: Seq<u64>,
    pv: Seq<u64>,
) -> bool {
    let bw = block_width_spec(r);
    let k = ((elements.len() + 3) / 4) as int;
    &&& all_hold(block_steps(start, k, bw), r, w, pv)
    &&& all_hold(start_steps(start, domain), r, w, pv)
    &&& all_hold(chain_steps(start, elements.len() as int, bw, k), r, w, pv)
    &&& forall|e: int| 0 <= e < elements.len() ==> #[trigger] w[absorbed_lane(start, bw, e)] == elements[e]
}

/// Every input of a sponge is a full permutation state.
proof fn lemma_sponge_input_len(r: int, state: Seq<u64>, elements: Seq<u64>, i: int)
    requires
        0 <= i < sponge_inputs(r, state, elements, 4).len(),
    ensures
        sponge_inputs(r, state, elements, 4)[i].len() == WIDTH,
    decreases elements.len(),
{
    let k = if 4 < elements.len() { 4 } else { elements.len() as int };
    let input = crate::gen::absorb(state, elements.take(k));
    let next = perm_out(poseidon2_trace_row(r, input));
    if i > 0 {
        lemma_sponge_input_len(r, next, elements.skip(k), i - 1);
    }
}

/// The input lanes of each block of an accepted sponge are the sponge's
/// inputs over the elements its absorbed lanes hold.
proof fn lemma_sponge_inputs_sound(
    r: int,
    w: Seq<u64>,
    start: int,
    domain: u64,
    elements: Seq<u64>,
    pv: Seq<u64>,
    i: int,
)
    requires
        r == 0 || r == 1,
        elements.len() >= RATE,
        domain < P,
        0 <= start,
        start + ((elements.len() + 3) / 4) * block_width_spec(r) <= w.len(),
        w.len() <= usize::MAX,
        all_canonical(w),
        sponge_accepted(r, w, start, domain, elements, pv),
        0 <= i < (elements.len() + 3) / 4,
    ensures
        w.subrange(start + i * block_width_spec(r), start + i * block_width_spec(r) + WIDTH) == sponge_inputs(
            r,
            sponge_start(4, domain),
            elements,
            4,
        )[i],
    decreases i,
{
    let bw = block_width_spec(r);
    let k = ((elements.len() + 3) / 4) as int;
    let n = elements.len() as int;
    let st = sponge_start(4, domain);
    let ins = sponge_inputs(r, st, elements, 4);
    let b = start + i * bw;
    assert(i * bw + bw <= k * bw) by (nonlinear_arith)
        requires
            i < k,
            bw >= 0,
    ;
    lemma_sponge_lanes(r, st, elements);
    let taken = if 4 < n - i * 4 { 4 } else { n - i * 4 };
    let input = w.subrange(b, b + WIDTH);
    if i > 0 {
        lemma_sponge_inputs_sound(r, w, start, domain, elements, pv, i - 1);
        lemma_links_hold(start, n, bw, k, i, r, w, pv);
        assert((i - 1) * bw + bw == i * bw) by (nonlinear_arith);
        // The previous block is the permutation row of the previous input.
        let pb = start + (i - 1) * bw;
        let bs = block_steps(start, k, bw);
        assert(bs[i - 1] == Step::Hash(pb as usize));
        assert(step_holds(bs[i - 1], r, w, pv));
        assert(hash_block_holds(r, pb, w));
        let prow = poseidon2_trace_row(r, ins[i - 1]);
        assert(w.subrange(pb, pb + bw) == prow);
    }
    assert forall|lane: int| 0 <= lane < WIDTH implies #[trigger] input[lane] == ins[i][lane] by {
        if lane < taken {
            let q = 4 * i + lane;
            assert(q / 4 == i && q % 4 == lane);
            assert(absorbed_lane(start, bw, q) == b + lane);
            assert(w[b + lane] == elements[q]);
            assert(ins[q / 4][q % 4] == elements[q]);
        } else if i == 0 {
            lemma_sponge_first(r, st, elements, lane);
            let ss = start_steps(start, domain);
            assert(step_holds(ss[lane - 4], r, w, pv));
            if lane == 4 {
                lemma_canonical_eq(w[start + 4] as int, domain as int);
            } else {
                lemma_canonical_eq(w[start + lane] as int, 0);
            }
        } else {
            lemma_sponge_chain(r, st, elements, i, lane);
            let link = chain_link(start, n, bw, i);
            let pb = start + (i - 1) * bw;
            let a = pb + bw - WIDTH + lane;
            assert(link[lane - taken] == Step::Eq(Expr::Col(a as usize), Expr::Col((b + lane) as usize)));
            assert(step_holds(link[lane - taken], r, w, pv));
            lemma_canonical_eq(w[a] as int, w[b + lane] as int);
            let prow = poseidon2_trace_row(r, ins[i - 1]);
            assert(w.subrange(pb, pb + bw)[bw - WIDTH + lane] == prow[bw - WIDTH + lane]);
            assert(prow.len() == bw);
            assert(perm_out(prow)[lane] == prow[bw - WIDTH + lane]);
        }
    }
    lemma_sponge_input_len(r, st, elements, i);
    assert(input =~= ins[i]);
}

/// The blocks of an accepted sponge are the sponge over the elements its
/// absorbed lanes hold.
pub proof fn lemma_sponge_sound(
    r: int,
    w: Seq<u64>,
    start: int,
    domain: u64,
    elements: Seq<u64>,
    pv: Seq<u64>,
    i: int,
)
    requires
        r == 0 || r == 1,
        elements.len() >= RATE,
        domain < P,
        0 <= start,
        start + ((elements.len() + 3) / 4) * block_width_spec(r) <= w.len(),
        w.len() <= usize::MAX,
        all_canonical(w),
        sponge_accepted(r, w, start, domain, elements, pv),
        0 <= i < (elements.len() + 3) / 4,
    ensures
        w.subrange(start + i * block_width_spec(r), start + i * block_width_spec(r) + block_width_spec(r))
            == sponge_from(r, sponge_start(4, domain), elements, 4)[i],
        sponge_from(r, sponge_start(4, domain), elements, 4).len() == (elements.len() + 3) / 4,
{
    let bw = block_width_spec(r);
    let k = ((elements.len() + 3) / 4) as int;
    let st = sponge_start(4, domain);
    let b = start + i * bw;
    assert(i * bw + bw <= k * bw) by (nonlinear_arith)
        requires
            i < k,
            bw >= 0,
    ;
    lemma_sponge_inputs_sound(r, w, start, domain, elements, pv, i);
    lemma_sponge_rows(r, st, elements, 4);
    lemma_sponge_lanes(r, st, elements);
    let bs = block_steps(start, k, bw);
    assert(bs[i] == Step::Hash(b as usize));
    assert(step_holds(bs[i], r, w, pv));
    assert(hash_block_holds(r, b, w));
}


/// The policy fields C9 absorbs, as a row holds them.
pub open spec fn committed_policy(w: Seq<u64>) -> Seq<u64> {
    Seq::new(POLICY_ELEMS as nat, |e: int| w[policy_src_spec(e)])
}

/// The payment fields C7 absorbs, as a row holds them.
pub open spec fn payment_fields(w: Seq<u64>) -> Seq<u64> {
    Seq::new(PAYLOAD_ELEMS as nat, |e: int| w[PAYLOAD_SRC[e] as int])
}

/// The digest C7 computes over payment fields: the first lane of the
/// payload sponge's final output.
pub open spec fn payload_digest_of(r: int, fields: Seq<u64>) -> u64 {
    perm_out(sponge_spec(r, fields, 4, DOMAIN_PAYLOAD).last())[0]
}

/// The parts of the whole circuit the two sponges' guarantees rest on.
proof fn lemma_whole_parts(r: int, md: int, rd: int, w: Seq<u64>, pv: Seq<u64>)
    requires
        all_hold(whole_steps(r, md, rd, 0, true), r, w, pv),
    ensures
        ({
            let o = whole_offsets(r, md, rd);
            let bw = block_width_spec(r);
            &&& all_hold(block_steps(o.0, 4, bw), r, w, pv)
            &&& all_hold(block_steps(o.1, 2, bw), r, w, pv)
            &&& all_hold(binding_steps(policy_sources(0), o.0, bw), r, w, pv)
            &&& all_hold(binding_steps(payload_sources(0), o.1, bw), r, w, pv)
            &&& all_hold(whole_bindings(r, md, rd, 0, false), r, w, pv)
            &&& all_hold(start_steps(o.0, DOMAIN_OPENING), r, w, pv)
            &&& all_hold(chain_steps(o.0, POLICY_ELEMS as int, bw, 4), r, w, pv)
            &&& all_hold(start_steps(o.1, DOMAIN_PAYLOAD), r, w, pv)
            &&& all_hold(chain_steps(o.1, PAYLOAD_ELEMS as int, bw, 2), r, w, pv)
        }),
{
    let o = whole_offsets(r, md, rd);
    let bw = block_width_spec(r);
    let c = whole_components(r, md, rd, 0);
    let b = whole_bindings(r, md, rd, 0, true);
    let g = whole_glue(r, md, rd, 0);
    lemma_all_hold_split(c + b, g, r, w, pv);
    lemma_all_hold_split(c, b, r, w, pv);
    let ps = crate::air::policy_steps(crate::air::ALL_CLAUSES@, 0);
    let h9 = block_steps(o.0, 4, bw);
    let h7 = block_steps(o.1, 2, bw);
    let m1 = crate::expr::shift_steps(crate::merkle::merkle_steps(r, 0, md), o.2);
    let m2 = crate::expr::shift_steps(crate::merkle::merkle_steps(r, 0, md), o.3);
    let n1 = crate::expr::shift_steps(crate::revocation::nonmembership_steps(r, rd, 0), o.4);
    assert(crate::full::C9_PERMUTATIONS == 4);
    assert(crate::whole::PAYLOAD_PERMUTATIONS == 2);
    assert(c =~= ps + h9 + h7 + m1 + m2 + n1);
    lemma_all_hold_split(ps + h9 + h7 + m1 + m2, n1, r, w, pv);
    lemma_all_hold_split(ps + h9 + h7 + m1, m2, r, w, pv);
    lemma_all_hold_split(ps + h9 + h7, m1, r, w, pv);
    lemma_all_hold_split(ps + h9, h7, r, w, pv);
    lemma_all_hold_split(ps, h9, r, w, pv);
    let b9 = binding_steps(policy_sources(0), o.0, bw);
    let rest = whole_bindings(r, md, rd, 0, false);
    assert(b =~= b9 + rest);
    lemma_all_hold_split(b9, rest, r, w, pv);
    let b7 = binding_steps(payload_sources(0), o.1, bw);
    let after7 = rest.subrange(b7.len() as int, rest.len() as int);
    assert(rest =~= b7 + after7);
    lemma_all_hold_split(b7, after7, r, w, pv);
    let s9 = start_steps(o.0, DOMAIN_OPENING);
    let c9 = chain_steps(o.0, POLICY_ELEMS as int, bw, 4);
    let s7 = start_steps(o.1, DOMAIN_PAYLOAD);
    let c7 = chain_steps(o.1, PAYLOAD_ELEMS as int, bw, 2);
    let tail = g.subrange((s9.len() + c9.len() + s7.len() + c7.len()) as int, g.len() as int);
    assert(g =~= s9 + c9 + s7 + c7 + tail);
    lemma_all_hold_split(s9 + c9 + s7 + c7, tail, r, w, pv);
    lemma_all_hold_split(s9 + c9 + s7, c7, r, w, pv);
    lemma_all_hold_split(s9 + c9, s7, r, w, pv);
    lemma_all_hold_split(s9, c9, r, w, pv);
}


/// The absorbed lanes of an accepted sponge hold what its bindings bind them
/// to.
proof fn lemma_bound_lanes(r: int, w: Seq<u64>, pv: Seq<u64>, srcs: Seq<usize>, start: int, perms: int)
    requires
        0 <= r <= 1,
        0 <= start,
        (srcs.len() + 3) / 4 <= perms,
        start + perms * block_width_spec(r) <= w.len(),
        w.len() <= usize::MAX,
        all_canonical(w),
        forall|e: int| 0 <= e < srcs.len() ==> (#[trigger] srcs[e]) < w.len(),
        all_hold(binding_steps(srcs, start, block_width_spec(r)), r, w, pv),
    ensures
        forall|e: int|
            0 <= e < srcs.len() ==> #[trigger] w[absorbed_lane(start, block_width_spec(r), e)] == w[srcs[e] as int],
{
    let bw = block_width_spec(r);
    let bs = binding_steps(srcs, start, bw);
    assert forall|e: int| 0 <= e < srcs.len() implies #[trigger] w[absorbed_lane(start, bw, e)] == w[srcs[e] as int] by {
        let lane = absorbed_lane(start, bw, e);
        assert(e / 4 < perms);
        assert((e / 4) * bw + bw <= perms * bw) by (nonlinear_arith)
            requires
                e / 4 < perms,
                bw >= 0,
        ;
        assert((e / 4) * bw >= 0) by (nonlinear_arith)
            requires
                e >= 0,
                bw >= 0,
        ;
        assert(lane < w.len());
        assert(step_holds(bs[e], r, w, pv));
        lemma_canonical_eq(w[srcs[e] as int] as int, w[lane] as int);
    }
}

/// What C9 and C7 guarantee of every row the whole circuit accepts: the
/// commitment the verifier supplies is the sponge over the very policy columns
/// the clauses read, and the payload digest the verifier supplies is the
/// sponge over the payment's own fields. Without C9's binding to the policy
/// the first no longer holds: `vacuous_trace` is accepted with a cap other
/// than the committed one.
pub proof fn lemma_whole_binds_commitment_and_payload(r: int, md: int, rd: int, w: Seq<u64>, pv: Seq<u64>)
    requires
        whole_trace_ok(r, md, rd, 1),
        w.len() == whole_width_spec(r, md, rd),
        all_canonical(w),
        all_canonical(pv),
        pv.len() == PUBLIC_VALUES,
        all_hold(whole_steps(r, md, rd, 0, true), r, w, pv),
    ensures
        pv.subrange(1 + DIGEST, 1 + 2 * DIGEST) == commitment_spec(r, committed_policy(w)),
        pv[0] == payload_digest_of(r, payment_fields(w)),
{
    let o = whole_offsets(r, md, rd);
    let bw = block_width_spec(r);
    let oo = bw - WIDTH;
    lemma_whole_parts(r, md, rd, w, pv);
    lemma_whole_offsets(r, md, rd);
    // C9 over the policy columns.
    let el9 = committed_policy(w);
    let srcs9 = policy_sources(0);
    assert forall|e: int| 0 <= e < srcs9.len() implies (#[trigger] srcs9[e]) < w.len() by {
        crate::air::lemma_policy_src_distinct(e, if e == 0 { 1 } else { 0 });
    }
    lemma_bound_lanes(r, w, pv, srcs9, o.0, 4);
    assert forall|e: int| 0 <= e < el9.len() implies #[trigger] w[absorbed_lane(o.0, bw, e)] == el9[e] by {
        assert(w[absorbed_lane(o.0, bw, e)] == w[srcs9[e] as int]);
    }
    assert(sponge_accepted(r, w, o.0, DOMAIN_OPENING, el9, pv));
    lemma_sponge_sound(r, w, o.0, DOMAIN_OPENING, el9, pv, 3);
    let blocks9 = sponge_from(r, sponge_start(4, DOMAIN_OPENING), el9, 4);
    // C7 over the payment fields.
    let el7 = payment_fields(w);
    let srcs7 = payload_sources(0);
    lemma_bound_lanes(r, w, pv, srcs7, o.1, 2);
    assert forall|e: int| 0 <= e < el7.len() implies #[trigger] w[absorbed_lane(o.1, bw, e)] == el7[e] by {
        assert(w[absorbed_lane(o.1, bw, e)] == w[srcs7[e] as int]);
    }
    assert(sponge_accepted(r, w, o.1, DOMAIN_PAYLOAD, el7, pv));
    lemma_sponge_sound(r, w, o.1, DOMAIN_PAYLOAD, el7, pv, 1);
    let blocks7 = sponge_from(r, sponge_start(4, DOMAIN_PAYLOAD), el7, 4);
    // The bindings to the public values.
    let rest = whole_bindings(r, md, rd, 0, false);
    let b7 = binding_steps(srcs7, o.1, bw);
    let g_payload = o.5 + DIGEST;
    let last = o.0 + 3 * bw + oo;
    let tail = seq![
        Step::Eq(Expr::Col((o.1 + 1 * bw + oo) as usize), Expr::Col(g_payload as usize)),
        Step::Eq(Expr::Col(g_payload as usize), Expr::Pub(0)),
    ];
    let rr = Seq::new(DIGEST as nat, |j: int| Step::Eq(Expr::Col((o.5 + j) as usize), Expr::Pub((1 + j) as usize)));
    let cm = Seq::new(DIGEST as nat, |j: int| Step::Eq(Expr::Col((last + j) as usize), Expr::Pub((1 + DIGEST + j) as usize)));
    assert(rest =~= b7 + tail + rr + cm);
    lemma_all_hold_split(b7 + tail + rr, cm, r, w, pv);
    lemma_all_hold_split(b7 + tail, rr, r, w, pv);
    lemma_all_hold_split(b7, tail, r, w, pv);
    assert forall|j: int| 0 <= j < DIGEST implies #[trigger] pv[1 + DIGEST + j] == perm_out(blocks9[3])[j] by {
        assert(step_holds(cm[j], r, w, pv));
        lemma_canonical_eq(w[last + j] as int, pv[1 + DIGEST + j] as int);
        assert(w.subrange(o.0 + 3 * bw, o.0 + 3 * bw + bw)[oo + j] == blocks9[3][oo + j]);
    }
    assert(blocks9.last() == blocks9[3]);
    assert(blocks9[3].len() == bw);
    let com = perm_out(blocks9[3]).take(DIGEST as int);
    assert(commitment_spec(r, el9) == com);
    assert forall|j: int| 0 <= j < DIGEST implies #[trigger] com[j] == pv.subrange(1 + DIGEST, 1 + 2 * DIGEST)[j] by {
        assert(pv[1 + DIGEST + j] == perm_out(blocks9[3])[j]);
    }
    assert(pv.subrange(1 + DIGEST, 1 + 2 * DIGEST) =~= com);
    assert(step_holds(tail[0], r, w, pv));
    assert(step_holds(tail[1], r, w, pv));
    lemma_canonical_eq(w[o.1 + bw + oo] as int, w[g_payload] as int);
    lemma_canonical_eq(w[g_payload] as int, pv[0] as int);
    assert(w.subrange(o.1 + 1 * bw, o.1 + 1 * bw + bw)[oo] == blocks7[1][oo]);
    assert(blocks7.last() == blocks7[1]);
}


/// The components and the glue of an accepted whole row, part by part.
proof fn lemma_whole_more_parts(r: int, md: int, rd: int, w: Seq<u64>, pv: Seq<u64>)
    requires
        all_hold(whole_steps(r, md, rd, 0, true), r, w, pv),
    ensures
        ({
            let o = whole_offsets(r, md, rd);
            let lw = level_width_spec(r);
            let g_payload = o.5 + DIGEST;
            let run = o.4 + merkle_width_spec(r, rd);
            &&& all_hold(policy_steps(ALL_CLAUSES@, 0), r, w, pv)
            &&& all_hold(shift_steps(merkle_steps(r, 0, md), o.2), r, w, pv)
            &&& all_hold(shift_steps(merkle_steps(r, 0, md), o.3), r, w, pv)
            &&& all_hold(shift_steps(nonmembership_steps(r, rd, 0), o.4), r, w, pv)
            &&& all_hold(root_steps(0, o.2 + md * lw, o.3 + md * lw, o.5, o.4 + rd * lw), r, w, pv)
            &&& all_hold(leaf_steps(0, o.2, o.3), r, w, pv)
            &&& step_holds(Step::Eq(Expr::Col((g_payload + 1) as usize), Expr::Col(run as usize)), r, w, pv)
            &&& step_holds(Step::Eq(Expr::Col((g_payload + 2) as usize), Expr::Col((run + 1) as usize)), r, w, pv)
            &&& forall|j: int|
                0 <= j < DIGEST ==> #[trigger] step_holds(
                    Step::Eq(Expr::Col((o.5 + j) as usize), Expr::Pub((1 + j) as usize)),
                    r,
                    w,
                    pv,
                )
        }),
{
    let o = whole_offsets(r, md, rd);
    let bw = block_width_spec(r);
    let lw = level_width_spec(r);
    let c = whole_components(r, md, rd, 0);
    let b = whole_bindings(r, md, rd, 0, true);
    let g = whole_glue(r, md, rd, 0);
    lemma_all_hold_split(c + b, g, r, w, pv);
    lemma_all_hold_split(c, b, r, w, pv);
    let ps = policy_steps(ALL_CLAUSES@, 0);
    let h9 = block_steps(o.0, 4, bw);
    let h7 = block_steps(o.1, 2, bw);
    let m1 = shift_steps(merkle_steps(r, 0, md), o.2);
    let m2 = shift_steps(merkle_steps(r, 0, md), o.3);
    let n1 = shift_steps(nonmembership_steps(r, rd, 0), o.4);
    assert(crate::full::C9_PERMUTATIONS == 4);
    assert(crate::whole::PAYLOAD_PERMUTATIONS == 2);
    assert(c =~= ps + h9 + h7 + m1 + m2 + n1);
    lemma_all_hold_split(ps + h9 + h7 + m1 + m2, n1, r, w, pv);
    lemma_all_hold_split(ps + h9 + h7 + m1, m2, r, w, pv);
    lemma_all_hold_split(ps + h9 + h7, m1, r, w, pv);
    lemma_all_hold_split(ps + h9, h7, r, w, pv);
    lemma_all_hold_split(ps, h9, r, w, pv);
    let b9 = binding_steps(policy_sources(0), o.0, bw);
    let rest = whole_bindings(r, md, rd, 0, false);
    assert(b =~= b9 + rest);
    lemma_all_hold_split(b9, rest, r, w, pv);
    let g_payload = o.5 + DIGEST;
    let rr = Seq::new(DIGEST as nat, |j: int| Step::Eq(Expr::Col((o.5 + j) as usize), Expr::Pub((1 + j) as usize)));
    let b7 = binding_steps(payload_sources(0), o.1, bw);
    let tail2 = seq![
        Step::Eq(Expr::Col((o.1 + (crate::whole::PAYLOAD_PERMUTATIONS - 1) * bw + (bw - WIDTH)) as usize), Expr::Col(g_payload as usize)),
        Step::Eq(Expr::Col(g_payload as usize), Expr::Pub(0)),
    ];
    let last = o.0 + (crate::full::C9_PERMUTATIONS - 1) * bw + (bw - WIDTH);
    let cm = Seq::new(DIGEST as nat, |j: int| Step::Eq(Expr::Col((last + j) as usize), Expr::Pub((1 + DIGEST + j) as usize)));
    assert(rest =~= b7 + tail2 + rr + cm);
    lemma_all_hold_split(b7 + tail2 + rr, cm, r, w, pv);
    lemma_all_hold_split(b7 + tail2, rr, r, w, pv);
    assert forall|j: int| 0 <= j < DIGEST implies #[trigger] step_holds(
        Step::Eq(Expr::Col((o.5 + j) as usize), Expr::Pub((1 + j) as usize)),
        r,
        w,
        pv,
    ) by {
        assert(rr[j] == Step::Eq(Expr::Col((o.5 + j) as usize), Expr::Pub((1 + j) as usize)));
    }
    let s9 = start_steps(o.0, DOMAIN_OPENING);
    let c9 = chain_steps(o.0, POLICY_ELEMS as int, bw, 4);
    let s7 = start_steps(o.1, DOMAIN_PAYLOAD);
    let c7 = chain_steps(o.1, PAYLOAD_ELEMS as int, bw, 2);
    let roots = root_steps(0, o.2 + md * lw, o.3 + md * lw, o.5, o.4 + rd * lw);
    let leaves = leaf_steps(0, o.2, o.3);
    let run = o.4 + merkle_width_spec(r, rd);
    let runs = seq![
        Step::Eq(Expr::Col((g_payload + 1) as usize), Expr::Col(run as usize)),
        Step::Eq(Expr::Col((g_payload + 2) as usize), Expr::Col((run + 1) as usize)),
    ];
    assert(g =~= s9 + c9 + s7 + c7 + roots + leaves + runs);
    lemma_all_hold_split(s9 + c9 + s7 + c7 + roots + leaves, runs, r, w, pv);
    lemma_all_hold_split(s9 + c9 + s7 + c7 + roots, leaves, r, w, pv);
    lemma_all_hold_split(s9 + c9 + s7 + c7, roots, r, w, pv);
    assert(step_holds(runs[0], r, w, pv));
    assert(step_holds(runs[1], r, w, pv));
}


/// Where a row holds an accepted path at `off` whose direction bits are
/// bits, the path's root columns hold the digest its own leaf computes.
pub(crate) proof fn lemma_shifted_path(r: int, depth: int, w: Seq<u64>, off: int, pv: Seq<u64>)
    requires
        0 <= r <= 1,
        0 <= depth,
        0 <= off,
        off + merkle_width_spec(r, depth) <= w.len(),
        w.len() <= usize::MAX,
        all_canonical(w),
        all_hold(shift_steps(merkle_steps(r, 0, depth), off), r, w, pv),
        forall|l: int| 0 <= l < depth ==> #[trigger] w[off + l * level_width_spec(r) + 2 * DIGEST] <= 1,
    ensures
        w.subrange(off + depth * level_width_spec(r), off + depth * level_width_spec(r) + DIGEST) == path_digest(
            r,
            w.subrange(off, off + merkle_width_spec(r, depth)),
            depth as nat,
        ),
{
    let lw = level_width_spec(r);
    let mw = merkle_width_spec(r, depth);
    let sub = w.subrange(off, off + mw);
    assert(depth * lw >= 0) by (nonlinear_arith)
        requires
            depth >= 0,
            lw >= 0,
    ;
    crate::merkle::lemma_merkle_within(r, 0, depth, depth);
    crate::expr::lemma_shift_holds_back(merkle_steps(r, 0, depth), r, sub, w, off, pv);
    assert forall|i: int| 0 <= i < sub.len() implies #[trigger] sub[i] < P by {
        assert(sub[i] == w[off + i]);
    }
    assert forall|l: int| 0 <= l < depth implies #[trigger] sub[l * lw + 2 * DIGEST] <= 1 by {
        assert(l * lw + 2 * DIGEST < mw) by (nonlinear_arith)
            requires
                0 <= l < depth,
                lw == 2 * DIGEST + 1 + block_width_spec(r),
                mw == depth * lw + DIGEST,
                block_width_spec(r) >= 0,
        ;
        assert(sub[l * lw + 2 * DIGEST] == w[off + l * lw + 2 * DIGEST]);
    }
    crate::merkle::lemma_merkle_path_computes_root(r, depth, depth, sub, pv);
    assert(w.subrange(off + depth * lw, off + depth * lw + DIGEST) =~= sub.subrange(depth * lw, depth * lw + DIGEST));
}

/// The merchant allowlist path of a whole row.
pub open spec fn merchant_path(r: int, md: int, rd: int, w: Seq<u64>) -> Seq<u64> {
    let o = whole_offsets(r, md, rd);
    w.subrange(o.2, o.2 + merkle_width_spec(r, md))
}

/// The category allowlist path of a whole row.
pub open spec fn category_path(r: int, md: int, rd: int, w: Seq<u64>) -> Seq<u64> {
    let o = whole_offsets(r, md, rd);
    w.subrange(o.3, o.3 + merkle_width_spec(r, md))
}

/// The direction bits of both allowlist paths of a whole row are bits.
pub open spec fn allowlist_bits(r: int, md: int, rd: int, w: Seq<u64>) -> bool {
    let o = whole_offsets(r, md, rd);
    forall|l: int| 0 <= l < md ==> {
        &&& #[trigger] w[o.2 + l * level_width_spec(r) + 2 * DIGEST] <= 1
        &&& w[o.3 + l * level_width_spec(r) + 2 * DIGEST] <= 1
    }
}

/// The roots the allowlist paths end in are the roots the policy columns hold.
proof fn lemma_allowlist_roots(r: int, md: int, rd: int, w: Seq<u64>, pv: Seq<u64>)
    requires
        whole_trace_ok(r, md, rd, 1),
        w.len() == whole_width_spec(r, md, rd),
        all_canonical(w),
        all_hold(whole_steps(r, md, rd, 0, true), r, w, pv),
    ensures
        ({
            let o = whole_offsets(r, md, rd);
            let lw = level_width_spec(r);
            &&& w.subrange(COL_MROOT as int, COL_MROOT + DIGEST) == w.subrange(o.2 + md * lw, o.2 + md * lw + DIGEST)
            &&& w.subrange(COL_CROOT as int, COL_CROOT + DIGEST) == w.subrange(o.3 + md * lw, o.3 + md * lw + DIGEST)
        }),
{
    let o = whole_offsets(r, md, rd);
    let lw = level_width_spec(r);
    lemma_whole_offsets(r, md, rd);
    lemma_whole_more_parts(r, md, rd, w, pv);
    let roots = root_steps(0, o.2 + md * lw, o.3 + md * lw, o.5, o.4 + rd * lw);
    let mr = w.subrange(COL_MROOT as int, COL_MROOT + DIGEST);
    let cr = w.subrange(COL_CROOT as int, COL_CROOT + DIGEST);
    let mt = w.subrange(o.2 + md * lw, o.2 + md * lw + DIGEST);
    let ct = w.subrange(o.3 + md * lw, o.3 + md * lw + DIGEST);
    assert forall|j: int| 0 <= j < DIGEST implies #[trigger] mr[j] == mt[j] by {
        assert(step_holds(roots[3 * j], r, w, pv));
        lemma_canonical_eq(w[COL_MROOT + j] as int, w[o.2 + md * lw + j] as int);
    }
    assert forall|j: int| 0 <= j < DIGEST implies #[trigger] cr[j] == ct[j] by {
        assert(step_holds(roots[3 * j + 1], r, w, pv));
        lemma_canonical_eq(w[COL_CROOT + j] as int, w[o.3 + md * lw + j] as int);
    }
    assert(mr =~= mt);
    assert(cr =~= ct);
}

/// Lane `k` past the first of each allowlist leaf is zero.
proof fn lemma_leaf_zero(r: int, md: int, rd: int, w: Seq<u64>, pv: Seq<u64>, k: int)
    requires
        whole_trace_ok(r, md, rd, 1),
        w.len() == whole_width_spec(r, md, rd),
        all_canonical(w),
        all_hold(whole_steps(r, md, rd, 0, true), r, w, pv),
        1 <= k < DIGEST,
    ensures
        w[whole_offsets(r, md, rd).2 + k] == 0,
        w[whole_offsets(r, md, rd).3 + k] == 0,
{
    let o = whole_offsets(r, md, rd);
    lemma_whole_offsets(r, md, rd);
    lemma_whole_more_parts(r, md, rd, w, pv);
    let leaves = leaf_steps(0, o.2, o.3);
    let q0 = 2 * (k - 1);
    assert(leaves[2 + q0] == Step::Zero(Expr::Col((o.2 + k) as usize)));
    assert(leaves[2 + q0 + 1] == Step::Zero(Expr::Col((o.3 + k) as usize)));
    assert(step_holds(leaves[2 + q0], r, w, pv));
    assert(step_holds(leaves[2 + q0 + 1], r, w, pv));
    vstd::arithmetic::div_mod::lemma_small_mod(w[o.2 + k] as nat, P as nat);
    vstd::arithmetic::div_mod::lemma_small_mod(w[o.3 + k] as nat, P as nat);
}

/// The leaves the allowlist paths start from carry the merchant and category
/// identifiers in their first lanes and zeros in the rest.
proof fn lemma_allowlist_leaves(r: int, md: int, rd: int, w: Seq<u64>, pv: Seq<u64>)
    requires
        whole_trace_ok(r, md, rd, 1),
        w.len() == whole_width_spec(r, md, rd),
        all_canonical(w),
        all_hold(whole_steps(r, md, rd, 0, true), r, w, pv),
    ensures
        ({
            let o = whole_offsets(r, md, rd);
            &&& w.subrange(o.2, o.2 + DIGEST) == seq![w[COL_MID as int], 0, 0, 0]
            &&& w.subrange(o.3, o.3 + DIGEST) == seq![w[COL_CID as int], 0, 0, 0]
        }),
{
    let o = whole_offsets(r, md, rd);
    lemma_whole_offsets(r, md, rd);
    lemma_whole_more_parts(r, md, rd, w, pv);
    let leaves = leaf_steps(0, o.2, o.3);
    assert(step_holds(leaves[0], r, w, pv));
    assert(step_holds(leaves[1], r, w, pv));
    lemma_canonical_eq(w[COL_MID as int] as int, w[o.2] as int);
    lemma_canonical_eq(w[COL_CID as int] as int, w[o.3] as int);
    lemma_leaf_zero(r, md, rd, w, pv, 1);
    lemma_leaf_zero(r, md, rd, w, pv, 2);
    lemma_leaf_zero(r, md, rd, w, pv, 3);
    assert(w.subrange(o.2, o.2 + DIGEST) =~= seq![w[COL_MID as int], 0, 0, 0]);
    assert(w.subrange(o.3, o.3 + DIGEST) =~= seq![w[COL_CID as int], 0, 0, 0]);
}

/// What the whole circuit guarantees of the allowlists of every row it
/// accepts, with the paths' direction bits taken to be bits: the merchant
/// path starts from the leaf carrying the payment's merchant identifier in its
/// first lane and zeros in the rest, and ends in the merchant root the policy
/// columns hold, which C9 commits to; the category path likewise for the
/// category identifier and root.
pub proof fn lemma_whole_allowlists(r: int, md: int, rd: int, w: Seq<u64>, pv: Seq<u64>)
    requires
        whole_trace_ok(r, md, rd, 1),
        w.len() == whole_width_spec(r, md, rd),
        all_canonical(w),
        all_hold(whole_steps(r, md, rd, 0, true), r, w, pv),
        allowlist_bits(r, md, rd, w),
    ensures
        w.subrange(COL_MROOT as int, COL_MROOT + DIGEST) == path_digest(r, merchant_path(r, md, rd, w), md as nat),
        merchant_path(r, md, rd, w).subrange(0, DIGEST as int) == seq![w[COL_MID as int], 0, 0, 0],
        w.subrange(COL_CROOT as int, COL_CROOT + DIGEST) == path_digest(r, category_path(r, md, rd, w), md as nat),
        category_path(r, md, rd, w).subrange(0, DIGEST as int) == seq![w[COL_CID as int], 0, 0, 0],
{
    let o = whole_offsets(r, md, rd);
    let lw = level_width_spec(r);
    let mw = merkle_width_spec(r, md);
    lemma_whole_offsets(r, md, rd);
    lemma_whole_more_parts(r, md, rd, w, pv);
    assert forall|l: int| 0 <= l < md implies #[trigger] w[o.2 + l * lw + 2 * DIGEST] <= 1 by {}
    assert forall|l: int| 0 <= l < md implies #[trigger] w[o.3 + l * lw + 2 * DIGEST] <= 1 by {
        assert(w[o.2 + l * lw + 2 * DIGEST] <= 1);
    }
    lemma_shifted_path(r, md, w, o.2, pv);
    lemma_shifted_path(r, md, w, o.3, pv);
    lemma_allowlist_roots(r, md, rd, w, pv);
    lemma_allowlist_leaves(r, md, rd, w, pv);
    assert(md * lw >= 0) by (nonlinear_arith)
        requires
            md >= 0,
            lw >= 0,
    ;
    assert(merchant_path(r, md, rd, w).subrange(0, DIGEST as int) =~= w.subrange(o.2, o.2 + DIGEST));
    assert(category_path(r, md, rd, w).subrange(0, DIGEST as int) =~= w.subrange(o.3, o.3 + DIGEST));
}


/// What the whole circuit guarantees of the policy of every row it accepts,
/// with the range checks' cells taken to be bits: the policy circuit's own
/// guarantees, over the very columns C9 commits to.
pub proof fn lemma_whole_enforces_clauses(r: int, md: int, rd: int, w: Seq<u64>, pv: Seq<u64>)
    requires
        whole_trace_ok(r, md, rd, 1),
        w.len() == whole_width_spec(r, md, rd),
        all_canonical(w),
        all_hold(whole_steps(r, md, rd, 0, true), r, w, pv),
        forall|k: int| VALUE_COLS <= k < POLICY_WIDTH ==> #[trigger] w[k] <= 1,
    ensures
        w[crate::air::COL_MID as int] == w[crate::air::COL_PAYEE as int],
        w[crate::air::COL_MERCHANT_OK as int] == 1,
        w[crate::air::COL_CATEGORY_OK as int] == 1,
        crate::trace::ordered_within_range(w[crate::air::COL_C as int], w[crate::air::COL_AMOUNT as int]),
        crate::trace::ordered_within_range(w[crate::air::COL_T as int], w[crate::air::COL_TSTART as int]),
        crate::trace::ordered_within_range(w[crate::air::COL_TEXP as int], w[crate::air::COL_T as int]),
{
    lemma_whole_offsets(r, md, rd);
    lemma_whole_more_parts(r, md, rd, w, pv);
    crate::trace::lemma_policy_circuit_enforces_clauses(w, r, pv);
}

/// The non-revocation part of a whole row.
pub open spec fn revocation_part(r: int, md: int, rd: int, w: Seq<u64>) -> Seq<u64> {
    let o = whole_offsets(r, md, rd);
    w.subrange(o.4, o.4 + nonmembership_width_spec(r, rd))
}

/// The direction bits of the non-revocation path and the cells of its range
/// checks are bits.
pub open spec fn revocation_bits(r: int, md: int, rd: int, w: Seq<u64>) -> bool {
    let o = whole_offsets(r, md, rd);
    let pw = merkle_width_spec(r, rd);
    &&& forall|l: int| 0 <= l < rd ==> #[trigger] w[o.4 + l * level_width_spec(r) + 2 * DIGEST] <= 1
    &&& forall|k: int| pw + RUN_COLS <= k < nonmembership_width_spec(r, rd) ==> #[trigger] w[o.4 + k] <= 1
}

/// What the whole circuit guarantees of non-revocation for every row it
/// accepts, with the path's direction bits and the range checks' cells taken
/// to be bits: C8's path ends in the revocation root the verifier supplies,
/// the run C8 checks is the run the glue carries, and C8's guarantee holds of
/// it (for values below p - 2^(RANGE_BITS + 1)).
pub proof fn lemma_whole_revocation(r: int, md: int, rd: int, w: Seq<u64>, pv: Seq<u64>)
    requires
        whole_trace_ok(r, md, rd, 1),
        w.len() == whole_width_spec(r, md, rd),
        all_canonical(w),
        all_canonical(pv),
        pv.len() == PUBLIC_VALUES,
        all_hold(whole_steps(r, md, rd, 0, true), r, w, pv),
        revocation_bits(r, md, rd, w),
        nm_values_small(revocation_part(r, md, rd, w), merkle_width_spec(r, rd)),
    ensures
        pv.subrange(1, 1 + DIGEST) == path_digest(r, revocation_part(r, md, rd, w), rd as nat),
        revocation_part(r, md, rd, w)[merkle_width_spec(r, rd) + RUN_LO] == w[whole_offsets(r, md, rd).5 + DIGEST + 1],
        revocation_part(r, md, rd, w)[merkle_width_spec(r, rd) + RUN_HI] == w[whole_offsets(r, md, rd).5 + DIGEST + 2],
        run_unrevoked(revocation_part(r, md, rd, w), merkle_width_spec(r, rd)),
{
    let o = whole_offsets(r, md, rd);
    let lw = level_width_spec(r);
    let pw = merkle_width_spec(r, rd);
    let nw = nonmembership_width_spec(r, rd);
    let sub = revocation_part(r, md, rd, w);
    lemma_whole_offsets(r, md, rd);
    lemma_whole_more_parts(r, md, rd, w, pv);
    assert(rd * lw >= 0) by (nonlinear_arith)
        requires
            rd >= 0,
            lw >= 0,
    ;
    crate::revocation::lemma_nonmembership_within(r, rd);
    crate::expr::lemma_shift_holds_back(nonmembership_steps(r, rd, 0), r, sub, w, o.4, pv);
    assert forall|i: int| 0 <= i < sub.len() implies #[trigger] sub[i] < P by {
        assert(sub[i] == w[o.4 + i]);
    }
    assert forall|k: int| pw + RUN_COLS <= k < nw implies #[trigger] sub[k] <= 1 by {
        assert(sub[k] == w[o.4 + k]);
    }
    assert forall|l: int| 0 <= l < rd implies #[trigger] sub[l * lw + 2 * DIGEST] <= 1 by {
        assert(l * lw + 2 * DIGEST < pw) by (nonlinear_arith)
            requires
                0 <= l < rd,
                lw == 2 * DIGEST + 1 + block_width_spec(r),
                pw == rd * lw + DIGEST,
                block_width_spec(r) >= 0,
        ;
        assert(sub[l * lw + 2 * DIGEST] == w[o.4 + l * lw + 2 * DIGEST]);
    }
    crate::revocation::lemma_nonmembership_accepts_only_unrevoked_runs(r, rd, sub, pv);
    let roots = root_steps(0, o.2 + md * lw, o.3 + md * lw, o.5, o.4 + rd * lw);
    let root = sub.subrange(rd * lw, rd * lw + DIGEST);
    assert forall|j: int| 0 <= j < DIGEST implies #[trigger] pv.subrange(1, 1 + DIGEST)[j] == root[j] by {
        assert(step_holds(roots[3 * j + 2], r, w, pv));
        assert(step_holds(Step::Eq(Expr::Col((o.5 + j) as usize), Expr::Pub((1 + j) as usize)), r, w, pv));
        lemma_canonical_eq(w[o.5 + j] as int, w[o.4 + rd * lw + j] as int);
        lemma_canonical_eq(w[o.5 + j] as int, pv[1 + j] as int);
        assert(root[j] == w[o.4 + rd * lw + j]);
    }
    assert(pv.subrange(1, 1 + DIGEST) =~= root);
    let g_payload = o.5 + DIGEST;
    let run = o.4 + pw;
    lemma_canonical_eq(w[g_payload + 1] as int, w[run] as int);
    lemma_canonical_eq(w[g_payload + 2] as int, w[run + 1] as int);
    assert(sub[pw + RUN_LO] == w[run]);
    assert(sub[pw + RUN_HI] == w[run + 1]);
}

} // verus!
