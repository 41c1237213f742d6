//! What the policy circuit accepts for any set of circuit clauses, clause by
//! clause, and how many constraints each clause costs.
use crate::air::{
    all_gaps, clause_direct, clause_gaps, clause_range_checks, direct_steps, is_circuit_clause, lemma_all_gaps_len,
    lemma_sum_range_checks_bound, policy_steps, range_blocks_spec, sum_range_checks, Clause, COL_AMOUNT, COL_C,
    COL_CATEGORY_OK, COL_MERCHANT_OK, COL_MID, COL_PAYEE, COL_T, COL_TEXP, COL_TSTART, RANGE_BITS, VALUE_COLS,
};
use crate::expr::{all_hold, eval, is_zero_mod, lemma_all_hold_concat, lemma_all_hold_split, Expr, Step};
use crate::trace::{block_ok, lemma_range_block_iff};
use vstd::prelude::*;

verus! {

/// What clause `c` demands of a row in the field, for a policy at column
/// offset `base` whose range-check blocks for `c` start at `first`:
/// C1, the cap minus the amount decomposes into the block; C3, the payee is
/// the merchant and the merchant verdict is one; C4, the category verdict is
/// one; C5, the time minus the window's start and the window's end minus the
/// time decompose into two consecutive blocks.
pub open spec fn clause_holds(c: Clause, row: Seq<u64>, base: int, first: int) -> bool {
    match c {
        Clause::C1Cap => block_ok(row, row[base + COL_C] - row[base + COL_AMOUNT], first),
        Clause::C3Merchant => is_zero_mod(row[base + COL_MID] - row[base + COL_PAYEE]) && is_zero_mod(
            row[base + COL_MERCHANT_OK] - 1,
        ),
        Clause::C4Category => is_zero_mod(row[base + COL_CATEGORY_OK] - 1),
        Clause::C5Temporal => block_ok(row, row[base + COL_T] - row[base + COL_TSTART], first) && block_ok(
            row,
            row[base + COL_TEXP] - row[base + COL_T],
            first + RANGE_BITS,
        ),
        _ => true,
    }
}

/// Every clause of `s` holds, each clause's blocks allocated after those of
/// the clauses before it, from the first column past the value columns.
pub open spec fn clauses_hold(s: Seq<Clause>, row: Seq<u64>, base: int) -> bool {
    forall|i: int|
        0 <= i < s.len() ==> #[trigger] clause_holds(
            s[i],
            row,
            base,
            base + VALUE_COLS + RANGE_BITS * sum_range_checks(s.take(i)),
        )
}

/// The constraints clause `c` costs on its own: one per direct assertion
/// and, per range check, one per bit and one for the recomposition.
pub open spec fn clause_cost(c: Clause) -> int {
    match c {
        Clause::C1Cap => RANGE_BITS + 1,
        Clause::C3Merchant => 2,
        Clause::C4Category => 1,
        Clause::C5Temporal => 2 * (RANGE_BITS + 1),
        _ => 0,
    }
}

pub open spec fn total_cost(s: Seq<Clause>) -> int
    decreases s.len(),
{
    if s.len() == 0 {
        0
    } else {
        total_cost(s.drop_last()) + clause_cost(s.last())
    }
}

proof fn lemma_all_hold_concat_iff(a: Seq<Step>, b: Seq<Step>, r: int, row: Seq<u64>, pv: Seq<u64>)
    ensures
        all_hold(a + b, r, row, pv) <==> all_hold(a, r, row, pv) && all_hold(b, r, row, pv),
{
    if all_hold(a + b, r, row, pv) {
        lemma_all_hold_split(a, b, r, row, pv);
    }
    if all_hold(a, r, row, pv) && all_hold(b, r, row, pv) {
        lemma_all_hold_concat(a, b, r, row, pv);
    }
}

/// Range checks over two runs of gaps are the first run's checks, then the
/// second's on the blocks after.
proof fn lemma_range_blocks_append(g1: Seq<Expr>, g2: Seq<Expr>, first: int)
    ensures
        range_blocks_spec(g1 + g2, first) == range_blocks_spec(g1, first) + range_blocks_spec(
            g2,
            first + g1.len() * RANGE_BITS,
        ),
    decreases g2.len(),
{
    if g2.len() == 0 {
        assert(g1 + g2 =~= g1);
        assert(range_blocks_spec(g1, first) + range_blocks_spec(g2, first + g1.len() * RANGE_BITS) =~= range_blocks_spec(g1, first));
    } else {
        let g = g1 + g2;
        assert(g.drop_last() =~= g1 + g2.drop_last());
        assert(g.last() == g2.last());
        lemma_range_blocks_append(g1, g2.drop_last(), first);
        assert(first + (g.len() - 1) * RANGE_BITS == first + g1.len() * RANGE_BITS + (g2.len() - 1) * RANGE_BITS)
            by (nonlinear_arith)
            requires
                g.len() == g1.len() + g2.len(),
        ;
        assert(range_blocks_spec(g, first) =~= range_blocks_spec(g1, first) + range_blocks_spec(
            g2,
            first + g1.len() * RANGE_BITS,
        ));
    }
}

/// One clause's constraints hold exactly where the clause does.
proof fn lemma_clause_iff(c: Clause, base: int, first: int, r: int, row: Seq<u64>, pv: Seq<u64>)
    requires
        is_circuit_clause(c),
        0 <= base,
        0 <= first,
        base + VALUE_COLS <= usize::MAX,
        first + 2 * RANGE_BITS <= usize::MAX,
    ensures
        all_hold(clause_direct(c, base), r, row, pv) && all_hold(
            range_blocks_spec(clause_gaps(c, base), first),
            r,
            row,
            pv,
        ) <==> clause_holds(c, row, base, first),
{
    reveal_with_fuel(eval, 2);
    let d = clause_direct(c, base);
    let g = clause_gaps(c, base);
    match c {
        Clause::C1Cap => {
            assert(g.drop_last() =~= Seq::<Expr>::empty());
            assert(range_blocks_spec(g.drop_last(), first) =~= Seq::<Step>::empty());
            assert(g.last() == g[0]);
            assert(first + (g.len() - 1) * RANGE_BITS == first);
            assert(range_blocks_spec(g, first) == range_blocks_spec(g.drop_last(), first) + crate::air::range_block_spec(g[0], first));
            assert(range_blocks_spec(g, first) =~= crate::air::range_block_spec(g[0], first));
            lemma_range_block_iff(g[0], first, r, row, pv);
            assert(d =~= Seq::<Step>::empty());
        },
        Clause::C5Temporal => {
            assert(g.drop_last().drop_last() =~= Seq::<Expr>::empty());
            assert(g.drop_last() =~= seq![g[0]]);
            let g1 = g.drop_last();
            assert(range_blocks_spec(g1.drop_last(), first) =~= Seq::<Step>::empty());
            assert(g1.last() == g[0]);
            assert(first + (g1.len() - 1) * RANGE_BITS == first);
            assert(range_blocks_spec(g1, first) == range_blocks_spec(g1.drop_last(), first) + crate::air::range_block_spec(g[0], first));
            assert(range_blocks_spec(g1, first) =~= crate::air::range_block_spec(g[0], first));
            assert(g.last() == g[1]);
            assert(first + (g.len() - 1) * RANGE_BITS == first + RANGE_BITS);
            assert(range_blocks_spec(g, first) == range_blocks_spec(g1, first) + crate::air::range_block_spec(g[1], first + RANGE_BITS));
            assert(range_blocks_spec(g, first) =~= crate::air::range_block_spec(g[0], first)
                + crate::air::range_block_spec(g[1], first + RANGE_BITS));
            lemma_range_block_iff(g[0], first, r, row, pv);
            lemma_range_block_iff(g[1], first + RANGE_BITS, r, row, pv);
            lemma_all_hold_concat_iff(
                crate::air::range_block_spec(g[0], first),
                crate::air::range_block_spec(g[1], first + RANGE_BITS),
                r,
                row,
                pv,
            );
            assert(d =~= Seq::<Step>::empty());
        },
        Clause::C3Merchant => {
            assert(range_blocks_spec(g, first) =~= Seq::<Step>::empty());
            if all_hold(d, r, row, pv) {
                assert(crate::expr::step_holds(d[0], r, row, pv));
                assert(crate::expr::step_holds(d[1], r, row, pv));
            }
            if clause_holds(c, row, base, first) {
                assert forall|i: int| 0 <= i < d.len() implies #[trigger] crate::expr::step_holds(d[i], r, row, pv) by {}
            }
        },
        Clause::C4Category => {
            assert(range_blocks_spec(g, first) =~= Seq::<Step>::empty());
            if all_hold(d, r, row, pv) {
                assert(crate::expr::step_holds(d[0], r, row, pv));
            }
            if clause_holds(c, row, base, first) {
                assert forall|i: int| 0 <= i < d.len() implies #[trigger] crate::expr::step_holds(d[i], r, row, pv) by {}
            }
        },
        _ => {},
    }
}

/// What the policy circuit accepts, for any list of circuit clauses at any
/// offset: a row satisfies its constraints exactly where every clause holds
/// of it, each with its own range-check blocks allocated in clause order
/// after the value columns.
pub proof fn lemma_policy_steps_iff(s: Seq<Clause>, base: int, r: int, row: Seq<u64>, pv: Seq<u64>)
    requires
        forall|i: int| 0 <= i < s.len() ==> is_circuit_clause(#[trigger] s[i]),
        0 <= base,
        base + VALUE_COLS + 2 * s.len() * RANGE_BITS <= usize::MAX,
    ensures
        all_hold(policy_steps(s, base), r, row, pv) <==> clauses_hold(s, row, base),
    decreases s.len(),
{
    let f = base + VALUE_COLS;
    if s.len() == 0 {
        assert(policy_steps(s, base) =~= Seq::<Step>::empty());
    } else {
        let p = s.drop_last();
        let c = s.last();
        assert(forall|i: int| 0 <= i < p.len() ==> is_circuit_clause(#[trigger] p[i])) by {
            assert forall|i: int| 0 <= i < p.len() implies is_circuit_clause(#[trigger] p[i]) by {
                assert(p[i] == s[i]);
            }
        }
        assert(is_circuit_clause(s[s.len() - 1]));
        lemma_policy_steps_iff(p, base, r, row, pv);
        lemma_all_gaps_len(p, base);
        lemma_sum_range_checks_bound(p);
        let n = sum_range_checks(p);
        let first = f + RANGE_BITS * n;
        assert(n * RANGE_BITS == RANGE_BITS * n);
        assert(first + 2 * RANGE_BITS <= usize::MAX) by (nonlinear_arith)
            requires
                first == f + RANGE_BITS * n,
                n <= 2 * p.len(),
                p.len() + 1 == s.len(),
                f + 2 * s.len() * RANGE_BITS <= usize::MAX,
        ;
        assert(f + 2 * p.len() * RANGE_BITS <= usize::MAX) by (nonlinear_arith)
            requires
                p.len() + 1 == s.len(),
                f + 2 * s.len() * RANGE_BITS <= usize::MAX,
        ;
        assert(RANGE_BITS * n >= 0) by (nonlinear_arith)
            requires
                n >= 0,
        ;
        let dp = direct_steps(p, base);
        let dc = clause_direct(c, base);
        let gp = all_gaps(p, base);
        let gc = clause_gaps(c, base);
        lemma_range_blocks_append(gp, gc, f);
        let rp = range_blocks_spec(gp, f);
        let rc = range_blocks_spec(gc, first);
        assert(direct_steps(s, base) == dp + dc);
        assert(all_gaps(s, base) == gp + gc);
        assert(gp.len() * RANGE_BITS == RANGE_BITS * n);
        assert(range_blocks_spec(gp + gc, f) == rp + rc);
        assert(policy_steps(s, base) == (dp + dc) + (rp + rc));
        assert(policy_steps(p, base) == dp + rp);
        lemma_all_hold_concat_iff(dp + dc, rp + rc, r, row, pv);
        lemma_all_hold_concat_iff(dp, dc, r, row, pv);
        lemma_all_hold_concat_iff(rp, rc, r, row, pv);
        lemma_all_hold_concat_iff(dp, rp, r, row, pv);
        lemma_clause_iff(c, base, first, r, row, pv);
        // The clauses before the last see the same blocks in `s` as in `p`.
        assert forall|i: int| 0 <= i < p.len() implies #[trigger] s.take(i) == p.take(i) by {
            assert(s.take(i) =~= p.take(i));
        }
        assert(s.take(p.len() as int) =~= p);
        if clauses_hold(s, row, base) {
            assert forall|i: int| 0 <= i < p.len() implies #[trigger] clause_holds(
                p[i],
                row,
                base,
                base + VALUE_COLS + RANGE_BITS * sum_range_checks(p.take(i)),
            ) by {
                assert(s.take(i) == p.take(i));
                assert(p[i] == s[i]);
                assert(clause_holds(s[i], row, base, base + VALUE_COLS + RANGE_BITS * sum_range_checks(s.take(i))));
            }
            assert(clause_holds(s[p.len() as int], row, base, base + VALUE_COLS + RANGE_BITS * sum_range_checks(s.take(p.len() as int))));
        }
        if clauses_hold(p, row, base) && clause_holds(c, row, base, first) {
            assert forall|i: int| 0 <= i < s.len() implies #[trigger] clause_holds(
                s[i],
                row,
                base,
                base + VALUE_COLS + RANGE_BITS * sum_range_checks(s.take(i)),
            ) by {
                if i < p.len() {
                    assert(s.take(i) == p.take(i));
                    assert(p[i] == s[i]);
                    assert(clause_holds(p[i], row, base, base + VALUE_COLS + RANGE_BITS * sum_range_checks(p.take(i))));
                }
            }
        }
    }
}

/// Each circuit clause taken alone: its circuit accepts a row exactly where
/// the clause holds of it, with its blocks right after the value columns.
pub proof fn lemma_single_clause_iff(c: Clause, base: int, r: int, row: Seq<u64>, pv: Seq<u64>)
    requires
        is_circuit_clause(c),
        0 <= base,
        base + VALUE_COLS + 2 * RANGE_BITS <= usize::MAX,
    ensures
        all_hold(policy_steps(seq![c], base), r, row, pv) <==> clause_holds(c, row, base, base + VALUE_COLS),
{
    let s = seq![c];
    lemma_policy_steps_iff(s, base, r, row, pv);
    assert(s.take(0) =~= Seq::<Clause>::empty());
    if clause_holds(c, row, base, base + VALUE_COLS) {
        assert forall|i: int| 0 <= i < s.len() implies #[trigger] clause_holds(
            s[i],
            row,
            base,
            base + VALUE_COLS + RANGE_BITS * sum_range_checks(s.take(i)),
        ) by {}
    }
    if clauses_hold(s, row, base) {
        assert(clause_holds(s[0], row, base, base + VALUE_COLS + RANGE_BITS * sum_range_checks(s.take(0))));
    }
}

/// What a policy circuit costs: its constraint count is the sum of its
/// clauses' own costs, two for C3, one for C4, one more than the bit count
/// per range check.
pub proof fn lemma_policy_steps_len(s: Seq<Clause>, base: int)
    requires
        forall|i: int| 0 <= i < s.len() ==> is_circuit_clause(#[trigger] s[i]),
    ensures
        policy_steps(s, base).len() == total_cost(s),
    decreases s.len(),
{
    if s.len() > 0 {
        let p = s.drop_last();
        assert forall|i: int| 0 <= i < p.len() implies is_circuit_clause(#[trigger] p[i]) by {
            assert(p[i] == s[i]);
        }
        assert(is_circuit_clause(s[s.len() - 1]));
        lemma_policy_steps_len(p, base);
        lemma_range_blocks_append(all_gaps(p, base), clause_gaps(s.last(), base), base + VALUE_COLS);
        lemma_range_blocks_len(all_gaps(p, base), base + VALUE_COLS);
        lemma_range_blocks_len(clause_gaps(s.last(), base), base + VALUE_COLS + all_gaps(p, base).len() * RANGE_BITS);
        lemma_range_blocks_len(all_gaps(s, base), base + VALUE_COLS);
    }
}

proof fn lemma_range_blocks_len(g: Seq<Expr>, first: int)
    ensures
        range_blocks_spec(g, first).len() == g.len() * (RANGE_BITS + 1),
    decreases g.len(),
{
    if g.len() > 0 {
        lemma_range_blocks_len(g.drop_last(), first);
        assert(g.drop_last().len() * (RANGE_BITS + 1) + RANGE_BITS + 1 == g.len() * (RANGE_BITS + 1)) by (nonlinear_arith)
            requires
                g.drop_last().len() + 1 == g.len(),
        ;
    }
}

} // verus!
