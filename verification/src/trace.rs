//! Witness generation for the compliance circuits, and the corrupted traces
//! the negative controls prove against.
use crate::air::{
    all_gaps, bit, bits_seq, low_bits, bits_of, lemma_bits_weighted, lemma_recompose_eval, lemma_weighted_frame,
    recompose_spec, weighted, direct_steps, lemma_range_block_bounds_gap, lemma_range_block_holds, policy_steps, range_block_spec,
    range_blocks_spec, Clause, ALL_CLAUSES, COL_AMOUNT, COL_B, COL_C, COL_CATEGORY_OK, COL_CID, COL_CROOT, COL_G,
    COL_MERCHANT_OK, COL_MID, COL_MROOT, COL_N, COL_NONCE, COL_PAYEE, COL_R, COL_T, COL_TEXP,
    COL_TSTART, COL_W, DIGEST, RANGE_BITS, VALUE_COLS,
};
use crate::expr::{
    all_hold, hash_block_holds, eval, lemma_all_hold_concat, lemma_some_fails_concat, some_fails, step_holds, Expr,
    Step,
};
use crate::field::{all_canonical, from_u64, P};
use crate::gen::{generated, perm_out, perm_output, perm_row, poseidon2_trace_row};
use crate::hash::{block_width, block_width_spec, WIDTH};
use crate::revocation::{nonmembership_steps, nonmembership_width_spec, RUN_COLS};
use crate::merkle::{lane_steps, lanes_spec, left_expr, level_steps, level_width_spec, merkle_steps, merkle_width_spec, right_expr};
use crate::table::{append, lemma_repeats_one, lemma_repeats_row, put, raise, repeat, splice, zero_seq, zeros, Trace};
use vstd::arithmetic::power2::pow2;
use vstd::prelude::*;

verus! {

/// Range-check blocks the policy circuit allocates for its clauses: C1, then
/// C5's two endpoints.
pub const GAP_BLOCKS: usize = 3;

/// Width of the policy circuit's trace.
pub const POLICY_WIDTH: usize = VALUE_COLS + GAP_BLOCKS * RANGE_BITS;

/// A payment that satisfies every clause, with room to spare in each gap.
pub struct Row {
    pub amount: u64,
    pub cap: u64,
    pub budget: u64,
    pub t: u64,
    pub t_start: u64,
    pub t_exp: u64,
    pub velocity_n: u64,
}

pub const GOOD_AMOUNT: u64 = 10;

pub const GOOD_CAP: u64 = 200;

/// The budget is the unit size times the spendable count: 4 * 1536.
pub const GOOD_BUDGET: u64 = 6144;

pub const GOOD_T: u64 = 5000;

pub const GOOD_T_START: u64 = 1000;

pub const GOOD_T_EXP: u64 = 9000;

pub const GOOD_VELOCITY_N: u64 = 5;

/// The delegation holds SPENDABLE units from BASE_INDEX.
pub const SPENDABLE: u64 = 1536;

pub const BASE_INDEX: u64 = 0;

/// The satisfying payment.
pub fn good() -> (r: Row)
    ensures
        r.amount == GOOD_AMOUNT,
        r.cap == GOOD_CAP,
        r.budget == GOOD_BUDGET,
        r.t == GOOD_T,
        r.t_start == GOOD_T_START,
        r.t_exp == GOOD_T_EXP,
        r.velocity_n == GOOD_VELOCITY_N,
{
    Row {
        amount: GOOD_AMOUNT,
        cap: GOOD_CAP,
        budget: GOOD_BUDGET,
        t: GOOD_T,
        t_start: GOOD_T_START,
        t_exp: GOOD_T_EXP,
        velocity_n: GOOD_VELOCITY_N,
    }
}

/// The gaps, in the order the circuit allocates their bit blocks: C1, then
/// C5's two endpoints.
pub fn gaps(r: &Row) -> (g: [u64; GAP_BLOCKS])
    requires
        r.amount <= r.cap,
        r.t_start <= r.t <= r.t_exp,
    ensures
        g@ == seq![
            (r.cap - r.amount) as u64,
            (r.t - r.t_start) as u64,
            (r.t_exp - r.t) as u64,
        ],
{
    let g = [r.cap - r.amount, r.t - r.t_start, r.t_exp - r.t];
    assert(g@ =~= seq![
        (r.cap - r.amount) as u64,
        (r.t - r.t_start) as u64,
        (r.t_exp - r.t) as u64,
    ]);
    g
}

/// The value columns of the satisfying payment at a chosen amount and cap.
pub open spec fn policy_value(amount: u64, cap: u64, c: int) -> u64 {
    if c == COL_AMOUNT {
        amount % P
    } else if c == COL_MID || c == COL_PAYEE {
        7
    } else if c == COL_CID {
        3
    } else if c == COL_T {
        GOOD_T
    } else if c == COL_B || c == COL_G {
        GOOD_BUDGET
    } else if c == COL_C {
        cap % P
    } else if COL_MROOT <= c < COL_MROOT + DIGEST {
        (11 + (c - COL_MROOT)) as u64
    } else if COL_CROOT <= c < COL_CROOT + DIGEST {
        (13 + (c - COL_CROOT)) as u64
    } else if c == COL_TSTART {
        GOOD_T_START
    } else if c == COL_TEXP {
        GOOD_T_EXP
    } else if c == COL_N {
        GOOD_VELOCITY_N
    } else if c == COL_W {
        100
    } else if c == COL_R {
        4242
    } else if c == COL_NONCE {
        777
    } else if c == COL_MERCHANT_OK || c == COL_CATEGORY_OK {
        1
    } else {
        0
    }
}

/// The policy row: the value columns, then the bits of the three gaps.
pub open spec fn policy_row_spec(amount: u64, cap: u64) -> Seq<u64> {
    Seq::new(
        POLICY_WIDTH as nat,
        |c: int|
            if c < VALUE_COLS {
                policy_value(amount, cap, c)
            } else if c < VALUE_COLS + RANGE_BITS {
                bit((cap - amount) as u64 as int, (c - VALUE_COLS) as nat) as u64
            } else if c < VALUE_COLS + 2 * RANGE_BITS {
                bit(GOOD_T - GOOD_T_START, (c - VALUE_COLS - RANGE_BITS) as nat) as u64
            } else {
                bit(GOOD_T_EXP - GOOD_T, (c - VALUE_COLS - 2 * RANGE_BITS) as nat) as u64
            },
    )
}

pub fn policy_trace(rows: usize) -> (t: Trace)
    requires
        rows * POLICY_WIDTH <= usize::MAX,
    ensures
        t.repeats(policy_row_spec(GOOD_AMOUNT, GOOD_CAP), rows as int),
        t.wf(),
{
    policy_trace_amount(rows, GOOD_AMOUNT)
}

/// The same row at a chosen amount, with C1's decomposition recomputed.
pub fn policy_trace_amount(rows: usize, amount: u64) -> (t: Trace)
    requires
        rows * POLICY_WIDTH <= usize::MAX,
        amount <= GOOD_CAP,
    ensures
        t.repeats(policy_row_spec(amount, GOOD_CAP), rows as int),
        t.wf(),
{
    policy_trace_full(rows, amount, GOOD_CAP)
}

/// The policy row at a chosen amount and a chosen cap, with C1's
/// decomposition recomputed for both.
pub fn policy_trace_full(rows: usize, amount: u64, cap: u64) -> (t: Trace)
    requires
        rows * POLICY_WIDTH <= usize::MAX,
        amount <= cap,
    ensures
        t.repeats(policy_row_spec(amount, cap), rows as int),
        t.wf(),
        cap - amount < pow2(RANGE_BITS as nat) ==> forall|k: int, r: int, pv: Seq<u64>|
            0 <= k < rows ==> #[trigger] all_hold(policy_steps(ALL_CLAUSES@, 0), r, t.row(k), pv),
{
    let mut r = good();
    r.amount = amount;
    r.cap = cap;
    let mut row = zeros(POLICY_WIDTH);
    row.set(COL_AMOUNT, from_u64(r.amount));
    row.set(COL_MID, 7);
    row.set(COL_PAYEE, 7);
    row.set(COL_CID, 3);
    row.set(COL_T, GOOD_T);
    row.set(COL_B, GOOD_BUDGET);
    row.set(COL_C, from_u64(r.cap));
    let mut j: usize = 0;
    while j < DIGEST
        invariant
            j <= DIGEST,
            row@.len() == POLICY_WIDTH,
            forall|c: int|
                0 <= c < POLICY_WIDTH && !(COL_MROOT <= c < COL_MROOT + j) && !(COL_CROOT <= c
                    < COL_CROOT + j) ==> #[trigger] row@[c] == if c == COL_AMOUNT {
                    amount % P
                } else if c == COL_MID || c == COL_PAYEE {
                    7
                } else if c == COL_CID {
                    3
                } else if c == COL_T {
                    GOOD_T
                } else if c == COL_B {
                    GOOD_BUDGET
                } else if c == COL_C {
                    cap % P
                } else {
                    0
                },
            forall|c: int| COL_MROOT <= c < COL_MROOT + j ==> #[trigger] row@[c] == (11 + (c - COL_MROOT)) as u64,
            forall|c: int| COL_CROOT <= c < COL_CROOT + j ==> #[trigger] row@[c] == (13 + (c - COL_CROOT)) as u64,
        decreases DIGEST - j,
    {
        row.set(COL_MROOT + j, 11 + j as u64);
        row.set(COL_CROOT + j, 13 + j as u64);
        j += 1;
    }
    row.set(COL_TSTART, GOOD_T_START);
    row.set(COL_TEXP, GOOD_T_EXP);
    row.set(COL_N, GOOD_VELOCITY_N);
    row.set(COL_W, 100);
    row.set(COL_G, GOOD_BUDGET);
    row.set(COL_R, 4242);
    row.set(COL_NONCE, 777);
    row.set(COL_MERCHANT_OK, 1);
    row.set(COL_CATEGORY_OK, 1);
    let ghost values = row@;
    assert forall|c: int| 0 <= c < VALUE_COLS implies #[trigger] values[c] == policy_value(
        amount,
        cap,
        c,
    ) by {}
    assert forall|c: int| VALUE_COLS <= c < POLICY_WIDTH implies #[trigger] values[c] == 0 by {}
    let g = gaps(&r);
    let b0 = bits_of(g[0]);
    put(&mut row, VALUE_COLS, b0.as_slice());
    let b1 = bits_of(g[1]);
    put(&mut row, VALUE_COLS + RANGE_BITS, b1.as_slice());
    let b2 = bits_of(g[2]);
    put(&mut row, VALUE_COLS + 2 * RANGE_BITS, b2.as_slice());
    assert(row@ =~= policy_row_spec(amount, cap));
    let t = repeat(&row, rows);
    proof {
        if cap - amount < pow2(RANGE_BITS as nat) {
            assert forall|k: int, r: int, pv: Seq<u64>| 0 <= k < rows implies #[trigger] all_hold(
                policy_steps(ALL_CLAUSES@, 0),
                r,
                t.row(k),
                pv,
            ) by {
                lemma_repeats_row(t, row@, rows as int, k);
                lemma_policy_row_satisfies(amount, cap, r, pv);
            }
        }
    }
    t
}

pub proof fn lemma_all_clauses_steps()
    ensures
        ALL_CLAUSES@ == seq![Clause::C1Cap, Clause::C3Merchant, Clause::C4Category, Clause::C5Temporal],
        direct_steps(ALL_CLAUSES@, 0) == seq![
            Step::Eq(Expr::Col(COL_MID), Expr::Col(COL_PAYEE)),
            Step::One(Expr::Col(COL_MERCHANT_OK)),
            Step::One(Expr::Col(COL_CATEGORY_OK)),
        ],
        all_gaps(ALL_CLAUSES@, 0) == seq![
            Expr::Sub(Box::new(Expr::Col(COL_C)), Box::new(Expr::Col(COL_AMOUNT))),
            Expr::Sub(Box::new(Expr::Col(COL_T)), Box::new(Expr::Col(COL_TSTART))),
            Expr::Sub(Box::new(Expr::Col(COL_TEXP)), Box::new(Expr::Col(COL_T))),
        ],
        policy_steps(ALL_CLAUSES@, 0) == direct_steps(ALL_CLAUSES@, 0) + (range_block_spec(
            Expr::Sub(Box::new(Expr::Col(COL_C)), Box::new(Expr::Col(COL_AMOUNT))),
            VALUE_COLS as int,
        ) + range_block_spec(
            Expr::Sub(Box::new(Expr::Col(COL_T)), Box::new(Expr::Col(COL_TSTART))),
            VALUE_COLS + RANGE_BITS,
        ) + range_block_spec(
            Expr::Sub(Box::new(Expr::Col(COL_TEXP)), Box::new(Expr::Col(COL_T))),
            VALUE_COLS + 2 * RANGE_BITS,
        )),
{
    let s = ALL_CLAUSES@;
    assert(s =~= seq![Clause::C1Cap, Clause::C3Merchant, Clause::C4Category, Clause::C5Temporal]);
    assert(s.drop_last().drop_last().drop_last().drop_last() =~= Seq::<Clause>::empty());
    reveal_with_fuel(direct_steps, 5);
    reveal_with_fuel(all_gaps, 5);
    assert(direct_steps(s, 0) =~= seq![
        Step::Eq(Expr::Col(COL_MID), Expr::Col(COL_PAYEE)),
        Step::One(Expr::Col(COL_MERCHANT_OK)),
        Step::One(Expr::Col(COL_CATEGORY_OK)),
    ]);
    let g = all_gaps(s, 0);
    assert(g =~= seq![
        Expr::Sub(Box::new(Expr::Col(COL_C)), Box::new(Expr::Col(COL_AMOUNT))),
        Expr::Sub(Box::new(Expr::Col(COL_T)), Box::new(Expr::Col(COL_TSTART))),
        Expr::Sub(Box::new(Expr::Col(COL_TEXP)), Box::new(Expr::Col(COL_T))),
    ]);
    reveal_with_fuel(range_blocks_spec, 4);
    assert(g.drop_last().drop_last().drop_last() =~= Seq::<Expr>::empty());
    assert(g.drop_last().drop_last() =~= seq![g[0]]);
    assert(g.drop_last() =~= seq![g[0], g[1]]);
    assert(range_blocks_spec(g, VALUE_COLS as int) =~= range_block_spec(g[0], VALUE_COLS as int)
        + range_block_spec(g[1], VALUE_COLS + RANGE_BITS) + range_block_spec(
        g[2],
        VALUE_COLS + 2 * RANGE_BITS,
    ));
}

/// A range-check block in the field: every cell a root of x(x - 1), and the
/// gap equal to the cells' binary recomposition.
pub open spec fn block_ok(row: Seq<u64>, gap: int, start: int) -> bool {
    &&& forall|i: int|
        0 <= i < RANGE_BITS ==> #[trigger] crate::expr::is_zero_mod(row[start + i] * (row[start + i] - 1))
    &&& crate::expr::is_zero_mod(gap - crate::air::weighted(row, start, 0, RANGE_BITS as int))
}

/// The clauses as a row's columns meet them in the field: C3's payee is the
/// merchant and its flag is one, C4's flag is one, and the blocks allocated
/// in clause order, C1's at `VALUE_COLS` then C5's two, decompose the gaps
/// cap - amount, t - tstart and texp - t.
pub open spec fn policy_clauses_hold(row: Seq<u64>) -> bool {
    &&& crate::expr::is_zero_mod(row[COL_MID as int] - row[COL_PAYEE as int])
    &&& crate::expr::is_zero_mod(row[COL_MERCHANT_OK as int] - 1)
    &&& crate::expr::is_zero_mod(row[COL_CATEGORY_OK as int] - 1)
    &&& block_ok(row, row[COL_C as int] - row[COL_AMOUNT as int], VALUE_COLS as int)
    &&& block_ok(row, row[COL_T as int] - row[COL_TSTART as int], VALUE_COLS + RANGE_BITS)
    &&& block_ok(row, row[COL_TEXP as int] - row[COL_T as int], VALUE_COLS + 2 * RANGE_BITS)
}

/// A range check holds exactly where its block is as `block_ok` says.
pub(crate) proof fn lemma_range_block_iff(gap: Expr, start: int, r: int, row: Seq<u64>, pv: Seq<u64>)
    requires
        0 <= start,
        start + RANGE_BITS <= usize::MAX,
    ensures
        all_hold(range_block_spec(gap, start), r, row, pv) <==> block_ok(row, eval(gap, row, pv), start),
{
    let steps = range_block_spec(gap, start);
    crate::air::lemma_recompose_eval(row, pv, start, RANGE_BITS as int, 0);
    assert(steps[RANGE_BITS as int] == Step::Eq(gap, crate::air::recompose_spec(start)));
    if all_hold(steps, r, row, pv) {
        assert forall|i: int| 0 <= i < RANGE_BITS implies #[trigger] crate::expr::is_zero_mod(
            row[start + i] * (row[start + i] - 1),
        ) by {
            assert(step_holds(steps[i], r, row, pv));
        }
        assert(step_holds(steps[RANGE_BITS as int], r, row, pv));
    }
    if block_ok(row, eval(gap, row, pv), start) {
        assert forall|k: int| 0 <= k < steps.len() implies #[trigger] step_holds(steps[k], r, row, pv) by {
            if k < RANGE_BITS {
                assert(crate::expr::is_zero_mod(row[start + k] * (row[start + k] - 1)));
            }
        }
    }
}

/// What the policy circuit accepts, exactly: a row satisfies every
/// constraint of the circuit over all four clauses if and only if its
/// columns meet the clauses in the field as `policy_clauses_hold` says.
pub proof fn lemma_policy_circuit_iff(row: Seq<u64>, r: int, pv: Seq<u64>)
    ensures
        all_hold(policy_steps(ALL_CLAUSES@, 0), r, row, pv) <==> policy_clauses_hold(row),
{
    lemma_all_clauses_steps();
    reveal_with_fuel(eval, 2);
    let d = direct_steps(ALL_CLAUSES@, 0);
    let g0 = Expr::Sub(Box::new(Expr::Col(COL_C)), Box::new(Expr::Col(COL_AMOUNT)));
    let g1 = Expr::Sub(Box::new(Expr::Col(COL_T)), Box::new(Expr::Col(COL_TSTART)));
    let g2 = Expr::Sub(Box::new(Expr::Col(COL_TEXP)), Box::new(Expr::Col(COL_T)));
    let b0 = range_block_spec(g0, VALUE_COLS as int);
    let b1 = range_block_spec(g1, VALUE_COLS + RANGE_BITS);
    let b2 = range_block_spec(g2, VALUE_COLS + 2 * RANGE_BITS);
    lemma_range_block_iff(g0, VALUE_COLS as int, r, row, pv);
    lemma_range_block_iff(g1, VALUE_COLS + RANGE_BITS, r, row, pv);
    lemma_range_block_iff(g2, VALUE_COLS + 2 * RANGE_BITS, r, row, pv);
    assert(eval(g0, row, pv) == row[COL_C as int] - row[COL_AMOUNT as int]);
    assert(eval(g1, row, pv) == row[COL_T as int] - row[COL_TSTART as int]);
    assert(eval(g2, row, pv) == row[COL_TEXP as int] - row[COL_T as int]);
    if all_hold(policy_steps(ALL_CLAUSES@, 0), r, row, pv) {
        crate::expr::lemma_all_hold_split(d, b0 + b1 + b2, r, row, pv);
        crate::expr::lemma_all_hold_split(b0 + b1, b2, r, row, pv);
        crate::expr::lemma_all_hold_split(b0, b1, r, row, pv);
        assert(step_holds(d[0], r, row, pv));
        assert(step_holds(d[1], r, row, pv));
        assert(step_holds(d[2], r, row, pv));
    }
    if policy_clauses_hold(row) {
        assert forall|i: int| 0 <= i < d.len() implies #[trigger] step_holds(d[i], r, row, pv) by {}
        crate::expr::lemma_all_hold_concat(b0, b1, r, row, pv);
        crate::expr::lemma_all_hold_concat(b0 + b1, b2, r, row, pv);
        crate::expr::lemma_all_hold_concat(d, b0 + b1 + b2, r, row, pv);
    }
}

/// The satisfying payment satisfies every constraint of the policy circuit,
/// at any amount within the cap.
pub proof fn lemma_policy_row_satisfies(amount: u64, cap: u64, r: int, pv: Seq<u64>)
    requires
        amount <= cap,
        cap - amount < pow2(RANGE_BITS as nat),
    ensures
        all_hold(policy_steps(ALL_CLAUSES@, 0), r, policy_row_spec(amount, cap), pv),
{
    let row = policy_row_spec(amount, cap);
    lemma_all_clauses_steps();
    vstd::arithmetic::power2::lemma2_to64();
    vstd::arithmetic::power2::lemma2_to64_rest();
    reveal_with_fuel(eval, 2);
    let d = direct_steps(ALL_CLAUSES@, 0);
    assert forall|i: int| 0 <= i < d.len() implies #[trigger] step_holds(d[i], r, row, pv) by {}
    let g0 = Expr::Sub(Box::new(Expr::Col(COL_C)), Box::new(Expr::Col(COL_AMOUNT)));
    let g1 = Expr::Sub(Box::new(Expr::Col(COL_T)), Box::new(Expr::Col(COL_TSTART)));
    let g2 = Expr::Sub(Box::new(Expr::Col(COL_TEXP)), Box::new(Expr::Col(COL_T)));
    assert(eval(g0, row, pv) == (cap % P) - (amount % P));
    lemma_reduced_gap(cap as int, amount as int);
    assert(eval(g1, row, pv) == GOOD_T - GOOD_T_START);
    assert(eval(g2, row, pv) == GOOD_T_EXP - GOOD_T);
    assert forall|k: int| 0 <= k < RANGE_BITS implies row[VALUE_COLS + k] == #[trigger] bit(
        cap - amount,
        k as nat,
    ) by {}
    assert forall|k: int| 0 <= k < RANGE_BITS implies row[VALUE_COLS + RANGE_BITS + k]
        == #[trigger] bit(GOOD_T - GOOD_T_START, k as nat) by {}
    assert forall|k: int| 0 <= k < RANGE_BITS implies row[VALUE_COLS + 2 * RANGE_BITS + k]
        == #[trigger] bit(GOOD_T_EXP - GOOD_T, k as nat) by {}
    lemma_range_block_holds(g0, VALUE_COLS as int, row, pv, r, cap - amount);
    lemma_range_block_holds(g1, VALUE_COLS + RANGE_BITS, row, pv, r, GOOD_T - GOOD_T_START);
    lemma_range_block_holds(g2, VALUE_COLS + 2 * RANGE_BITS, row, pv, r, GOOD_T_EXP - GOOD_T);
    let b0 = range_block_spec(g0, VALUE_COLS as int);
    let b1 = range_block_spec(g1, VALUE_COLS + RANGE_BITS);
    let b2 = range_block_spec(g2, VALUE_COLS + 2 * RANGE_BITS);
    lemma_all_hold_concat(b0, b1, r, row, pv);
    lemma_all_hold_concat(b0 + b1, b2, r, row, pv);
    lemma_all_hold_concat(d, b0 + b1 + b2, r, row, pv);
}

/// Two integers reduced into [0, p) differ by their difference, in the field.
pub proof fn lemma_reduced_gap(a: int, b: int)
    requires
        a >= 0,
        b >= 0,
    ensures
        ((a % (P as int)) - (b % (P as int)) - (a - b)) % (P as int) == 0,
{
    let p = P as int;
    vstd::arithmetic::div_mod::lemma_fundamental_div_mod(a, p);
    vstd::arithmetic::div_mod::lemma_fundamental_div_mod(b, p);
    let k = b / p - a / p;
    assert((a % p) - (b % p) - (a - b) == k * p) by (nonlinear_arith)
        requires
            a == p * (a / p) + a % p,
            b == p * (b / p) + b % p,
            k == b / p - a / p,
    ;
    vstd::arithmetic::div_mod::lemma_mod_multiples_basic(k, p);
}

/// A gap the policy circuit range-checks: the difference of two columns,
/// reduced into [0, p), lies below 2^RANGE_BITS, and for a subtrahend below
/// p - 2^RANGE_BITS the columns are ordered as integers.
pub open spec fn ordered_within_range(hi: u64, lo: u64) -> bool {
    &&& (hi - lo) % (P as int) < pow2(RANGE_BITS as nat)
    &&& lo < P - pow2(RANGE_BITS as nat) ==> lo <= hi < lo + pow2(RANGE_BITS as nat)
}

/// A gap that reduces into [0, 2^RANGE_BITS) orders canonical columns whose
/// lower one lies below p - 2^RANGE_BITS.
pub(crate) proof fn lemma_gap_orders(hi: u64, lo: u64, w: int)
    requires
        hi < P,
        lo < P,
        (hi - lo) % (P as int) == w,
        0 <= w < pow2(RANGE_BITS as nat),
    ensures
        ordered_within_range(hi, lo),
{
    vstd::arithmetic::power2::lemma2_to64();
    vstd::arithmetic::power2::lemma2_to64_rest();
    let d = hi - lo;
    if d >= 0 {
        vstd::arithmetic::div_mod::lemma_small_mod(d as nat, P as nat);
    } else {
        vstd::arithmetic::div_mod::lemma_mod_multiples_vanish(1, d, P as int);
        vstd::arithmetic::div_mod::lemma_small_mod((d + P) as nat, P as nat);
        assert(d % (P as int) == d + P);
    }
}

/// What the policy circuit guarantees of every row it accepts: the payee is
/// the merchant the payment names, both allowlist flags are one, the amount is
/// within the per-payment cap, and the time within the validity window, each
/// gap below 2^RANGE_BITS. The bit blocks' own constraints make each cell a
/// root of x(x - 1), which is a bit because p is prime; that primality is not
/// proved here, so the cells' being bits is taken as given.
pub proof fn lemma_policy_circuit_enforces_clauses(row: Seq<u64>, r: int, pv: Seq<u64>)
    requires
        all_canonical(row),
        row.len() >= POLICY_WIDTH,
        all_hold(policy_steps(ALL_CLAUSES@, 0), r, row, pv),
        forall|k: int| VALUE_COLS <= k < POLICY_WIDTH ==> #[trigger] row[k] <= 1,
    ensures
        row[COL_MID as int] == row[COL_PAYEE as int],
        row[COL_MERCHANT_OK as int] == 1,
        row[COL_CATEGORY_OK as int] == 1,
        ordered_within_range(row[COL_C as int], row[COL_AMOUNT as int]),
        ordered_within_range(row[COL_T as int], row[COL_TSTART as int]),
        ordered_within_range(row[COL_TEXP as int], row[COL_T as int]),
{
    lemma_all_clauses_steps();
    vstd::arithmetic::power2::lemma2_to64();
    vstd::arithmetic::power2::lemma2_to64_rest();
    reveal_with_fuel(eval, 2);
    let d = direct_steps(ALL_CLAUSES@, 0);
    let g0 = Expr::Sub(Box::new(Expr::Col(COL_C)), Box::new(Expr::Col(COL_AMOUNT)));
    let g1 = Expr::Sub(Box::new(Expr::Col(COL_T)), Box::new(Expr::Col(COL_TSTART)));
    let g2 = Expr::Sub(Box::new(Expr::Col(COL_TEXP)), Box::new(Expr::Col(COL_T)));
    let b0 = range_block_spec(g0, VALUE_COLS as int);
    let b1 = range_block_spec(g1, VALUE_COLS + RANGE_BITS);
    let b2 = range_block_spec(g2, VALUE_COLS + 2 * RANGE_BITS);
    crate::expr::lemma_all_hold_split(d, b0 + b1 + b2, r, row, pv);
    crate::expr::lemma_all_hold_split(b0 + b1, b2, r, row, pv);
    crate::expr::lemma_all_hold_split(b0, b1, r, row, pv);
    // The direct assertions of C3 and C4.
    assert(step_holds(d[0], r, row, pv));
    assert(step_holds(d[1], r, row, pv));
    assert(step_holds(d[2], r, row, pv));
    if row[COL_MID as int] != row[COL_PAYEE as int] {
        let x = row[COL_MID as int] - row[COL_PAYEE as int];
        if x > 0 {
            vstd::arithmetic::div_mod::lemma_small_mod(x as nat, P as nat);
        } else {
            vstd::arithmetic::div_mod::lemma_mod_multiples_vanish(1, x, P as int);
            vstd::arithmetic::div_mod::lemma_small_mod((x + P) as nat, P as nat);
        }
    }
    if row[COL_MERCHANT_OK as int] == 0 {
        vstd::arithmetic::div_mod::lemma_mod_multiples_vanish(1, -1, P as int);
    } else {
        vstd::arithmetic::div_mod::lemma_small_mod((row[COL_MERCHANT_OK as int] - 1) as nat, P as nat);
    }
    if row[COL_CATEGORY_OK as int] == 0 {
        vstd::arithmetic::div_mod::lemma_mod_multiples_vanish(1, -1, P as int);
    } else {
        vstd::arithmetic::div_mod::lemma_small_mod((row[COL_CATEGORY_OK as int] - 1) as nat, P as nat);
    }
    // The three range checks.
    assert forall|k: int| 0 <= k < RANGE_BITS implies #[trigger] row[VALUE_COLS + k] <= 1 by {}
    assert forall|k: int| 0 <= k < RANGE_BITS implies #[trigger] row[VALUE_COLS + RANGE_BITS + k] <= 1 by {}
    assert forall|k: int| 0 <= k < RANGE_BITS implies #[trigger] row[VALUE_COLS + 2 * RANGE_BITS + k] <= 1 by {}
    lemma_range_block_bounds_gap(g0, VALUE_COLS as int, row, pv, r);
    lemma_range_block_bounds_gap(g1, VALUE_COLS + RANGE_BITS, row, pv, r);
    lemma_range_block_bounds_gap(g2, VALUE_COLS + 2 * RANGE_BITS, row, pv, r);
    crate::air::lemma_weighted_bound(row, VALUE_COLS as int, 0, RANGE_BITS as int);
    crate::air::lemma_weighted_bound(row, VALUE_COLS + RANGE_BITS, 0, RANGE_BITS as int);
    crate::air::lemma_weighted_bound(row, VALUE_COLS + 2 * RANGE_BITS, 0, RANGE_BITS as int);
    lemma_gap_orders(row[COL_C as int], row[COL_AMOUNT as int], weighted(row, VALUE_COLS as int, 0, RANGE_BITS as int));
    lemma_gap_orders(row[COL_T as int], row[COL_TSTART as int], weighted(row, VALUE_COLS + RANGE_BITS, 0, RANGE_BITS as int));
    lemma_gap_orders(row[COL_TEXP as int], row[COL_T as int], weighted(row, VALUE_COLS + 2 * RANGE_BITS, 0, RANGE_BITS as int));
}

/// The row `broken_trace` corrupts: the first bit of C1's block raised by one.
pub open spec fn broken_row_spec() -> Seq<u64> {
    policy_row_spec(GOOD_AMOUNT, GOOD_CAP).update(VALUE_COLS as int, 1)
}

/// The corrupted row fails C1's range check: its bits now recompose to one
/// more than the gap they stand for.
pub proof fn lemma_broken_row_fails(r: int, pv: Seq<u64>)
    ensures
        some_fails(policy_steps(ALL_CLAUSES@, 0), r, broken_row_spec(), pv),
{
    let row = policy_row_spec(GOOD_AMOUNT, GOOD_CAP);
    let bad = broken_row_spec();
    lemma_all_clauses_steps();
    vstd::arithmetic::power2::lemma2_to64();
    vstd::arithmetic::power2::lemma2_to64_rest();
    reveal_with_fuel(eval, 2);
    let g0 = Expr::Sub(Box::new(Expr::Col(COL_C)), Box::new(Expr::Col(COL_AMOUNT)));
    let start = VALUE_COLS as int;
    assert forall|k: int| 0 <= k < RANGE_BITS implies row[start + k] == #[trigger] bit(190, k as nat) by {}
    lemma_bits_weighted(row, start, 190, 0, RANGE_BITS as int);
    vstd::arithmetic::div_mod::lemma_div_basics(190);
    vstd::arithmetic::div_mod::lemma_small_mod(190, pow2(RANGE_BITS as nat));
    assert(weighted(row, start, 0, RANGE_BITS as int) == 190);
    lemma_weighted_frame(row, bad, start, 1, RANGE_BITS as int);
    assert(bit(190, 0) == 0);
    reveal_with_fuel(weighted, 2);
    assert(weighted(bad, start, 0, RANGE_BITS as int) == 191);
    lemma_recompose_eval(bad, pv, start, RANGE_BITS as int, 0);
    assert(eval(g0, bad, pv) == 190);
    let b0 = range_block_spec(g0, start);
    assert(b0[RANGE_BITS as int] == Step::Eq(g0, recompose_spec(start)));
    assert(!step_holds(b0[RANGE_BITS as int], r, bad, pv));
    assert(some_fails(b0, r, bad, pv));
    let g1 = Expr::Sub(Box::new(Expr::Col(COL_T)), Box::new(Expr::Col(COL_TSTART)));
    let g2 = Expr::Sub(Box::new(Expr::Col(COL_TEXP)), Box::new(Expr::Col(COL_T)));
    let b1 = range_block_spec(g1, VALUE_COLS + RANGE_BITS);
    let b2 = range_block_spec(g2, VALUE_COLS + 2 * RANGE_BITS);
    lemma_some_fails_concat(b0, b1, r, bad, pv);
    lemma_some_fails_concat(b0 + b1, b2, r, bad, pv);
    lemma_some_fails_concat(direct_steps(ALL_CLAUSES@, 0), b0 + b1 + b2, r, bad, pv);
}

/// The index of the corrupted bit in `broken_trace`: the first bit of C1's
/// block, in the middle row.
pub open spec fn broken_at(rows: int) -> int {
    POLICY_WIDTH * (rows / 2) + VALUE_COLS
}

/// A trace with one gap decomposition corrupted: the first bit of C1's block
/// is raised by one in the middle row.
pub fn broken_trace(rows: usize) -> (t: Trace)
    requires
        rows >= 1,
        rows * POLICY_WIDTH <= usize::MAX,
    ensures
        t.width == POLICY_WIDTH,
        t.values@.len() == rows * POLICY_WIDTH,
        forall|i: int|
            0 <= i < t.values@.len() ==> #[trigger] t.values@[i] == if i == broken_at(rows as int) {
                1
            } else {
                policy_row_spec(GOOD_AMOUNT, GOOD_CAP)[i % (POLICY_WIDTH as int)]
            },
        forall|r: int, pv: Seq<u64>|
            #[trigger] some_fails(policy_steps(ALL_CLAUSES@, 0), r, t.row((rows / 2) as int), pv),
{
    let mut m = policy_trace(rows);
    let w = m.width;
    assert(w == POLICY_WIDTH);
    assert(w * (rows / 2) + VALUE_COLS < rows * w) by (nonlinear_arith)
        requires
            w == POLICY_WIDTH,
            rows >= 1,
    ;
    let at = w * (rows / 2) + VALUE_COLS;
    proof {
        assert(at % w == VALUE_COLS) by {
            vstd::arithmetic::div_mod::lemma_mod_multiples_vanish(
                (rows / 2) as int,
                VALUE_COLS as int,
                w as int,
            );
            vstd::arithmetic::div_mod::lemma_small_mod(VALUE_COLS as nat, w as nat);
            assert(at == w * (rows / 2) + VALUE_COLS);
        }
        assert(m.values@[at as int] == policy_row_spec(GOOD_AMOUNT, GOOD_CAP)[(at % w) as int]);
        assert(bit(190, 0) == 0) by {
            vstd::arithmetic::power2::lemma2_to64();
        }
    }
    let v = m.values[at];
    m.values.set(at, crate::field::fadd(v, 1));
    proof {
        let k = (rows / 2) as int;
        let w = POLICY_WIDTH as int;
        assert((k + 1) * w <= rows * w) by (nonlinear_arith)
            requires
                k < rows,
                w > 0,
        ;
        assert((k + 1) * w == k * w + w) by (nonlinear_arith);
        assert forall|j: int| 0 <= j < w implies #[trigger] m.row(k)[j] == broken_row_spec()[j] by {
            let i = k * w + j;
            assert(i == w * k + j) by (nonlinear_arith)
                requires
                    i == k * w + j,
            ;
            vstd::arithmetic::div_mod::lemma_mod_multiples_vanish(k, j, w);
            vstd::arithmetic::div_mod::lemma_small_mod(j as nat, w as nat);
            assert(i % w == j);
            assert(m.values@[i] == if i == broken_at(rows as int) {
                1
            } else {
                policy_row_spec(GOOD_AMOUNT, GOOD_CAP)[i % (POLICY_WIDTH as int)]
            });
        }
        assert(m.row(k) =~= broken_row_spec());
        assert forall|r: int, pv: Seq<u64>| #[trigger] some_fails(
            policy_steps(ALL_CLAUSES@, 0),
            r,
            m.row((rows / 2) as int),
            pv,
        ) by {
            lemma_broken_row_fails(r, pv);
        }
    }
    m
}

// ---------------------------------------------------------------------------
// Merkle paths
// ---------------------------------------------------------------------------

/// The sibling digest at a level of the fixed test path.
pub open spec fn sibling(level: int) -> Seq<u64> {
    Seq::new(DIGEST as nat, |j: int| (1000 + level) as u64)
}

/// The permutation input at a level: the current digest and the sibling,
/// swapped when the level's direction bit is one.
pub open spec fn merkle_input(cur: Seq<u64>, level: int) -> Seq<u64> {
    if level % 2 == 1 {
        sibling(level) + cur
    } else {
        cur + sibling(level)
    }
}

/// The digest entering `level`: the leaf, compressed once per level below.
pub open spec fn merkle_digest(r: int, leaf: Seq<u64>, level: nat) -> Seq<u64>
    decreases level,
{
    if level == 0 {
        leaf
    } else {
        let below = (level - 1) as nat;
        perm_out(poseidon2_trace_row(r, merkle_input(merkle_digest(r, leaf, below), below as int))).take(
            DIGEST as int,
        )
    }
}

/// The columns of one level: digest in, sibling, direction bit, permutation.
pub open spec fn merkle_level_block(r: int, leaf: Seq<u64>, level: nat) -> Seq<u64> {
    merkle_digest(r, leaf, level) + sibling(level as int) + seq![(level % 2) as u64]
        + poseidon2_trace_row(r, merkle_input(merkle_digest(r, leaf, level), level as int))
}

pub open spec fn merkle_blocks(r: int, leaf: Seq<u64>, n: nat) -> Seq<u64>
    decreases n,
{
    if n == 0 {
        seq![]
    } else {
        merkle_blocks(r, leaf, (n - 1) as nat) + merkle_level_block(r, leaf, (n - 1) as nat)
    }
}

/// The path row: every level's block, then the root.
pub open spec fn merkle_row_spec(r: int, depth: nat, leaf: Seq<u64>) -> Seq<u64> {
    merkle_blocks(r, leaf, depth) + merkle_digest(r, leaf, depth)
}

/// Every permutation of the path was run through the generator.
pub open spec fn merkle_generated(r: int, leaf: Seq<u64>, n: nat) -> bool {
    forall|l: nat| l < n ==> #[trigger] generated(r, merkle_input(merkle_digest(r, leaf, l), l as int))
}

pub proof fn lemma_merkle_blocks(r: int, leaf: Seq<u64>, n: nat, l: nat)
    requires
        merkle_generated(r, leaf, n),
        l < n,
        leaf.len() == DIGEST,
        r >= 0,
    ensures
        merkle_blocks(r, leaf, n).len() == n * level_width_spec(r),
        merkle_blocks(r, leaf, n).subrange(l * level_width_spec(r), l * level_width_spec(r) + level_width_spec(r))
            == merkle_level_block(r, leaf, l),
    decreases n,
{
    lemma_merkle_blocks_len(r, leaf, n);
    let lw = level_width_spec(r);
    let prev = merkle_blocks(r, leaf, (n - 1) as nat);
    lemma_merkle_blocks_len(r, leaf, (n - 1) as nat);
    assert((n - 1) * lw + lw == n * lw) by (nonlinear_arith);
    if l == n - 1 {
        assert(merkle_blocks(r, leaf, n).subrange(l * lw, l * lw + lw) =~= merkle_level_block(r, leaf, l));
    } else {
        lemma_merkle_blocks(r, leaf, (n - 1) as nat, l);
        assert(l * lw + lw <= (n - 1) * lw) by (nonlinear_arith)
            requires
                l < n - 1,
                lw >= 0,
        ;
        assert(merkle_blocks(r, leaf, n).subrange(l * lw, l * lw + lw) =~= prev.subrange(l * lw, l * lw + lw));
    }
}

/// One level of the generated path satisfies its constraints.
pub proof fn lemma_merkle_level_holds(r: int, depth: nat, leaf: Seq<u64>, l: nat, pv: Seq<u64>)
    requires
        merkle_generated(r, leaf, depth),
        l < depth,
        leaf.len() == DIGEST,
        r >= 0,
        merkle_width_spec(r, depth as int) <= usize::MAX,
    ensures
        all_hold(level_steps(r, 0, l as int), r, merkle_row_spec(r, depth, leaf), pv),
{
    let row = merkle_row_spec(r, depth, leaf);
    let lw = level_width_spec(r);
    let bw = block_width_spec(r);
    let base = l * lw;
    let next = (l + 1) * lw;
    let blocks = merkle_blocks(r, leaf, depth);
    lemma_merkle_blocks(r, leaf, depth, l);
    lemma_merkle_digest_len(r, leaf, l);
    lemma_merkle_digest_len(r, leaf, depth);
    assert(next == base + lw) by (nonlinear_arith)
        requires
            next == (l + 1) * lw,
            base == l * lw,
    ;
    assert(next + DIGEST <= depth * lw + DIGEST) by (nonlinear_arith)
        requires
            l < depth,
            next == (l + 1) * lw,
            lw >= 0,
    ;
    let blk = merkle_level_block(r, leaf, l);
    let cur = merkle_digest(r, leaf, l);
    let input = merkle_input(cur, l as int);
    let prow = poseidon2_trace_row(r, input);
    assert(generated(r, input));
    // The level's columns are its block.
    assert forall|x: int| 0 <= x < lw implies #[trigger] row[base + x] == blk[x] by {
        assert(blocks.subrange(base, base + lw)[x] == blk[x]);
    }
    // The next level's digest columns hold the compressed output.
    let nd = merkle_digest(r, leaf, l + 1);
    assert(nd == perm_out(prow).take(DIGEST as int));
    assert forall|j: int| 0 <= j < DIGEST implies #[trigger] row[next + j] == nd[j] by {
        if l + 1 < depth {
            lemma_merkle_blocks(r, leaf, depth, l + 1);
            lemma_merkle_digest_len(r, leaf, l + 1);
            assert(next + lw <= depth * lw) by (nonlinear_arith)
                requires
                    l + 1 < depth,
                    next == (l + 1) * lw,
                    lw >= 0,
            ;
            assert(next == (l + 1) * lw);
            assert(blocks.subrange(next, next + lw)[j] == merkle_level_block(r, leaf, l + 1)[j]);
            assert(row[next + j] == blocks[next + j]);
        } else {
            assert(next == depth * lw) by (nonlinear_arith)
                requires
                    l + 1 == depth,
                    next == (l + 1) * lw,
            ;
            assert(row[next + j] == merkle_digest(r, leaf, depth)[j]);
        }
    }
    let ps = base + 2 * DIGEST + 1;
    assert(row.subrange(ps, ps + bw) =~= prow) by {
        assert forall|x: int| 0 <= x < bw implies #[trigger] row.subrange(ps, ps + bw)[x] == prow[x] by {
            assert(row[base + (2 * DIGEST + 1 + x)] == blk[2 * DIGEST + 1 + x]);
        }
    }
    assert(row.subrange(ps, ps + WIDTH as int) =~= input) by {
        assert forall|x: int| 0 <= x < WIDTH implies #[trigger] row.subrange(ps, ps + WIDTH as int)[x] == input[x] by {
            assert(row[base + (2 * DIGEST + 1 + x)] == blk[2 * DIGEST + 1 + x]);
            assert(prow.subrange(0, WIDTH as int)[x] == prow[x]);
        }
    }
    let bit_v = row[base + 2 * DIGEST];
    assert(bit_v == blk[2 * DIGEST as int]);
    assert(bit_v == (l % 2) as u64);
    assert forall|j: int| 0 <= j < DIGEST implies #[trigger] row[base + 2 * DIGEST + 1 + j] == if row[base + 2 * DIGEST] == 1 {
        row[base + DIGEST + j]
    } else {
        row[base + j]
    } by {
        assert(row[base + (2 * DIGEST + 1 + j)] == prow[j]);
        assert(row[base + j] == cur[j]);
        assert(row[base + (DIGEST + j)] == sibling(l as int)[j]);
        assert(prow.subrange(0, WIDTH as int)[j] == input[j]);
    }
    assert forall|j: int| 0 <= j < DIGEST implies #[trigger] row[base + 2 * DIGEST + 1 + DIGEST + j] == if row[base + 2 * DIGEST] == 1 {
        row[base + j]
    } else {
        row[base + DIGEST + j]
    } by {
        assert(row[base + (2 * DIGEST + 1 + DIGEST + j)] == prow[DIGEST + j]);
        assert(row[base + j] == cur[j]);
        assert(row[base + (DIGEST + j)] == sibling(l as int)[j]);
        assert(prow.subrange(0, WIDTH as int)[DIGEST + j] == input[DIGEST + j]);
    }
    assert forall|j: int| 0 <= j < DIGEST implies #[trigger] row[base + 2 * DIGEST + 1 + bw - WIDTH + j] == row[next + j] by {
        assert(row[base + (2 * DIGEST + 1 + bw - WIDTH + j)] == prow[bw - WIDTH + j]);
    }
    crate::merkle::lemma_lanes_hold(r, base, next, DIGEST as int, row, pv);
    let head = seq![Step::Hash(ps as usize), Step::Bool(Expr::Col((base + 2 * DIGEST) as usize))];
    assert(ps + bw <= row.len()) by (nonlinear_arith)
        requires
            ps == base + 2 * DIGEST + 1,
            base == l * lw,
            lw == 2 * DIGEST + 1 + bw,
            l < depth,
            row.len() == depth * lw + DIGEST,
    ;
    assert(hash_block_holds(r, ps, row));
    assert(step_holds(head[0], r, row, pv));
    assert(bit_v == 0 || bit_v == 1);
    let ev = eval(Expr::Col((base + 2 * DIGEST) as usize), row, pv);
    assert(ev == bit_v);
    if bit_v == 0 {
        assert(ev * (ev - 1) == 0);
    } else {
        assert(ev * (ev - 1) == 0);
    }
    assert(step_holds(head[1], r, row, pv));
    assert forall|i: int| 0 <= i < head.len() implies #[trigger] step_holds(head[i], r, row, pv) by {}
    lemma_all_hold_concat(head, lanes_spec(r, base, next, DIGEST as int), r, row, pv);
    assert(level_steps(r, 0, l as int) =~= head + lanes_spec(r, base, next, DIGEST as int));
}

/// The generated path row satisfies the path's constraints.
pub proof fn lemma_merkle_row_satisfies(r: int, depth: nat, d: nat, leaf: Seq<u64>, pv: Seq<u64>)
    requires
        merkle_generated(r, leaf, depth),
        d <= depth,
        leaf.len() == DIGEST,
        r >= 0,
        merkle_width_spec(r, depth as int) <= usize::MAX,
    ensures
        all_hold(merkle_steps(r, 0, d as int), r, merkle_row_spec(r, depth, leaf), pv),
    decreases d,
{
    if d > 0 {
        lemma_merkle_row_satisfies(r, depth, (d - 1) as nat, leaf, pv);
        lemma_merkle_level_holds(r, depth, leaf, (d - 1) as nat, pv);
        lemma_all_hold_concat(
            merkle_steps(r, 0, d - 1),
            level_steps(r, 0, d - 1),
            r,
            merkle_row_spec(r, depth, leaf),
            pv,
        );
    }
}

/// The first level's lane constraints begin with lane zero's.
proof fn lemma_lanes_prefix(r: int, base: int, next: int, n: int)
    requires
        n >= 1,
    ensures
        lanes_spec(r, base, next, n).len() == 3 * n,
        forall|k: int| 0 <= k < 3 ==> #[trigger] lanes_spec(r, base, next, n)[k] == lane_steps(r, base, next, 0)[k],
    decreases n,
{
    if n > 1 {
        lemma_lanes_prefix(r, base, next, n - 1);
    } else {
        assert(lanes_spec(r, base, next, 0).len() == 0);
    }
}

/// A path's constraints begin with its first level's.
proof fn lemma_merkle_steps_prefix(r: int, d: int)
    requires
        d >= 1,
    ensures
        merkle_steps(r, 0, d).len() >= level_steps(r, 0, 0).len(),
        forall|k: int|
            0 <= k < level_steps(r, 0, 0).len() ==> #[trigger] merkle_steps(r, 0, d)[k] == level_steps(r, 0, 0)[k],
    decreases d,
{
    if d > 1 {
        lemma_merkle_steps_prefix(r, d - 1);
    } else {
        assert(merkle_steps(r, 0, 0).len() == 0);
        assert(merkle_steps(r, 0, 1) =~= level_steps(r, 0, 0));
    }
}

/// The first level of a generated path: the leaf, the sibling, a zero
/// direction bit, and the permutation's input, which is the leaf then the
/// sibling.
proof fn lemma_merkle_first_level(r: int, depth: nat, leaf: Seq<u64>)
    requires
        merkle_generated(r, leaf, depth),
        1 <= depth,
        leaf.len() == DIGEST,
        r >= 0,
    ensures
        ({
            let row = merkle_row_spec(r, depth, leaf);
            &&& row.len() >= level_width_spec(r)
            &&& forall|j: int| 0 <= j < DIGEST ==> #[trigger] row[j] == leaf[j]
            &&& forall|j: int| 0 <= j < DIGEST ==> #[trigger] row[DIGEST + j] == 1000
            &&& row[2 * DIGEST] == 0
            &&& forall|j: int| 0 <= j < DIGEST ==> #[trigger] row[2 * DIGEST + 1 + j] == leaf[j]
            &&& forall|j: int| 0 <= j < DIGEST ==> #[trigger] row[3 * DIGEST + 1 + j] == 1000
        }),
{
    let row = merkle_row_spec(r, depth, leaf);
    let lw = level_width_spec(r);
    let blocks = merkle_blocks(r, leaf, depth);
    lemma_merkle_blocks(r, leaf, depth, 0);
    assert(depth * lw >= lw) by (nonlinear_arith)
        requires
            depth >= 1,
            lw >= 0,
    ;
    let blk = merkle_level_block(r, leaf, 0);
    let input = merkle_input(leaf, 0);
    assert(generated(r, input));
    let prow = poseidon2_trace_row(r, input);
    assert forall|x: int| 0 <= x < lw implies #[trigger] row[x] == blk[x] by {
        assert(blocks.subrange(0, lw)[x] == blk[x]);
    }
    assert forall|j: int| 0 <= j < DIGEST implies #[trigger] row[2 * DIGEST + 1 + j] == leaf[j] by {
        assert(row[2 * DIGEST + 1 + j] == blk[2 * DIGEST + 1 + j]);
        assert(prow.subrange(0, WIDTH as int)[j] == input[j]);
    }
    assert forall|j: int| 0 <= j < DIGEST implies #[trigger] row[3 * DIGEST + 1 + j] == 1000 by {
        assert(row[3 * DIGEST + 1 + j] == blk[3 * DIGEST + 1 + j]);
        assert(prow.subrange(0, WIDTH as int)[DIGEST + j] == input[DIGEST + j]);
    }
    assert forall|j: int| 0 <= j < DIGEST implies #[trigger] row[j] == leaf[j] by {
        assert(row[j] == blk[j]);
    }
    assert forall|j: int| 0 <= j < DIGEST implies #[trigger] row[DIGEST + j] == 1000 by {
        assert(row[DIGEST + j] == blk[DIGEST + j]);
    }
    assert(row[2 * DIGEST] == blk[2 * DIGEST]);
}

/// Raising the first sibling lane of a generated path, or its first direction
/// bit, breaks the first level's selection of the permutation's input, so the
/// path circuit rejects the row whatever the public values. The direction
/// bit's control needs a leaf whose first lane is not the sibling's.
pub proof fn lemma_merkle_controls_fail(r: int, depth: nat, leaf: Seq<u64>, pv: Seq<u64>)
    requires
        merkle_generated(r, leaf, depth),
        1 <= depth,
        leaf.len() == DIGEST,
        all_canonical(leaf),
        r >= 0,
    ensures
        some_fails(merkle_steps(r, 0, depth as int), r, raise(merkle_row_spec(r, depth, leaf), DIGEST as int), pv),
        leaf[0] != 1000 ==> some_fails(
            merkle_steps(r, 0, depth as int),
            r,
            raise(merkle_row_spec(r, depth, leaf), 2 * DIGEST),
            pv,
        ),
{
    let row = merkle_row_spec(r, depth, leaf);
    let lw = level_width_spec(r);
    lemma_merkle_first_level(r, depth, leaf);
    lemma_merkle_steps_prefix(r, depth as int);
    lemma_lanes_prefix(r, 0, lw, DIGEST as int);
    let steps = merkle_steps(r, 0, depth as int);
    let lane0 = lane_steps(r, 0, lw, 0);
    assert(level_steps(r, 0, 0)[2] == lane0[0]);
    assert(level_steps(r, 0, 0)[3] == lane0[1]);
    assert(steps[2] == lane0[0]);
    assert(steps[3] == lane0[1]);
    reveal_with_fuel(eval, 4);
    // The sibling's first lane.
    let s4 = raise(row, DIGEST as int);
    assert(row[0] == leaf[0] && row[DIGEST as int] == 1000 && row[3 * DIGEST + 1] == 1000);
    assert(s4[DIGEST as int] == 1001 && s4[2 * DIGEST] == 0 && s4[3 * DIGEST + 1] == 1000);
    assert(eval(right_expr(0, 0), s4, pv) == 1001 + 0 * (s4[0] - 1001));
    assert(!step_holds(steps[3], r, s4, pv));
    // The first direction bit.
    if leaf[0] != 1000 {
        let s8 = raise(row, 2 * DIGEST);
        assert(s8[2 * DIGEST] == 1 && s8[0] == leaf[0] && s8[DIGEST as int] == 1000);
        assert(s8[2 * DIGEST + 1] == leaf[0]);
        assert(eval(left_expr(0, 0), s8, pv) == leaf[0] + 1 * (1000 - leaf[0]));
        assert(leaf[0] < P);
        assert(!step_holds(steps[2], r, s8, pv));
    }
}

/// Merkle inclusion of the fixed leaf: its identifier in the first lane and
/// zeros in the rest.
pub fn merkle_trace<const R: usize, const DEPTH: usize>(rows: usize) -> (t: Trace)
    requires
        R == 0 || R == 1,
        merkle_width_spec(R as int, DEPTH as int) <= usize::MAX,
        rows * merkle_width_spec(R as int, DEPTH as int) <= usize::MAX,
    ensures
        t.repeats(merkle_row_spec(R as int, DEPTH as nat, seq![99, 0, 0, 0]), rows as int),
        t.wf(),
        merkle_generated(R as int, seq![99, 0, 0, 0], DEPTH as nat),
        forall|k: int, pv: Seq<u64>|
            0 <= k < rows ==> #[trigger] all_hold(merkle_steps(R as int, 0, DEPTH as int), R as int, t.row(k), pv),
{
    let t = merkle_trace_leaf::<R, DEPTH>(rows, [99, 0, 0, 0]);
    assert([99u64, 0, 0, 0]@ =~= seq![99u64, 0, 0, 0]);
    t
}

/// A path of `DEPTH` compressions over a caller-supplied leaf: each level
/// supplies a sibling and a direction bit and a permutation whose output
/// becomes the next level's digest. Every row is the path row, and every row
/// satisfies the path's constraints.
pub fn merkle_trace_leaf<const R: usize, const DEPTH: usize>(rows: usize, leaf: [u64; DIGEST]) -> (t: Trace)
    requires
        R == 0 || R == 1,
        all_canonical(leaf@),
        merkle_width_spec(R as int, DEPTH as int) <= usize::MAX,
        rows * merkle_width_spec(R as int, DEPTH as int) <= usize::MAX,
    ensures
        t.repeats(merkle_row_spec(R as int, DEPTH as nat, leaf@), rows as int),
        t.wf(),
        merkle_generated(R as int, leaf@, DEPTH as nat),
        forall|k: int, pv: Seq<u64>|
            0 <= k < rows ==> #[trigger] all_hold(merkle_steps(R as int, 0, DEPTH as int), R as int, t.row(k), pv),
{
    let mut row: Vec<u64> = Vec::new();
    let mut cur: [u64; DIGEST] = leaf;
    let mut level: usize = 0;
    proof {
        assert(DEPTH * 103 <= merkle_width_spec(R as int, DEPTH as int)) by (nonlinear_arith)
            requires
                merkle_width_spec(R as int, DEPTH as int) == DEPTH * (2 * DIGEST + 1 + 94 + 86 * R) + DIGEST,
        ;
    }
    while level < DEPTH
        invariant
            R == 0 || R == 1,
            level <= DEPTH,
            DEPTH * 103 <= usize::MAX,
            row@ == merkle_blocks(R as int, leaf@, level as nat),
            cur@ == merkle_digest(R as int, leaf@, level as nat),
            all_canonical(cur@),
            leaf@.len() == DIGEST,
            merkle_generated(R as int, leaf@, level as nat),
        decreases DEPTH - level,
    {
        let s = from_u64(1000 + level as u64);
        assert(s == 1000 + level);
        let bit: u64 = (level % 2) as u64;
        let input: [u64; WIDTH] = if bit == 1 {
            [s, s, s, s, cur[0], cur[1], cur[2], cur[3]]
        } else {
            [cur[0], cur[1], cur[2], cur[3], s, s, s, s]
        };
        let ghost l = level as nat;
        assert(sibling(l as int) =~= seq![s, s, s, s]);
        assert(input@ =~= merkle_input(cur@, l as int));
        let prow = perm_row::<R>(input);
        append(&mut row, &cur);
        append(&mut row, &[s, s, s, s]);
        row.push(bit);
        append(&mut row, prow.as_slice());
        let out = perm_output::<R>(&prow);
        cur = [out[0], out[1], out[2], out[3]];
        proof {
            assert([s, s, s, s]@ =~= sibling(l as int));
            assert(row@ =~= merkle_blocks(R as int, leaf@, l) + merkle_level_block(R as int, leaf@, l));
            assert(cur@ =~= perm_out(prow@).take(DIGEST as int));
            assert forall|m: nat| m < l + 1 implies #[trigger] generated(R as int, merkle_input(merkle_digest(R as int, leaf@, m), m as int)) by {
                if m == l {
                    assert(generated(R as int, input@));
                }
            }
            assert forall|k: int| 0 <= k < DIGEST implies #[trigger] cur@[k] < P by {
                assert(cur@[k] == prow@[prow@.len() - WIDTH + k]);
            }
        }
        level += 1;
    }
    append(&mut row, &cur);
    proof {
        lemma_merkle_blocks_len(R as int, leaf@, DEPTH as nat);
        assert(row@ =~= merkle_row_spec(R as int, DEPTH as nat, leaf@));
    }
    let t = repeat(&row, rows);
    proof {
        assert forall|k: int, pv: Seq<u64>| 0 <= k < rows implies #[trigger] all_hold(
            merkle_steps(R as int, 0, DEPTH as int),
            R as int,
            t.row(k),
            pv,
        ) by {
            lemma_repeats_row(t, row@, rows as int, k);
            lemma_merkle_row_satisfies(R as int, DEPTH as nat, DEPTH as nat, leaf@, pv);
        }
    }
    t
}

/// The path row starts with its leaf.
pub proof fn lemma_merkle_row_leaf(r: int, depth: nat, leaf: Seq<u64>)
    requires
        merkle_generated(r, leaf, depth),
        leaf.len() == DIGEST,
        r >= 0,
    ensures
        merkle_row_spec(r, depth, leaf).subrange(0, DIGEST as int) == leaf,
{
    let row = merkle_row_spec(r, depth, leaf);
    lemma_merkle_blocks_len(r, leaf, depth);
    if depth > 0 {
        lemma_merkle_blocks(r, leaf, depth, 0);
        let lw = level_width_spec(r);
        assert(lw <= depth * lw) by (nonlinear_arith)
            requires
                depth >= 1,
                lw >= 0,
        ;
        assert forall|j: int| 0 <= j < DIGEST implies #[trigger] row[j] == leaf[j] by {
            assert(row[j] == merkle_blocks(r, leaf, depth)[j]);
            assert(merkle_blocks(r, leaf, depth).subrange(0, lw)[j] == merkle_level_block(r, leaf, 0)[j]);
        }
    }
    assert(row.subrange(0, DIGEST as int) =~= leaf);
}

pub proof fn lemma_merkle_digest_len(r: int, leaf: Seq<u64>, l: nat)
    requires
        merkle_generated(r, leaf, l),
        leaf.len() == DIGEST,
        r >= 0,
    ensures
        merkle_digest(r, leaf, l).len() == DIGEST,
    decreases l,
{
    if l > 0 {
        lemma_merkle_digest_len(r, leaf, (l - 1) as nat);
        assert(generated(r, merkle_input(merkle_digest(r, leaf, (l - 1) as nat), (l - 1) as int)));
    }
}

/// Every digest along a path of generated permutations is canonical.
pub proof fn lemma_merkle_digest_canonical(r: int, leaf: Seq<u64>, l: nat)
    requires
        merkle_generated(r, leaf, l),
        leaf.len() == DIGEST,
        all_canonical(leaf),
        r >= 0,
    ensures
        all_canonical(merkle_digest(r, leaf, l)),
    decreases l,
{
    if l > 0 {
        let b = (l - 1) as nat;
        lemma_merkle_digest_canonical(r, leaf, b);
        let row = poseidon2_trace_row(r, merkle_input(merkle_digest(r, leaf, b), b as int));
        assert(generated(r, merkle_input(merkle_digest(r, leaf, b), b as int)));
        assert forall|k: int| 0 <= k < merkle_digest(r, leaf, l).len() implies #[trigger] merkle_digest(
            r,
            leaf,
            l,
        )[k] < P by {
            assert(merkle_digest(r, leaf, l)[k] == row[row.len() - WIDTH + k]);
        }
    }
}

pub proof fn lemma_merkle_blocks_len(r: int, leaf: Seq<u64>, n: nat)
    requires
        merkle_generated(r, leaf, n),
        leaf.len() == DIGEST,
        r >= 0,
    ensures
        merkle_blocks(r, leaf, n).len() == n * level_width_spec(r),
    decreases n,
{
    if n == 0 {
        assert(n * level_width_spec(r) == 0) by (nonlinear_arith)
            requires
                n == 0,
        ;
    } else {
        lemma_merkle_blocks_len(r, leaf, (n - 1) as nat);
        lemma_merkle_digest_len(r, leaf, (n - 1) as nat);
        let m = (n - 1) as nat;
        let b = merkle_level_block(r, leaf, m);
        assert(generated(r, merkle_input(merkle_digest(r, leaf, m), m as int)));
        assert(merkle_digest(r, leaf, m).len() == DIGEST);
        assert(sibling(m as int).len() == DIGEST);
        assert(poseidon2_trace_row(r, merkle_input(merkle_digest(r, leaf, m), m as int)).len() == block_width_spec(r));
        assert(b.len() == level_width_spec(r));
        assert(generated(r, merkle_input(merkle_digest(r, leaf, (n - 1) as nat), (n - 1) as int)));
        assert((n - 1) * level_width_spec(r) + level_width_spec(r) == n * level_width_spec(r)) by (nonlinear_arith);
    }
}

// ---------------------------------------------------------------------------
// Non-revocation
// ---------------------------------------------------------------------------

/// Units 100 to 200 are revoked and the next revoked range starts at 20000,
/// so the payment's run sits in the gap with room on both sides.
pub const REVOKED_START: u64 = 100;

pub const REVOKED_END: u64 = 200;

pub const NEXT_REVOKED_START: u64 = 20000;

pub const RUN_START: u64 = 385;

pub const RUN_UNITS: u64 = 3;

/// What a control corrupts.
#[derive(Clone, Copy, PartialEq, Eq, Debug, Structural)]
pub enum RevokeBreak {
    /// One bit of a gap decomposition.
    GapDecomposition,
    /// The run begins inside the exhibited revoked range.
    RunStartsInsideRange,
    /// The run extends into the next revoked range.
    RunReachesNextRange,
    /// The run ends before it starts.
    RunInverted,
}

/// The consumed run a control places.
pub open spec fn revoke_run(how: Option<RevokeBreak>) -> (u64, u64) {
    match how {
        Some(RevokeBreak::RunStartsInsideRange) => (150, (150 + RUN_UNITS - 1) as u64),
        Some(RevokeBreak::RunReachesNextRange) => (RUN_START, NEXT_REVOKED_START),
        Some(RevokeBreak::RunInverted) => (RUN_START, (RUN_START - 1) as u64),
        _ => (RUN_START, (RUN_START + RUN_UNITS - 1) as u64),
    }
}

/// The exhibited range record.
pub open spec fn nm_leaf() -> Seq<u64> {
    seq![REVOKED_START, REVOKED_END, NEXT_REVOKED_START, 0]
}

/// lo - start, lo - end - 1, next - hi - 1, and hi - lo.
pub open spec fn nm_gap_values(lo: int, hi: int) -> Seq<int> {
    seq![
        lo - REVOKED_START,
        lo - REVOKED_END - 1,
        NEXT_REVOKED_START - hi - 1,
        hi - lo,
    ]
}

/// The non-membership row before any bit is corrupted: the path, the run,
/// and the low bits of each gap.
pub open spec fn nm_unbroken_row(r: int, depth: nat, how: Option<RevokeBreak>) -> Seq<u64> {
    let (lo, hi) = revoke_run(how);
    let g = nm_gap_values(lo as int, hi as int);
    let m = pow2(RANGE_BITS as nat) as int;
    merkle_row_spec(r, depth, nm_leaf()) + seq![lo, hi] + bits_seq(g[0] % m) + bits_seq(g[1] % m)
        + bits_seq(g[2] % m) + bits_seq(g[3] % m)
}

/// The non-membership row a control produces.
pub open spec fn nm_row_spec(r: int, depth: nat, how: Option<RevokeBreak>) -> Seq<u64> {
    let row = nm_unbroken_row(r, depth, how);
    let at = merkle_width_spec(r, depth as int) + RUN_COLS;
    if how == Some(RevokeBreak::GapDecomposition) {
        row.update(at, 2)
    } else {
        row
    }
}

/// The non-revocation row satisfies C8 when no control is applied, and fails
/// it under every control.
#[verifier::spinoff_prover]
#[verifier::rlimit(40)]
pub proof fn lemma_nm_row(r: int, depth: nat, how: Option<RevokeBreak>, pv: Seq<u64>)
    requires
        r == 0 || r == 1,
        merkle_generated(r, nm_leaf(), depth),
        nonmembership_width_spec(r, depth as int) <= usize::MAX,
    ensures
        how is None ==> all_hold(nonmembership_steps(r, depth as int, 0), r, nm_row_spec(r, depth, how), pv),
        how is Some ==> some_fails(nonmembership_steps(r, depth as int, 0), r, nm_row_spec(r, depth, how), pv),
{
    vstd::arithmetic::power2::lemma2_to64();
    vstd::arithmetic::power2::lemma2_to64_rest();
    let row = nm_row_spec(r, depth, how);
    let pw = merkle_width_spec(r, depth as int);
    let mrow = merkle_row_spec(r, depth, nm_leaf());
    let (lo, hi) = revoke_run(how);
    let gv = nm_gap_values(lo as int, hi as int);
    let m = pow2(RANGE_BITS as nat) as int;
    lemma_merkle_blocks_len(r, nm_leaf(), depth);
    lemma_merkle_digest_len(r, nm_leaf(), depth);
    lemma_merkle_row_leaf(r, depth, nm_leaf());
    assert(mrow.len() == pw);
    assert(row.subrange(0, pw) =~= mrow);
    assert(mrow.subrange(0, pw) =~= mrow);
    // The path.
    let ms = merkle_steps(r, 0, depth as int);
    lemma_merkle_row_satisfies(r, depth, depth, nm_leaf(), pv);
    crate::merkle::lemma_merkle_within(r, 0, depth as int, depth as int);
    crate::expr::lemma_steps_frame(ms, r, row, mrow, pv, pw);
    // The pad lane of the leaf.
    let pad = seq![Step::Zero(Expr::Col(crate::revocation::LEAF_PAD))];
    assert(row[3] == mrow.subrange(0, DIGEST as int)[3]);
    assert(step_holds(pad[0], r, row, pv));
    assert(all_hold(pad, r, row, pv));
    lemma_all_hold_concat(ms, pad, r, row, pv);
    // The comparisons.
    let gaps = crate::revocation::nm_gaps(0, pw);
    let first = pw + RUN_COLS;
    reveal_with_fuel(eval, 3);
    assert(row[pw] == lo && row[pw + 1] == hi);
    assert(row[0] == REVOKED_START && row[1] == REVOKED_END && row[2] == NEXT_REVOKED_START);
    assert forall|k: int| 0 <= k < 4 implies #[trigger] eval(gaps[k], row, pv) == gv[k] by {}
    let blocks = range_blocks_spec(gaps, first);
    assert forall|k: int, j: int| 0 <= k < 4 && 0 <= j < RANGE_BITS && !(k == 0 && j == 0 && how
        == Some(RevokeBreak::GapDecomposition)) implies #[trigger] row[first + k * RANGE_BITS + j]
        == bit(gv[k] % m, j as nat) by {
        let u = nm_unbroken_row(r, depth, how);
        assert(row[first + k * RANGE_BITS + j] == u[first + k * RANGE_BITS + j]);
        if k == 0 {
        } else if k == 1 {
        } else if k == 2 {
        } else {
        }
    }
    if how is None {
        assert forall|k: int| 0 <= k < 4 implies #[trigger] all_hold(
            range_block_spec(gaps[k], first + k * RANGE_BITS),
            r,
            row,
            pv,
        ) by {
            assert(0 <= gv[k] < m);
            vstd::arithmetic::div_mod::lemma_small_mod(gv[k] as nat, m as nat);
            assert forall|j: int| 0 <= j < RANGE_BITS implies row[first + k * RANGE_BITS + j] == #[trigger] bit(gv[k], j as nat) by {
                assert(row[first + k * RANGE_BITS + j] == bit(gv[k] % m, j as nat));
            }
            lemma_range_block_holds(gaps[k], first + k * RANGE_BITS, row, pv, r, gv[k]);
        }
        crate::air::lemma_range_blocks_hold(gaps, first, r, row, pv);
        lemma_all_hold_concat(ms + pad, blocks, r, row, pv);
    } else {
        let k: int = match how {
            Some(RevokeBreak::GapDecomposition) => 0,
            Some(RevokeBreak::RunStartsInsideRange) => 1,
            Some(RevokeBreak::RunReachesNextRange) => 2,
            _ => 3,
        };
        if k == 0 {
            assert(row[first] == 2);
            crate::air::lemma_range_block_fails_bit(gaps[0], first, row, pv, r, 0);
        } else {
            assert(-m <= gv[k] < 0);
            assert(gv[k] % m == gv[k] + m);
            assert forall|j: int| 0 <= j < RANGE_BITS implies row[first + k * RANGE_BITS + j] == #[trigger] bit(gv[k] + m, j as nat) by {
                assert(row[first + k * RANGE_BITS + j] == bit(gv[k] % m, j as nat));
            }
            crate::air::lemma_range_block_fails_negative(gaps[k], first + k * RANGE_BITS, row, pv, r, gv[k]);
        }
        crate::air::lemma_range_blocks_fail(gaps, first, r, row, pv, k);
        lemma_some_fails_concat(ms + pad, blocks, r, row, pv);
    }
}

/// Non-membership over revoked ranges: the inclusion proof for the exhibited
/// range record, then the four comparisons placing the consumed run beyond
/// that range's end and before the next range's start.
pub fn nonmembership_trace<const R: usize, const DEPTH: usize>(rows: usize) -> (t: Trace)
    requires
        R == 0 || R == 1,
        nonmembership_width_spec(R as int, DEPTH as int) <= usize::MAX,
        rows * nonmembership_width_spec(R as int, DEPTH as int) <= usize::MAX,
    ensures
        t.repeats(nm_row_spec(R as int, DEPTH as nat, None), rows as int),
        t.wf(),
        merkle_generated(R as int, nm_leaf(), DEPTH as nat),
        forall|k: int, pv: Seq<u64>|
            0 <= k < rows ==> #[trigger] all_hold(nonmembership_steps(R as int, DEPTH as int, 0), R as int, t.row(k), pv),
{
    build_nonmembership::<R, DEPTH>(rows, None)
}

/// The same trace with a control applied. Every row fails C8.
pub fn broken_nonmembership<const R: usize, const DEPTH: usize>(rows: usize, how: RevokeBreak) -> (t: Trace)
    requires
        R == 0 || R == 1,
        nonmembership_width_spec(R as int, DEPTH as int) <= usize::MAX,
        rows * nonmembership_width_spec(R as int, DEPTH as int) <= usize::MAX,
    ensures
        t.repeats(nm_row_spec(R as int, DEPTH as nat, Some(how)), rows as int),
        t.wf(),
        forall|k: int, pv: Seq<u64>|
            0 <= k < rows ==> #[trigger] some_fails(nonmembership_steps(R as int, DEPTH as int, 0), R as int, t.row(k), pv),
{
    build_nonmembership::<R, DEPTH>(rows, Some(how))
}

pub fn build_nonmembership<const R: usize, const DEPTH: usize>(rows: usize, how: Option<RevokeBreak>) -> (t: Trace)
    requires
        R == 0 || R == 1,
        nonmembership_width_spec(R as int, DEPTH as int) <= usize::MAX,
        rows * nonmembership_width_spec(R as int, DEPTH as int) <= usize::MAX,
    ensures
        t.repeats(nm_row_spec(R as int, DEPTH as nat, how), rows as int),
        t.wf(),
        merkle_generated(R as int, nm_leaf(), DEPTH as nat),
        how is None ==> forall|k: int, pv: Seq<u64>|
            0 <= k < rows ==> #[trigger] all_hold(nonmembership_steps(R as int, DEPTH as int, 0), R as int, t.row(k), pv),
        how is Some ==> forall|k: int, pv: Seq<u64>|
            0 <= k < rows ==> #[trigger] some_fails(nonmembership_steps(R as int, DEPTH as int, 0), R as int, t.row(k), pv),
{
    let leaf: [u64; DIGEST] = [REVOKED_START, REVOKED_END, NEXT_REVOKED_START, 0];
    assert(leaf@ =~= nm_leaf());
    let path = merkle_trace_leaf::<R, DEPTH>(1, leaf);
    proof {
        lemma_merkle_blocks_len(R as int, nm_leaf(), DEPTH as nat);
        lemma_merkle_digest_len(R as int, nm_leaf(), DEPTH as nat);
        lemma_repeats_one(path, merkle_row_spec(R as int, DEPTH as nat, nm_leaf()));
    }
    let pw = path.width;
    let (lo, hi): (u64, u64) = match how {
        Some(RevokeBreak::RunStartsInsideRange) => (150, 150 + RUN_UNITS - 1),
        Some(RevokeBreak::RunReachesNextRange) => (RUN_START, NEXT_REVOKED_START),
        Some(RevokeBreak::RunInverted) => (RUN_START, RUN_START - 1),
        _ => (RUN_START, RUN_START + RUN_UNITS - 1),
    };
    let gaps: [i128; 4] = [
        lo as i128 - REVOKED_START as i128,
        lo as i128 - REVOKED_END as i128 - 1,
        NEXT_REVOKED_START as i128 - hi as i128 - 1,
        hi as i128 - lo as i128,
    ];
    let mut row = path.values;
    row.push(lo);
    row.push(hi);
    let mut g: usize = 0;
    let ghost gv = nm_gap_values(lo as int, hi as int);
    let ghost m = pow2(RANGE_BITS as nat) as int;
    proof {
        vstd::arithmetic::power2::lemma2_to64();
        vstd::arithmetic::power2::lemma2_to64_rest();
    }
    while g < 4
        invariant
            g <= 4,
            m == pow2(RANGE_BITS as nat),
            gv == nm_gap_values(lo as int, hi as int),
            forall|j: int| 0 <= j < 4 ==> #[trigger] gaps@[j] == gv[j],
            row@ == merkle_row_spec(R as int, DEPTH as nat, nm_leaf()) + seq![lo, hi] + (if g == 0 {
                Seq::<u64>::empty()
            } else if g == 1 {
                bits_seq(gv[0] % m)
            } else if g == 2 {
                bits_seq(gv[0] % m) + bits_seq(gv[1] % m)
            } else if g == 3 {
                bits_seq(gv[0] % m) + bits_seq(gv[1] % m) + bits_seq(gv[2] % m)
            } else {
                bits_seq(gv[0] % m) + bits_seq(gv[1] % m) + bits_seq(gv[2] % m) + bits_seq(gv[3] % m)
            }),
        decreases 4 - g,
    {
        let b = bits_of(low_bits(gaps[g]));
        assert(b@ =~= bits_seq(gv[g as int] % m));
        append(&mut row, b.as_slice());
        g += 1;
        assert(row@ =~= merkle_row_spec(R as int, DEPTH as nat, nm_leaf()) + seq![lo, hi] + (if g == 1 {
                bits_seq(gv[0] % m)
            } else if g == 2 {
                bits_seq(gv[0] % m) + bits_seq(gv[1] % m)
            } else if g == 3 {
                bits_seq(gv[0] % m) + bits_seq(gv[1] % m) + bits_seq(gv[2] % m)
            } else {
                bits_seq(gv[0] % m) + bits_seq(gv[1] % m) + bits_seq(gv[2] % m) + bits_seq(gv[3] % m)
            }));
    }
    assert(row@ =~= nm_unbroken_row(R as int, DEPTH as nat, how));
    match how {
        Some(RevokeBreak::GapDecomposition) => {
            let v = row[pw + 2];
            assert(v == 1) by {
                assert(gv[0] == 285);
                assert(bit(285, 0) == 1);
            }
            row.set(pw + 2, crate::field::fadd(v, 1));
        },
        _ => {},
    }
    assert(row@ =~= nm_row_spec(R as int, DEPTH as nat, how));
    let t = repeat(&row, rows);
    proof {
        if how is None {
            assert forall|k: int, pv: Seq<u64>| 0 <= k < rows implies #[trigger] all_hold(
                nonmembership_steps(R as int, DEPTH as int, 0),
                R as int,
                t.row(k),
                pv,
            ) by {
                lemma_repeats_row(t, row@, rows as int, k);
                lemma_nm_row(R as int, DEPTH as nat, how, pv);
            }
        } else {
            assert forall|k: int, pv: Seq<u64>| 0 <= k < rows implies #[trigger] some_fails(
                nonmembership_steps(R as int, DEPTH as int, 0),
                R as int,
                t.row(k),
                pv,
            ) by {
                lemma_repeats_row(t, row@, rows as int, k);
                lemma_nm_row(R as int, DEPTH as nat, how, pv);
            }
        }
    }
    t
}

} // verus!
