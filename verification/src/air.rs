//! The policy clauses, the payment row's column layout, and the range checks
//! every circuit builds its comparisons from.
use crate::expr::{all_hold, col, eval, minus, plus, step_holds, twice, Expr, Step};
use crate::field::P;
use crate::hash::WIDTH;
use vstd::arithmetic::power2::pow2;
use vstd::prelude::*;

verus! {

/// Bits used for each range check. Budgets run to about 10^9 canonical
/// units, so 40 leaves headroom without paying for a full 64-bit
/// decomposition.
pub const RANGE_BITS: usize = 40;

#[derive(Clone, Copy, PartialEq, Eq, Debug, Structural)]
pub enum Clause {
    C1Cap,
    C2Cumulative,
    C3Merchant,
    C4Category,
    C5Temporal,
    C6Velocity,
}

/// The label a clause is reported under.
pub open spec fn clause_name(c: Clause) -> Seq<char> {
    match c {
        Clause::C1Cap => "C1 per-payment cap"@,
        Clause::C2Cumulative => "C2 cumulative budget"@,
        Clause::C3Merchant => "C3 merchant allowlist"@,
        Clause::C4Category => "C4 category allowlist"@,
        Clause::C5Temporal => "C5 validity window"@,
        Clause::C6Velocity => "C6 velocity"@,
    }
}

/// Range checks a clause needs. C5 needs two, one per endpoint.
pub open spec fn clause_range_checks(c: Clause) -> int {
    match c {
        Clause::C1Cap | Clause::C2Cumulative | Clause::C6Velocity => 1,
        Clause::C5Temporal => 2,
        Clause::C3Merchant | Clause::C4Category => 0,
    }
}

/// A clause a proof can establish on its own, from the policy and the payload
/// with no spend state in it.
pub open spec fn is_circuit_clause(c: Clause) -> bool {
    c != Clause::C2Cumulative && c != Clause::C6Velocity
}

impl Clause {
    pub fn name(&self) -> (s: &'static str)
        ensures
            s@ == clause_name(*self),
    {
        match self {
            Clause::C1Cap => "C1 per-payment cap",
            Clause::C2Cumulative => "C2 cumulative budget",
            Clause::C3Merchant => "C3 merchant allowlist",
            Clause::C4Category => "C4 category allowlist",
            Clause::C5Temporal => "C5 validity window",
            Clause::C6Velocity => "C6 velocity",
        }
    }

    pub fn range_checks(&self) -> (n: usize)
        ensures
            n == clause_range_checks(*self),
    {
        match self {
            Clause::C1Cap | Clause::C2Cumulative | Clause::C6Velocity => 1,
            Clause::C5Temporal => 2,
            Clause::C3Merchant | Clause::C4Category => 0,
        }
    }
}

/// The clauses a proof can establish on its own. C2 and C6 are absent: a
/// cumulative total supplied by the prover binds nothing, and the rate limit
/// is counted by the reserve.
pub const ALL_CLAUSES: [Clause; 4] = [
    Clause::C1Cap,
    Clause::C3Merchant,
    Clause::C4Category,
    Clause::C5Temporal,
];

/// Every clause, including the two the circuit does not carry.
pub const EVERY_CLAUSE: [Clause; 6] = [
    Clause::C1Cap,
    Clause::C2Cumulative,
    Clause::C3Merchant,
    Clause::C4Category,
    Clause::C5Temporal,
    Clause::C6Velocity,
];

/// A digest is half the permutation width.
pub const DIGEST: usize = 4;

// One row per payment. The payment: what this payment is.
pub const COL_AMOUNT: usize = 0;

pub const COL_MID: usize = 1;

pub const COL_CID: usize = 2;

pub const COL_T: usize = 3;

/// The party the payment pays, which the merchant allowlist is checked
/// against.
pub const COL_PAYEE: usize = 4;

// The policy scalars, in commitment order.
pub const COL_B: usize = 5;

pub const COL_C: usize = COL_B + 1;

pub const COL_TSTART: usize = COL_C + 1;

pub const COL_TEXP: usize = COL_TSTART + 1;

pub const COL_N: usize = COL_TEXP + 1;

pub const COL_W: usize = COL_N + 1;

/// The part of the budget the delegation keeps for itself.
pub const COL_G: usize = COL_W + 1;

// The policy roots, DIGEST elements each.
pub const COL_MROOT: usize = COL_G + 1;

pub const COL_CROOT: usize = COL_MROOT + DIGEST;

/// The blinding value, absorbed last of the policy.
pub const COL_R: usize = COL_CROOT + DIGEST;

/// The payload's freshness value.
pub const COL_NONCE: usize = COL_R + 1;

/// Membership verdicts, bound to the Merkle components in the composed circuit.
pub const COL_MERCHANT_OK: usize = COL_NONCE + 1;

pub const COL_CATEGORY_OK: usize = COL_MERCHANT_OK + 1;

pub const VALUE_COLS: usize = COL_CATEGORY_OK + 1;

/// The scalar policy fields C9 absorbs, in the order it absorbs them.
pub const POLICY_SCALARS: [usize; 7] = [COL_B, COL_C, COL_TSTART, COL_TEXP, COL_N, COL_W, COL_G];

/// Elements C9 absorbs: the scalars, both roots in full, and the blinding value.
pub const POLICY_ELEMS: usize = 7 + 2 * DIGEST + 1;

/// The payment payload, in the order the C7 sponge absorbs it.
pub const PAYLOAD_SRC: [usize; 6] = [COL_AMOUNT, COL_MID, COL_CID, COL_T, COL_PAYEE, COL_NONCE];

pub const PAYLOAD_ELEMS: usize = 6;

/// The column absorbed policy element `e` is drawn from.
pub open spec fn policy_src_spec(e: int) -> int {
    if e < 7 {
        POLICY_SCALARS@[e] as int
    } else if e < 7 + DIGEST {
        COL_MROOT + (e - 7)
    } else if e < 7 + 2 * DIGEST {
        COL_CROOT + (e - 7 - DIGEST)
    } else {
        COL_R as int
    }
}

/// The column an absorbed policy element is drawn from.
pub fn policy_src(e: usize) -> (c: usize)
    ensures
        c == policy_src_spec(e as int),
        c < VALUE_COLS,
{
    if e < POLICY_SCALARS.len() {
        POLICY_SCALARS[e]
    } else if e < POLICY_SCALARS.len() + DIGEST {
        COL_MROOT + (e - POLICY_SCALARS.len())
    } else if e < POLICY_SCALARS.len() + 2 * DIGEST {
        COL_CROOT + (e - POLICY_SCALARS.len() - DIGEST)
    } else {
        COL_R
    }
}

/// The absorbed policy elements are drawn from distinct policy columns, none
/// of them a payment column, so the commitment fixes every policy field once
/// and binds nothing the payment chooses.
pub proof fn lemma_policy_src_distinct(e1: int, e2: int)
    requires
        0 <= e1 < POLICY_ELEMS,
        0 <= e2 < POLICY_ELEMS,
        e1 != e2,
    ensures
        policy_src_spec(e1) != policy_src_spec(e2),
        COL_B <= policy_src_spec(e1) <= COL_R,
{
}

// ---------------------------------------------------------------------------
// Range checks
// ---------------------------------------------------------------------------

/// Little-endian recomposition of the bits in columns `start + i` to
/// `start + n - 1`, built by doubling so no field constant is needed.
pub open spec fn recompose_from(start: int, n: int, i: int) -> Expr
    decreases n - i,
{
    if i >= n - 1 {
        Expr::Col((start + n - 1) as usize)
    } else {
        Expr::Add(
            Box::new(Expr::Double(Box::new(recompose_from(start, n, i + 1)))),
            Box::new(Expr::Col((start + i) as usize)),
        )
    }
}

/// The recomposition of a range-check block starting at column `start`.
pub open spec fn recompose_spec(start: int) -> Expr {
    recompose_from(start, RANGE_BITS as int, 0)
}

/// The value the bits in columns `start + i .. start + n` encode.
pub open spec fn weighted(row: Seq<u64>, start: int, i: int, n: int) -> int
    decreases n - i,
{
    if i >= n {
        0
    } else {
        row[start + i] + 2 * weighted(row, start, i + 1, n)
    }
}

pub proof fn lemma_recompose_eval(row: Seq<u64>, pv: Seq<u64>, start: int, n: int, i: int)
    requires
        0 <= i < n,
        0 <= start,
        start + n <= usize::MAX,
    ensures
        eval(recompose_from(start, n, i), row, pv) == weighted(row, start, i, n),
    decreases n - i,
{
    reveal_with_fuel(eval, 3);
    reveal_with_fuel(weighted, 2);
    if i < n - 1 {
        lemma_recompose_eval(row, pv, start, n, i + 1);
    }
}

/// Build the recomposition of the block starting at column `start`.
pub fn recompose(start: usize) -> (e: Expr)
    requires
        start + RANGE_BITS <= usize::MAX,
    ensures
        e == recompose_spec(start as int),
{
    let mut acc = col(start + RANGE_BITS - 1);
    let mut i: usize = RANGE_BITS - 1;
    while i > 0
        invariant
            start + RANGE_BITS <= usize::MAX,
            i <= RANGE_BITS - 1,
            acc == recompose_from(start as int, RANGE_BITS as int, i as int),
        decreases i,
    {
        i -= 1;
        acc = plus(twice(acc), col(start + i));
    }
    acc
}

/// A range check: every bit of the block at `start` is boolean, and `gap`
/// equals their recomposition.
pub open spec fn range_block_spec(gap: Expr, start: int) -> Seq<Step> {
    Seq::new(RANGE_BITS as nat, |k: int| Step::Bool(Expr::Col((start + k) as usize))).push(
        Step::Eq(gap, recompose_spec(start)),
    )
}

pub proof fn lemma_recompose_within(start: int, n: int, i: int, w: int)
    requires
        0 <= i < n,
        0 <= start,
        start + n <= w,
        start + n <= usize::MAX,
    ensures
        crate::expr::expr_cols_below(recompose_from(start, n, i), w),
    decreases n - i,
{
    reveal_with_fuel(crate::expr::expr_cols_below, 3);
    if i < n - 1 {
        lemma_recompose_within(start, n, i + 1, w);
    }
}

/// A range check reads its gap and its own block.
pub proof fn lemma_range_block_within(gap: Expr, start: int, r: int, w: int)
    requires
        crate::expr::expr_cols_below(gap, w),
        0 <= start,
        start + RANGE_BITS <= w,
        start + RANGE_BITS <= usize::MAX,
    ensures
        crate::expr::steps_within(range_block_spec(gap, start), r, w),
{
    lemma_recompose_within(start, RANGE_BITS as int, 0, w);
}

/// Range checks over consecutive blocks read their gaps and their blocks.
pub proof fn lemma_range_blocks_within(gaps: Seq<Expr>, first: int, r: int, w: int)
    requires
        forall|k: int| 0 <= k < gaps.len() ==> crate::expr::expr_cols_below(#[trigger] gaps[k], w),
        0 <= first,
        first + gaps.len() * RANGE_BITS <= w,
        first + gaps.len() * RANGE_BITS <= usize::MAX,
    ensures
        crate::expr::steps_within(range_blocks_spec(gaps, first), r, w),
    decreases gaps.len(),
{
    if gaps.len() > 0 {
        let n = gaps.len() - 1;
        lemma_range_blocks_within(gaps.drop_last(), first, r, w);
        assert(first + n * RANGE_BITS + RANGE_BITS == first + gaps.len() * RANGE_BITS) by (nonlinear_arith)
            requires n == gaps.len() - 1;
        assert(n * RANGE_BITS >= 0) by (nonlinear_arith) requires n >= 0;
        lemma_range_block_within(gaps.last(), first + n * RANGE_BITS, r, w);
        crate::expr::lemma_within_concat(
            range_blocks_spec(gaps.drop_last(), first),
            range_block_spec(gaps.last(), first + n * RANGE_BITS),
            r,
            w,
        );
    }
}

/// Range checks over consecutive blocks from `first`, one per gap, in order.
pub open spec fn range_blocks_spec(gaps: Seq<Expr>, first: int) -> Seq<Step>
    decreases gaps.len(),
{
    if gaps.len() == 0 {
        seq![]
    } else {
        range_blocks_spec(gaps.drop_last(), first) + range_block_spec(
            gaps.last(),
            first + (gaps.len() - 1) * RANGE_BITS,
        )
    }
}

/// Range checks over consecutive blocks hold when each block's does.
pub proof fn lemma_range_blocks_hold(gaps: Seq<Expr>, first: int, r: int, row: Seq<u64>, pv: Seq<u64>)
    requires
        forall|k: int|
            0 <= k < gaps.len() ==> #[trigger] all_hold(
                range_block_spec(gaps[k], first + k * RANGE_BITS),
                r,
                row,
                pv,
            ),
    ensures
        all_hold(range_blocks_spec(gaps, first), r, row, pv),
    decreases gaps.len(),
{
    if gaps.len() > 0 {
        let n = gaps.len() - 1;
        assert forall|k: int| 0 <= k < gaps.drop_last().len() implies #[trigger] all_hold(
            range_block_spec(gaps.drop_last()[k], first + k * RANGE_BITS),
            r,
            row,
            pv,
        ) by {
            assert(gaps.drop_last()[k] == gaps[k]);
        }
        lemma_range_blocks_hold(gaps.drop_last(), first, r, row, pv);
        assert(all_hold(range_block_spec(gaps[n], first + n * RANGE_BITS), r, row, pv));
        crate::expr::lemma_all_hold_concat(
            range_blocks_spec(gaps.drop_last(), first),
            range_block_spec(gaps.last(), first + n * RANGE_BITS),
            r,
            row,
            pv,
        );
    }
}

/// Each range check over consecutive blocks holds where all of them do.
pub proof fn lemma_range_blocks_each(gaps: Seq<Expr>, first: int, r: int, row: Seq<u64>, pv: Seq<u64>, k: int)
    requires
        all_hold(range_blocks_spec(gaps, first), r, row, pv),
        0 <= k < gaps.len(),
    ensures
        all_hold(range_block_spec(gaps[k], first + k * RANGE_BITS), r, row, pv),
    decreases gaps.len(),
{
    let n = gaps.len() - 1;
    crate::expr::lemma_all_hold_split(
        range_blocks_spec(gaps.drop_last(), first),
        range_block_spec(gaps.last(), first + n * RANGE_BITS),
        r,
        row,
        pv,
    );
    if k < n {
        lemma_range_blocks_each(gaps.drop_last(), first, r, row, pv, k);
        assert(gaps.drop_last()[k] == gaps[k]);
    }
}

/// Range checks over consecutive blocks fail when one block's does.
pub proof fn lemma_range_blocks_fail(gaps: Seq<Expr>, first: int, r: int, row: Seq<u64>, pv: Seq<u64>, k: int)
    requires
        0 <= k < gaps.len(),
        crate::expr::some_fails(range_block_spec(gaps[k], first + k * RANGE_BITS), r, row, pv),
    ensures
        crate::expr::some_fails(range_blocks_spec(gaps, first), r, row, pv),
    decreases gaps.len(),
{
    let n = gaps.len() - 1;
    if k < n {
        assert(gaps.drop_last()[k] == gaps[k]);
        lemma_range_blocks_fail(gaps.drop_last(), first, r, row, pv, k);
    }
    crate::expr::lemma_some_fails_concat(
        range_blocks_spec(gaps.drop_last(), first),
        range_block_spec(gaps.last(), first + n * RANGE_BITS),
        r,
        row,
        pv,
    );
}

/// Append the range check of `gap` against the block at `start`.
pub fn push_range_block(steps: &mut Vec<Step>, gap: Expr, start: usize)
    requires
        start + RANGE_BITS <= usize::MAX,
    ensures
        final(steps)@ == old(steps)@ + range_block_spec(gap, start as int),
{
    let ghost init = old(steps)@;
    let mut k: usize = 0;
    while k < RANGE_BITS
        invariant
            start + RANGE_BITS <= usize::MAX,
            k <= RANGE_BITS,
            steps@ == init + Seq::new(
                k as nat,
                |j: int| Step::Bool(Expr::Col((start + j) as usize)),
            ),
        decreases RANGE_BITS - k,
    {
        steps.push(Step::Bool(col(start + k)));
        k += 1;
        assert(steps@ =~= init + Seq::new(
            k as nat,
            |j: int| Step::Bool(Expr::Col((start + j) as usize)),
        ));
    }
    steps.push(Step::Eq(gap, recompose(start)));
    assert(steps@ =~= init + range_block_spec(gap, start as int));
}

/// Append range checks of `gaps` against consecutive blocks from `first`.
pub fn push_range_blocks(steps: &mut Vec<Step>, gaps: Vec<Expr>, first: usize)
    requires
        first + gaps@.len() * RANGE_BITS <= usize::MAX,
    ensures
        final(steps)@ == old(steps)@ + range_blocks_spec(gaps@, first as int),
{
    let ghost init = old(steps)@;
    let ghost all = gaps@;
    let n = gaps.len();
    let mut gaps = gaps;
    let mut rest: Vec<Expr> = Vec::new();
    // Reverse so the gaps can be taken from the back in the order they were given.
    while gaps.len() > 0
        invariant
            gaps@ + rest@.reverse() == all,
        decreases gaps.len(),
    {
        let g = gaps.pop().unwrap();
        proof {
            assert(gaps@ + rest@.push(g).reverse() =~= all);
        }
        rest.push(g);
    }
    let mut k: usize = 0;
    while k < n
        invariant
            n == all.len(),
            k <= n,
            first + n * RANGE_BITS <= usize::MAX,
            rest@.len() == n - k,
            forall|j: int| 0 <= j < rest@.len() ==> #[trigger] rest@[j] == all[n - 1 - j],
            steps@ == init + range_blocks_spec(all.take(k as int), first as int),
        decreases n - k,
    {
        let g = rest.pop().unwrap();
        assert(k * RANGE_BITS + RANGE_BITS <= n * RANGE_BITS) by (nonlinear_arith)
            requires
                k < n,
        ;
        let start = first + k * RANGE_BITS;
        push_range_block(steps, g, start);
        proof {
            let t = all.take(k + 1);
            assert(t.drop_last() =~= all.take(k as int));
            assert(t.last() == g);
        }
        k += 1;
    }
    assert(all.take(n as int) =~= all);
}

/// The bits of `v`'s binary expansion, lowest first.
pub open spec fn bit(v: int, i: nat) -> int {
    (v / (pow2(i) as int)) % 2
}

/// The low `RANGE_BITS` bits of `v`, lowest first, each as a field element.
pub fn bits_of(v: u64) -> (b: Vec<u64>)
    ensures
        b@.len() == RANGE_BITS,
        forall|i: int| 0 <= i < RANGE_BITS ==> #[trigger] b@[i] == bit(v as int, i as nat),
{
    let mut out: Vec<u64> = Vec::new();
    let mut x: u64 = v;
    let mut i: usize = 0;
    proof {
        vstd::arithmetic::power2::lemma2_to64();
    }
    while i < RANGE_BITS
        invariant
            i <= RANGE_BITS,
            out@.len() == i,
            x as int == (v as int) / (pow2(i as nat) as int),
            forall|k: int| 0 <= k < i ==> #[trigger] out@[k] == bit(v as int, k as nat),
        decreases RANGE_BITS - i,
    {
        out.push(x % 2);
        proof {
            vstd::arithmetic::power2::lemma_pow2_pos(i as nat);
            vstd::arithmetic::power2::lemma_pow2_unfold((i + 1) as nat);
            vstd::arithmetic::div_mod::lemma_div_denominator(
                v as int,
                pow2(i as nat) as int,
                2,
            );
            assert(pow2((i + 1) as nat) == pow2(i as nat) * 2);
        }
        x = x / 2;
        i += 1;
    }
    out
}

/// The `RANGE_BITS` bits of `v`, lowest first.
pub open spec fn bits_seq(v: int) -> Seq<u64> {
    Seq::new(RANGE_BITS as nat, |k: int| bit(v, k as nat) as u64)
}

/// The low `RANGE_BITS` bits of a signed value in two's complement, which is
/// what a generator writes for a gap a control drives negative.
pub fn low_bits(v: i128) -> (r: u64)
    ensures
        r == (v as int) % (pow2(RANGE_BITS as nat) as int),
{
    proof {
        vstd::arithmetic::power2::lemma2_to64();
        vstd::arithmetic::power2::lemma2_to64_rest();
    }
    let m: i128 = 0x100_0000_0000i128;
    let q: i128 = v % m;
    if q < 0 {
        (q + m) as u64
    } else {
        q as u64
    }
}

/// The bits of a value below 2^n recompose to it.
pub proof fn lemma_bits_weighted(row: Seq<u64>, start: int, v: int, i: int, n: int)
    requires
        0 <= v,
        0 <= i <= n,
        0 <= start,
        start + n <= row.len(),
        forall|k: int| 0 <= k < n ==> row[start + k] == #[trigger] bit(v, k as nat),
    ensures
        weighted(row, start, i, n) == (v / (pow2(i as nat) as int)) % (pow2((n - i) as nat) as int),
    decreases n - i,
{
    vstd::arithmetic::power2::lemma_pow2_pos(i as nat);
    if i == n {
        vstd::arithmetic::power2::lemma2_to64();
        assert(pow2(0) == 1);
    } else {
        lemma_bits_weighted(row, start, v, i + 1, n);
        let x = v / (pow2(i as nat) as int);
        vstd::arithmetic::power2::lemma_pow2_unfold((i + 1) as nat);
        vstd::arithmetic::power2::lemma_pow2_unfold((n - i) as nat);
        vstd::arithmetic::power2::lemma_pow2_pos((n - i - 1) as nat);
        vstd::arithmetic::div_mod::lemma_div_denominator(v, pow2(i as nat) as int, 2);
        vstd::arithmetic::div_mod::lemma_div_pos_is_pos(v, pow2(i as nat) as int);
        vstd::arithmetic::div_mod::lemma_mod_breakdown(x, 2, pow2((n - i - 1) as nat) as int);
        assert(pow2((i + 1) as nat) == pow2(i as nat) * 2);
        assert(row[start + i] == bit(v, i as nat));
        assert(row[start + i] == x % 2);
        assert((v / (pow2((i + 1) as nat) as int)) == x / 2);
    }
}

/// The value a bit block encodes depends on the block's cells alone.
pub proof fn lemma_weighted_frame(a: Seq<u64>, b: Seq<u64>, start: int, i: int, n: int)
    requires
        forall|j: int| start + i <= j < start + n ==> #[trigger] a[j] == b[j],
    ensures
        weighted(a, start, i, n) == weighted(b, start, i, n),
    decreases n - i,
{
    if i < n {
        lemma_weighted_frame(a, b, start, i + 1, n);
    }
}

/// A range check holds of a row whose block holds the bits of a value below
/// 2^RANGE_BITS and whose gap evaluates to that value.
pub proof fn lemma_range_block_holds(
    gap: Expr,
    start: int,
    row: Seq<u64>,
    pv: Seq<u64>,
    r: int,
    v: int,
)
    requires
        0 <= v < pow2(RANGE_BITS as nat),
        0 <= start,
        start + RANGE_BITS <= row.len(),
        start + RANGE_BITS <= usize::MAX,
        forall|k: int| 0 <= k < RANGE_BITS ==> row[start + k] == #[trigger] bit(v, k as nat),
        (eval(gap, row, pv) - v) % (P as int) == 0,
    ensures
        all_hold(range_block_spec(gap, start), r, row, pv),
{
    lemma_recompose_eval(row, pv, start, RANGE_BITS as int, 0);
    lemma_bits_weighted(row, start, v, 0, RANGE_BITS as int);
    vstd::arithmetic::power2::lemma2_to64();
    vstd::arithmetic::div_mod::lemma_small_mod(v as nat, pow2(RANGE_BITS as nat));
    let steps = range_block_spec(gap, start);
    assert forall|i: int| 0 <= i < steps.len() implies #[trigger] step_holds(
        steps[i],
        r,
        row,
        pv,
    ) by {
        if i < RANGE_BITS {
            let b = row[start + i];
            assert(b == bit(v, i as nat));
            vstd::arithmetic::power2::lemma_pow2_pos(i as nat);
            vstd::arithmetic::div_mod::lemma_div_pos_is_pos(v, pow2(i as nat) as int);
            vstd::arithmetic::div_mod::lemma_mod_pos_bound(
                v / (pow2(i as nat) as int),
                2,
            );
            assert(b == 0 || b == 1);
            assert(steps[i] == Step::Bool(Expr::Col((start + i) as usize)));
            assert(eval(Expr::Col((start + i) as usize), row, pv) == b);
        } else {
            assert(steps[i] == Step::Eq(gap, recompose_spec(start)));
            vstd::arithmetic::div_mod::lemma_div_basics(v);
            assert(v / (pow2(0) as int) == v);
            assert(eval(recompose_spec(start), row, pv) == v);
        }
    }
}

/// Cells holding bits encode a value below 2^(n - i).
pub proof fn lemma_weighted_bound(row: Seq<u64>, start: int, i: int, n: int)
    requires
        0 <= i <= n,
        forall|k: int| i <= k < n ==> #[trigger] row[start + k] <= 1,
    ensures
        0 <= weighted(row, start, i, n) < pow2((n - i) as nat),
    decreases n - i,
{
    if i < n {
        lemma_weighted_bound(row, start, i + 1, n);
        vstd::arithmetic::power2::lemma_pow2_unfold((n - i) as nat);
        assert(row[start + i] <= 1);
    } else {
        vstd::arithmetic::power2::lemma2_to64();
    }
}

/// What a range check guarantees. Where the block's cells hold bits, a row
/// satisfying the check has a gap which, reduced into [0, p), is the value
/// the bits encode, and so lies below 2^RANGE_BITS.
pub proof fn lemma_range_block_bounds_gap(gap: Expr, start: int, row: Seq<u64>, pv: Seq<u64>, r: int)
    requires
        0 <= start,
        start + RANGE_BITS <= usize::MAX,
        all_hold(range_block_spec(gap, start), r, row, pv),
        forall|k: int| 0 <= k < RANGE_BITS ==> #[trigger] row[start + k] <= 1,
    ensures
        eval(gap, row, pv) % (P as int) == weighted(row, start, 0, RANGE_BITS as int),
        weighted(row, start, 0, RANGE_BITS as int) < pow2(RANGE_BITS as nat),
{
    let w = weighted(row, start, 0, RANGE_BITS as int);
    let g = eval(gap, row, pv);
    assert forall|k: int| 0 <= k < RANGE_BITS implies #[trigger] row[start + k] <= 1 by {}
    lemma_weighted_bound(row, start, 0, RANGE_BITS as int);
    lemma_recompose_eval(row, pv, start, RANGE_BITS as int, 0);
    vstd::arithmetic::power2::lemma2_to64();
    vstd::arithmetic::power2::lemma2_to64_rest();
    let steps = range_block_spec(gap, start);
    assert(steps[RANGE_BITS as int] == Step::Eq(gap, recompose_spec(start)));
    assert(step_holds(steps[RANGE_BITS as int], r, row, pv));
    assert((g - w) % (P as int) == 0);
    vstd::arithmetic::div_mod::lemma_fundamental_div_mod(g - w, P as int);
    let q = (g - w) / (P as int);
    vstd::arithmetic::div_mod::lemma_mod_multiples_vanish(q, w, P as int);
    vstd::arithmetic::div_mod::lemma_small_mod(w as nat, P as nat);
    assert(g == (P as int) * q + w);
}

/// A difference of two field elements that reduces into [0, 2^RANGE_BITS)
/// and is not too negative is itself that small non-negative value.
pub proof fn lemma_small_gap(d: int, w: int)
    requires
        d % (P as int) == w,
        0 <= w < pow2(RANGE_BITS as nat),
        pow2(RANGE_BITS as nat) - (P as int) < d < P as int,
    ensures
        0 <= d < pow2(RANGE_BITS as nat),
{
    vstd::arithmetic::power2::lemma2_to64();
    vstd::arithmetic::power2::lemma2_to64_rest();
    if d >= 0 {
        vstd::arithmetic::div_mod::lemma_small_mod(d as nat, P as nat);
    } else {
        vstd::arithmetic::div_mod::lemma_mod_multiples_vanish(1, d, P as int);
        vstd::arithmetic::div_mod::lemma_small_mod((d + P) as nat, P as nat);
    }
}

/// A range check fails on a row whose gap is negative and whose block holds
/// the low bits of that gap: the bits recompose to the gap plus 2^RANGE_BITS,
/// which differs from it in the field.
pub proof fn lemma_range_block_fails_negative(
    gap: Expr,
    start: int,
    row: Seq<u64>,
    pv: Seq<u64>,
    r: int,
    v: int,
)
    requires
        -pow2(RANGE_BITS as nat) <= v < 0,
        0 <= start,
        start + RANGE_BITS <= row.len(),
        start + RANGE_BITS <= usize::MAX,
        forall|k: int| 0 <= k < RANGE_BITS ==> row[start + k] == #[trigger] bit(v + pow2(RANGE_BITS as nat), k as nat),
        eval(gap, row, pv) == v,
    ensures
        crate::expr::some_fails(range_block_spec(gap, start), r, row, pv),
{
    vstd::arithmetic::power2::lemma2_to64();
    vstd::arithmetic::power2::lemma2_to64_rest();
    let u = v + pow2(RANGE_BITS as nat);
    lemma_recompose_eval(row, pv, start, RANGE_BITS as int, 0);
    lemma_bits_weighted(row, start, u, 0, RANGE_BITS as int);
    vstd::arithmetic::div_mod::lemma_div_basics(u);
    vstd::arithmetic::div_mod::lemma_small_mod(u as nat, pow2(RANGE_BITS as nat));
    assert(weighted(row, start, 0, RANGE_BITS as int) == u);
    let steps = range_block_spec(gap, start);
    assert(steps[RANGE_BITS as int] == Step::Eq(gap, recompose_spec(start)));
    assert(eval(gap, row, pv) - eval(recompose_spec(start), row, pv) == -0x100_0000_0000int);
    assert(!step_holds(steps[RANGE_BITS as int], r, row, pv));
}

/// A range check fails on a row one of whose block cells is two.
pub proof fn lemma_range_block_fails_bit(gap: Expr, start: int, row: Seq<u64>, pv: Seq<u64>, r: int, k: int)
    requires
        0 <= k < RANGE_BITS,
        0 <= start,
        start + RANGE_BITS <= usize::MAX,
        row[start + k] == 2,
    ensures
        crate::expr::some_fails(range_block_spec(gap, start), r, row, pv),
{
    let steps = range_block_spec(gap, start);
    assert(steps[k] == Step::Bool(Expr::Col((start + k) as usize)));
    assert(eval(Expr::Col((start + k) as usize), row, pv) == 2);
    assert(!step_holds(steps[k], r, row, pv));
}

// ---------------------------------------------------------------------------
// The policy circuit
// ---------------------------------------------------------------------------

/// Range checks a list of clauses allocates, in order.
pub open spec fn sum_range_checks(s: Seq<Clause>) -> int
    decreases s.len(),
{
    if s.len() == 0 {
        0
    } else {
        sum_range_checks(s.drop_last()) + clause_range_checks(s.last())
    }
}

pub proof fn lemma_sum_range_checks_bound(s: Seq<Clause>)
    ensures
        0 <= sum_range_checks(s) <= 2 * s.len(),
    decreases s.len(),
{
    if s.len() > 0 {
        lemma_sum_range_checks_bound(s.drop_last());
    }
}

pub struct PolicyAir {
    pub clauses: Vec<Clause>,
}

/// The constraints a clause asserts directly, at column offset `base`.
pub open spec fn clause_direct(c: Clause, base: int) -> Seq<Step> {
    match c {
        Clause::C3Merchant => seq![
            Step::Eq(Expr::Col((base + COL_MID) as usize), Expr::Col((base + COL_PAYEE) as usize)),
            Step::One(Expr::Col((base + COL_MERCHANT_OK) as usize)),
        ],
        Clause::C4Category => seq![Step::One(Expr::Col((base + COL_CATEGORY_OK) as usize))],
        _ => seq![],
    }
}

/// The gaps a clause range-checks, at column offset `base`.
pub open spec fn clause_gaps(c: Clause, base: int) -> Seq<Expr> {
    match c {
        Clause::C1Cap => seq![
            Expr::Sub(
                Box::new(Expr::Col((base + COL_C) as usize)),
                Box::new(Expr::Col((base + COL_AMOUNT) as usize)),
            ),
        ],
        Clause::C5Temporal => seq![
            Expr::Sub(
                Box::new(Expr::Col((base + COL_T) as usize)),
                Box::new(Expr::Col((base + COL_TSTART) as usize)),
            ),
            Expr::Sub(
                Box::new(Expr::Col((base + COL_TEXP) as usize)),
                Box::new(Expr::Col((base + COL_T) as usize)),
            ),
        ],
        _ => seq![],
    }
}

pub open spec fn direct_steps(s: Seq<Clause>, base: int) -> Seq<Step>
    decreases s.len(),
{
    if s.len() == 0 {
        seq![]
    } else {
        direct_steps(s.drop_last(), base) + clause_direct(s.last(), base)
    }
}

pub open spec fn all_gaps(s: Seq<Clause>, base: int) -> Seq<Expr>
    decreases s.len(),
{
    if s.len() == 0 {
        seq![]
    } else {
        all_gaps(s.drop_last(), base) + clause_gaps(s.last(), base)
    }
}

/// The policy circuit's constraints at column offset `base`: each clause's
/// direct assertions in clause order, then the range checks of every gap,
/// whose bit blocks follow the value columns in clause order.
pub open spec fn policy_steps(s: Seq<Clause>, base: int) -> Seq<Step> {
    direct_steps(s, base) + range_blocks_spec(all_gaps(s, base), base + VALUE_COLS)
}

pub proof fn lemma_all_gaps_len(s: Seq<Clause>, base: int)
    requires
        forall|i: int| 0 <= i < s.len() ==> is_circuit_clause(#[trigger] s[i]),
    ensures
        all_gaps(s, base).len() == sum_range_checks(s),
    decreases s.len(),
{
    if s.len() > 0 {
        lemma_all_gaps_len(s.drop_last(), base);
    }
}

impl PolicyAir {
    pub fn new(clauses: &[Clause]) -> (a: Self)
        ensures
            a.clauses@ == clauses@,
    {
        PolicyAir { clauses: vstd::slice::slice_to_vec(clauses) }
    }

    pub open spec fn total_spec(&self) -> int {
        sum_range_checks(self.clauses@)
    }

    pub fn total_range_checks(&self) -> (n: usize)
        requires
            self.clauses@.len() <= usize::MAX / 2,
        ensures
            n == self.total_spec(),
    {
        let mut n: usize = 0;
        let mut i: usize = 0;
        while i < self.clauses.len()
            invariant
                i <= self.clauses@.len(),
                self.clauses@.len() <= usize::MAX / 2,
                n == sum_range_checks(self.clauses@.take(i as int)),
            decreases self.clauses@.len() - i,
        {
            proof {
                let t = self.clauses@.take(i + 1);
                assert(t.drop_last() =~= self.clauses@.take(i as int));
                lemma_sum_range_checks_bound(self.clauses@.take(i as int));
            }
            n = n + self.clauses[i].range_checks();
            i += 1;
        }
        assert(self.clauses@.take(i as int) =~= self.clauses@);
        n
    }

    pub open spec fn width_spec(&self) -> int {
        VALUE_COLS + self.total_spec() * RANGE_BITS
    }

    /// Value columns, then one bit block per range check.
    pub fn width(&self) -> (w: usize)
        requires
            self.clauses@.len() <= usize::MAX / 2,
            self.width_spec() <= usize::MAX,
        ensures
            w == self.width_spec(),
    {
        proof {
            lemma_sum_range_checks_bound(self.clauses@);
        }
        VALUE_COLS + self.total_range_checks() * RANGE_BITS
    }

    /// The clause constraints, placed at an offset so the composed circuit
    /// can hold them without a second copy.
    pub fn constrain(&self, base: usize) -> (steps: Vec<Step>)
        requires
            forall|i: int| 0 <= i < self.clauses@.len() ==> is_circuit_clause(#[trigger] self.clauses@[i]),
            base + VALUE_COLS + 2 * self.clauses@.len() * RANGE_BITS <= usize::MAX,
        ensures
            steps@ == policy_steps(self.clauses@, base as int),
    {
        let mut steps: Vec<Step> = Vec::new();
        let mut gaps: Vec<Expr> = Vec::new();
        let mut i: usize = 0;
        while i < self.clauses.len()
            invariant
                i <= self.clauses@.len(),
                base + VALUE_COLS + 2 * self.clauses@.len() * RANGE_BITS <= usize::MAX,
                steps@ == direct_steps(self.clauses@.take(i as int), base as int),
                gaps@ == all_gaps(self.clauses@.take(i as int), base as int),
            decreases self.clauses@.len() - i,
        {
            let ghost s0 = steps@;
            let ghost g0 = gaps@;
            match self.clauses[i] {
                Clause::C1Cap => {
                    gaps.push(minus(col(base + COL_C), col(base + COL_AMOUNT)));
                },
                Clause::C5Temporal => {
                    gaps.push(minus(col(base + COL_T), col(base + COL_TSTART)));
                    gaps.push(minus(col(base + COL_TEXP), col(base + COL_T)));
                },
                Clause::C3Merchant => {
                    steps.push(Step::Eq(col(base + COL_MID), col(base + COL_PAYEE)));
                    steps.push(Step::One(col(base + COL_MERCHANT_OK)));
                },
                Clause::C4Category => {
                    steps.push(Step::One(col(base + COL_CATEGORY_OK)));
                },
                _ => {},
            }
            proof {
                let t = self.clauses@.take(i + 1);
                assert(t.drop_last() =~= self.clauses@.take(i as int));
                assert(t.last() == self.clauses@[i as int]);
                assert(steps@ =~= s0 + clause_direct(self.clauses@[i as int], base as int));
                assert(gaps@ =~= g0 + clause_gaps(self.clauses@[i as int], base as int));
            }
            i += 1;
        }
        assert(self.clauses@.take(i as int) =~= self.clauses@);
        proof {
            lemma_all_gaps_len(self.clauses@, base as int);
            lemma_sum_range_checks_bound(self.clauses@);
            assert(gaps@.len() * RANGE_BITS <= 2 * self.clauses@.len() * RANGE_BITS) by (nonlinear_arith)
                requires gaps@.len() <= 2 * self.clauses@.len();
        }
        push_range_blocks(&mut steps, gaps, base + VALUE_COLS);
        steps
    }
}

} // verus!
