//! The compliance circuit and the accountability circuit as one statement.
//!
//! Proved separately, nothing says the two halves are about the same payment.
//! Two bindings close that here: the run C8 is checked against is the run the
//! spend component consumes, and the units a payment accounts for are the
//! units its amount buys at the unit size the committed budget determines.
use crate::air::{
    lemma_range_block_bounds_gap, lemma_small_gap, push_range_blocks, range_block_spec, range_blocks_spec, weighted,
    COL_AMOUNT, COL_B, COL_C, COL_G, DIGEST, RANGE_BITS,
};
use crate::field::{all_canonical, lemma_canonical_eq, lemma_canonical_reduces, P};
use vstd::arithmetic::power2::pow2;
use crate::expr::{all_hold, col, eval, lemma_all_hold_split, minus, plus, step_holds, times, Expr, Step};
use crate::spend::{spend_steps, spend_width_spec, SpendAir, COL_M, COL_SELF, COL_UNITS, FIXED_COLS};
use crate::whole::{whole_offsets, whole_steps, whole_width_spec, WholeAir, PUBLIC_VALUES};
use vstd::prelude::*;

verus! {

pub struct ComposedAir<
    const R: usize,
    const MD: usize,
    const RD: usize,
    const DEPTH: usize,
    const COVER: usize,
> {
    pub whole: WholeAir<R, MD, RD>,
    pub spend: SpendAir<R, DEPTH, COVER>,
}

/// units * u - amount; amount - (units - 1) * u - 1; and the cap fitting
/// inside the budget.
pub const RANGE_BLOCKS: usize = 3;

/// The unit size, witnessed and tied to the committed budget.
pub const EXTRA_COLS: usize = 1;

/// The column holding the unit size: after the whole and spend components.
pub open spec fn unit_col_spec(r: int, md: int, rd: int, cover: int) -> int {
    whole_width_spec(r, md, rd) + spend_width_spec(r, cover)
}

pub open spec fn composed_width_spec(r: int, md: int, rd: int, cover: int) -> int {
    unit_col_spec(r, md, rd, cover) + EXTRA_COLS + RANGE_BLOCKS * RANGE_BITS
}

/// Composition shares no columns: the composed circuit is the two halves
/// side by side plus the unit size and the three gap decompositions that bind
/// them, 121 columns in all.
pub proof fn lemma_composed_width_law(r: int, md: int, rd: int, cover: int)
    ensures
        composed_width_spec(r, md, rd, cover) == whole_width_spec(r, md, rd) + spend_width_spec(r, cover) + 121,
{
}

/// The three gaps the composed circuit range-checks.
pub open spec fn composed_gaps(w: int, u_col: int) -> Seq<Expr> {
    let u = Expr::Col(u_col as usize);
    let amount = Expr::Col(COL_AMOUNT);
    let units = Expr::Col((w + COL_UNITS) as usize);
    let budget = Expr::Col(COL_B);
    seq![
        Expr::Sub(Box::new(Expr::Mul(Box::new(units), Box::new(u))), Box::new(amount)),
        Expr::Sub(
            Box::new(
                Expr::Sub(
                    Box::new(amount),
                    Box::new(
                        Expr::Mul(
                            Box::new(Expr::Sub(Box::new(units), Box::new(Expr::Const(1)))),
                            Box::new(u),
                        ),
                    ),
                ),
            ),
            Box::new(Expr::Const(1)),
        ),
        Expr::Sub(Box::new(budget), Box::new(Expr::Col(COL_C))),
    ]
}

/// The equations that link the halves: the unit size times the spendable
/// count is the budget, the unit size times what the delegation kept is the
/// self-region, and the run C8 is checked against is the run the spend
/// component consumes.
pub open spec fn composed_links(r: int, md: int, rd: int, cover: int) -> Seq<Step> {
    let w = whole_width_spec(r, md, rd);
    let u = Expr::Col(unit_col_spec(r, md, rd, cover) as usize);
    let lo = whole_offsets(r, md, rd).5 + DIGEST + 1;
    let pos = w + FIXED_COLS;
    seq![
        Step::Eq(Expr::Mul(Box::new(u), Box::new(Expr::Col((w + COL_M) as usize))), Expr::Col(COL_B)),
        Step::Eq(
            Expr::Mul(Box::new(u), Box::new(Expr::Col((w + COL_SELF) as usize))),
            Expr::Col(COL_G),
        ),
        Step::Eq(Expr::Col(lo as usize), Expr::Col(pos as usize)),
        Step::Eq(
            Expr::Add(Box::new(Expr::Col((lo + 1) as usize)), Box::new(Expr::Const(1))),
            Expr::Col((pos + cover) as usize),
        ),
    ]
}

/// The constraints that tie the two halves together: the links, then the
/// three gaps' range checks.
pub open spec fn composed_ties(r: int, md: int, rd: int, cover: int) -> Seq<Step> {
    let w = whole_width_spec(r, md, rd);
    let u_col = unit_col_spec(r, md, rd, cover);
    composed_links(r, md, rd, cover) + range_blocks_spec(composed_gaps(w, u_col), u_col + EXTRA_COLS)
}

/// The composed circuit's constraints: the whole circuit at column zero, the
/// spend component after it, and the ties between them.
pub open spec fn composed_steps(r: int, md: int, rd: int, depth: int, cover: int) -> Seq<Step> {
    whole_steps(r, md, rd, 0, true) + spend_steps(r, depth as nat, cover, whole_width_spec(r, md, rd), false)
        + composed_ties(r, md, rd, cover)
}

impl<
    const R: usize,
    const MD: usize,
    const RD: usize,
    const DEPTH: usize,
    const COVER: usize,
> ComposedAir<R, MD, RD, DEPTH, COVER> {
    pub open spec fn wf(&self) -> bool {
        self.whole.wf()
    }

    /// The dimensions the circuit supports: a register count the generator
    /// accepts, and a width that fits the machine.
    pub open spec fn fits() -> bool {
        &&& R <= 1
        &&& composed_width_spec(R as int, MD as int, RD as int, COVER as int) + COVER + 1
            <= usize::MAX
    }

    pub fn new() -> (a: Self)
        ensures
            a.wf(),
    {
        ComposedAir { whole: WholeAir::<R, MD, RD>::new(), spend: SpendAir::<R, DEPTH, COVER>::new() }
    }

    pub fn whole_width(&self) -> (n: usize)
        requires
            self.wf(),
            Self::fits(),
        ensures
            n == whole_width_spec(R as int, MD as int, RD as int),
    {
        proof {
            self.lemma_widths();
        }
        self.whole.width()
    }

    pub fn spend_width(&self) -> (n: usize)
        requires
            self.wf(),
            Self::fits(),
        ensures
            n == spend_width_spec(R as int, COVER as int),
    {
        proof {
            self.lemma_widths();
        }
        self.spend.width()
    }

    /// The witnessed unit size, then the comparison blocks.
    pub fn unit_col(&self) -> (n: usize)
        requires
            self.wf(),
            Self::fits(),
        ensures
            n == unit_col_spec(R as int, MD as int, RD as int, COVER as int),
    {
        self.whole_width() + self.spend_width()
    }

    pub fn width(&self) -> (n: usize)
        requires
            self.wf(),
            Self::fits(),
        ensures
            n == composed_width_spec(R as int, MD as int, RD as int, COVER as int),
    {
        self.unit_col() + EXTRA_COLS + RANGE_BLOCKS * RANGE_BITS
    }

    /// The same public values a verifier of the compliance circuit supplies.
    pub fn num_public_values(&self) -> (n: usize)
        ensures
            n == PUBLIC_VALUES,
    {
        PUBLIC_VALUES
    }

    proof fn lemma_widths(&self)
        requires
            Self::fits(),
        ensures
            whole_width_spec(R as int, MD as int, RD as int) >= 0,
            spend_width_spec(R as int, COVER as int) >= 0,
    {
        crate::whole::lemma_whole_offsets(R as int, MD as int, RD as int);
        assert(COVER * crate::hash::block_width_spec(R as int) >= 0) by (nonlinear_arith)
            requires
                R <= 1,
        ;
    }

    pub fn constrain(&self) -> (steps: Vec<Step>)
        requires
            self.wf(),
            Self::fits(),
        ensures
            steps@ == composed_steps(R as int, MD as int, RD as int, DEPTH as int, COVER as int),
    {
        proof {
            self.lemma_widths();
        }
        let w = self.whole_width();
        let mut steps = self.whole.constrain(0);
        let mut s = self.spend.constrain(w);
        let mut t = self.ties();
        steps.append(&mut s);
        steps.append(&mut t);
        steps
    }

    fn ties(&self) -> (steps: Vec<Step>)
        requires
            self.wf(),
            Self::fits(),
        ensures
            steps@ == composed_ties(R as int, MD as int, RD as int, COVER as int),
    {
        proof {
            self.lemma_widths();
        }
        let w = self.whole_width();
        let u_col = self.unit_col();
        let rb = u_col + EXTRA_COLS;
        let mut steps: Vec<Step> = Vec::new();
        steps.push(Step::Eq(times(col(u_col), col(w + COL_M)), col(COL_B)));
        steps.push(Step::Eq(times(col(u_col), col(w + COL_SELF)), col(COL_G)));
        let lo = self.whole.glue_run_offset();
        let pos = w + self.spend.pos_base();
        steps.push(Step::Eq(col(lo), col(pos)));
        steps.push(Step::Eq(plus(col(lo + 1), Expr::Const(1)), col(pos + COVER)));
        let mut gaps: Vec<Expr> = Vec::new();
        gaps.push(minus(times(col(w + COL_UNITS), col(u_col)), col(COL_AMOUNT)));
        gaps.push(
            minus(
                minus(col(COL_AMOUNT), times(minus(col(w + COL_UNITS), Expr::Const(1)), col(u_col))),
                Expr::Const(1),
            ),
        );
        gaps.push(minus(col(COL_B), col(COL_C)));
        assert(gaps@ =~= composed_gaps(w as int, u_col as int));
        push_range_blocks(&mut steps, gaps, rb);
        steps
    }
}


/// The composed constraints hold only where the links hold and each of the
/// three comparison blocks holds.
proof fn lemma_ties_split(
    r: int,
    md: int,
    rd: int,
    depth: int,
    cover: int,
    row: Seq<u64>,
    pv: Seq<u64>,
)
    requires
        all_hold(composed_steps(r, md, rd, depth, cover), r, row, pv),
    ensures
        all_hold(composed_links(r, md, rd, cover), r, row, pv),
        ({
            let first = unit_col_spec(r, md, rd, cover) + EXTRA_COLS;
            let g = composed_gaps(whole_width_spec(r, md, rd), unit_col_spec(r, md, rd, cover));
            &&& all_hold(range_block_spec(g[0], first), r, row, pv)
            &&& all_hold(range_block_spec(g[1], first + RANGE_BITS), r, row, pv)
            &&& all_hold(range_block_spec(g[2], first + 2 * RANGE_BITS), r, row, pv)
        }),
{
    let w = whole_width_spec(r, md, rd);
    let u_col = unit_col_spec(r, md, rd, cover);
    let first = u_col + EXTRA_COLS;
    let whole = whole_steps(r, md, rd, 0, true);
    let spend = spend_steps(r, depth as nat, cover, w, false);
    let links = composed_links(r, md, rd, cover);
    let g = composed_gaps(w, u_col);
    let rbs = range_blocks_spec(g, first);
    lemma_all_hold_split(whole + spend, links + rbs, r, row, pv);
    lemma_all_hold_split(links, rbs, r, row, pv);
    let b0 = range_block_spec(g[0], first);
    let b1 = range_block_spec(g[1], first + RANGE_BITS);
    let b2 = range_block_spec(g[2], first + 2 * RANGE_BITS);
    reveal_with_fuel(range_blocks_spec, 4);
    assert(g.drop_last().drop_last().drop_last() =~= Seq::<Expr>::empty());
    assert(g.drop_last().drop_last() =~= seq![g[0]]);
    assert(g.drop_last() =~= seq![g[0], g[1]]);
    assert(rbs =~= b0 + b1 + b2);
    lemma_all_hold_split(b0 + b1, b2, r, row, pv);
    lemma_all_hold_split(b0, b1, r, row, pv);
}

/// What the links say of a row, read in the integers.
proof fn lemma_links_values(r: int, md: int, rd: int, cover: int, row: Seq<u64>, pv: Seq<u64>)
    requires
        0 <= r <= 1,
        0 <= md,
        0 <= rd,
        0 <= cover,
        composed_width_spec(r, md, rd, cover) <= row.len(),
        row.len() <= usize::MAX,
        all_canonical(row),
        all_hold(composed_links(r, md, rd, cover), r, row, pv),
    ensures
        ({
            let w = whole_width_spec(r, md, rd);
            let u = row[unit_col_spec(r, md, rd, cover)] as int;
            let lo = whole_offsets(r, md, rd).5 + DIGEST + 1;
            &&& row[COL_B as int] == (u * row[w + COL_M]) % (P as int)
            &&& row[COL_G as int] == (u * row[w + COL_SELF]) % (P as int)
            &&& row[lo] == row[w + FIXED_COLS]
            &&& row[w + FIXED_COLS + cover] == (row[lo + 1] + 1) % (P as int)
        }),
{
    let w = whole_width_spec(r, md, rd);
    let u_col = unit_col_spec(r, md, rd, cover);
    crate::whole::lemma_whole_offsets(r, md, rd);
    let bw = crate::hash::block_width_spec(r);
    assert(cover * bw >= 0) by (nonlinear_arith)
        requires
            cover >= 0,
            bw >= 0,
    ;
    let links = composed_links(r, md, rd, cover);
    let lo = whole_offsets(r, md, rd).5 + DIGEST + 1;
    let pos = w + FIXED_COLS;
    reveal_with_fuel(eval, 3);
    assert(step_holds(links[0], r, row, pv));
    assert(step_holds(links[1], r, row, pv));
    assert(step_holds(links[2], r, row, pv));
    assert(step_holds(links[3], r, row, pv));
    let u = row[u_col] as int;
    lemma_canonical_reduces(row[COL_B as int] as int, u * row[w + COL_M]);
    lemma_canonical_reduces(row[COL_G as int] as int, u * row[w + COL_SELF]);
    lemma_canonical_eq(row[lo] as int, row[pos] as int);
    lemma_canonical_reduces(row[pos + cover] as int, row[lo + 1] + 1);
}

/// What the three comparison blocks say of a row whose block cells hold bits.
proof fn lemma_gaps_values(r: int, md: int, rd: int, cover: int, row: Seq<u64>, pv: Seq<u64>)
    requires
        0 <= r <= 1,
        0 <= md,
        0 <= rd,
        0 <= cover,
        composed_width_spec(r, md, rd, cover) <= row.len(),
        row.len() <= usize::MAX,
        all_canonical(row),
        ({
            let first = unit_col_spec(r, md, rd, cover) + EXTRA_COLS;
            let g = composed_gaps(whole_width_spec(r, md, rd), unit_col_spec(r, md, rd, cover));
            &&& all_hold(range_block_spec(g[0], first), r, row, pv)
            &&& all_hold(range_block_spec(g[1], first + RANGE_BITS), r, row, pv)
            &&& all_hold(range_block_spec(g[2], first + 2 * RANGE_BITS), r, row, pv)
        }),
        forall|k: int|
            unit_col_spec(r, md, rd, cover) + EXTRA_COLS <= k < composed_width_spec(r, md, rd, cover)
                ==> #[trigger] row[k] <= 1,
    ensures
        ({
            let w = whole_width_spec(r, md, rd);
            let u = row[unit_col_spec(r, md, rd, cover)] as int;
            let units = row[w + COL_UNITS] as int;
            let amount = row[COL_AMOUNT as int] as int;
            let small = (P as int) - pow2((RANGE_BITS + 1) as nat);
            &&& row[COL_C as int] < small ==> row[COL_C as int] <= row[COL_B as int]
            &&& 0 < units && units * u < small && amount < small ==> (units - 1) * u < amount <= units * u
        }),
{
    let w = whole_width_spec(r, md, rd);
    let u_col = unit_col_spec(r, md, rd, cover);
    let first = u_col + EXTRA_COLS;
    crate::whole::lemma_whole_offsets(r, md, rd);
    let bw = crate::hash::block_width_spec(r);
    assert(cover * bw >= 0) by (nonlinear_arith)
        requires
            cover >= 0,
            bw >= 0,
    ;
    let g = composed_gaps(w, u_col);
    assert forall|k: int| 0 <= k < RANGE_BITS implies #[trigger] row[first + k] <= 1 by {}
    assert forall|k: int| 0 <= k < RANGE_BITS implies #[trigger] row[first + RANGE_BITS + k] <= 1 by {}
    assert forall|k: int| 0 <= k < RANGE_BITS implies #[trigger] row[first + 2 * RANGE_BITS + k] <= 1 by {}
    lemma_range_block_bounds_gap(g[0], first, row, pv, r);
    lemma_range_block_bounds_gap(g[1], first + RANGE_BITS, row, pv, r);
    lemma_range_block_bounds_gap(g[2], first + 2 * RANGE_BITS, row, pv, r);
    vstd::arithmetic::power2::lemma2_to64();
    vstd::arithmetic::power2::lemma2_to64_rest();
    let u = row[u_col] as int;
    let units = row[w + COL_UNITS] as int;
    let amount = row[COL_AMOUNT as int] as int;
    let small = (P as int) - pow2((RANGE_BITS + 1) as nat);
    reveal_with_fuel(eval, 5);
    assert(eval(g[0], row, pv) == units * u - amount);
    assert(eval(g[1], row, pv) == amount - (units - 1) * u - 1);
    assert(eval(g[2], row, pv) == row[COL_B as int] - row[COL_C as int]);
    if row[COL_C as int] < small {
        assert(row[COL_B as int] < P);
        lemma_small_gap(row[COL_B as int] - row[COL_C as int], weighted(row, first + 2 * RANGE_BITS, 0, RANGE_BITS as int));
    }
    if 0 < units && units * u < small && amount < small {
        assert((units - 1) * u == units * u - u && 0 <= (units - 1) * u) by (nonlinear_arith)
            requires
                0 < units,
                0 <= u,
        ;
        lemma_small_gap(units * u - amount, weighted(row, first, 0, RANGE_BITS as int));
        lemma_small_gap(amount - (units - 1) * u - 1, weighted(row, first + RANGE_BITS, 0, RANGE_BITS as int));
    }
}

/// What the composed circuit guarantees of every row it accepts, beyond what
/// each half guarantees, with the comparison blocks' cells taken to be bits
/// (each is a root of x(x - 1), which is a bit because p is prime; that
/// primality is not proved here): in the field, the unit size times the
/// spendable count is the budget and times the kept units is the
/// self-region; the run the spend component consumes starts where C8's run
/// starts and ends where it ends; and, for values below p - 2^(RANGE_BITS + 1),
/// the cap does not exceed the budget and the units charged are exactly the
/// units the amount buys, (units - 1) * u < amount <= units * u.
pub proof fn lemma_composed_ties_hold(
    r: int,
    md: int,
    rd: int,
    depth: int,
    cover: int,
    row: Seq<u64>,
    pv: Seq<u64>,
)
    requires
        0 <= r <= 1,
        0 <= md,
        0 <= rd,
        0 <= cover,
        composed_width_spec(r, md, rd, cover) <= row.len(),
        row.len() <= usize::MAX,
        all_canonical(row),
        all_hold(composed_steps(r, md, rd, depth, cover), r, row, pv),
        forall|k: int|
            unit_col_spec(r, md, rd, cover) + EXTRA_COLS <= k < composed_width_spec(r, md, rd, cover)
                ==> #[trigger] row[k] <= 1,
    ensures
        ({
            let w = whole_width_spec(r, md, rd);
            let u = row[unit_col_spec(r, md, rd, cover)] as int;
            let lo = whole_offsets(r, md, rd).5 + DIGEST + 1;
            let units = row[w + COL_UNITS] as int;
            let amount = row[COL_AMOUNT as int] as int;
            let small = (P as int) - pow2((RANGE_BITS + 1) as nat);
            &&& row[COL_B as int] == (u * row[w + COL_M]) % (P as int)
            &&& row[COL_G as int] == (u * row[w + COL_SELF]) % (P as int)
            &&& row[lo] == row[w + FIXED_COLS]
            &&& row[w + FIXED_COLS + cover] == (row[lo + 1] + 1) % (P as int)
            &&& row[COL_C as int] < small ==> row[COL_C as int] <= row[COL_B as int]
            &&& 0 < units && units * u < small && amount < small ==> (units - 1) * u < amount <= units * u
        }),
{
    lemma_ties_split(r, md, rd, depth, cover, row, pv);
    lemma_links_values(r, md, rd, cover, row, pv);
    lemma_gaps_values(r, md, rd, cover, row, pv);
}

} // verus!
