//! Constraints over one trace row, held as data. A circuit is a sequence of
//! steps: either a Poseidon2 permutation block placed at a column, or one
//! polynomial assertion over the row's columns and the public values. The
//! proving harness turns each step into the matching `AirBuilder` call, so the
//! steps are the constraint system and nothing else decides it.
use crate::field::P;
use crate::gen::poseidon2_trace_row;
use crate::hash::{block_width_spec, WIDTH};
use vstd::prelude::*;

verus! {

/// A polynomial over the columns of the current row and the public values.
pub enum Expr {
    Col(usize),
    Pub(usize),
    Const(u64),
    Add(Box<Expr>, Box<Expr>),
    Sub(Box<Expr>, Box<Expr>),
    Mul(Box<Expr>, Box<Expr>),
    /// The expression added to itself, held once.
    Double(Box<Expr>),
}

/// One step of a constraint system.
pub enum Step {
    /// A Poseidon2 permutation occupies the block of columns starting here.
    Hash(usize),
    /// The expression is zero.
    Zero(Expr),
    /// The two expressions are equal.
    Eq(Expr, Expr),
    /// The expression is zero or one.
    Bool(Expr),
    /// The expression is one.
    One(Expr),
}

/// The integer an expression evaluates to, before reduction modulo p.
pub open spec fn eval(e: Expr, row: Seq<u64>, pv: Seq<u64>) -> int
    decreases e,
{
    match e {
        Expr::Col(i) => row[i as int] as int,
        Expr::Pub(i) => pv[i as int] as int,
        Expr::Const(c) => c as int,
        Expr::Add(a, b) => eval(*a, row, pv) + eval(*b, row, pv),
        Expr::Sub(a, b) => eval(*a, row, pv) - eval(*b, row, pv),
        Expr::Mul(a, b) => eval(*a, row, pv) * eval(*b, row, pv),
        Expr::Double(a) => eval(*a, row, pv) + eval(*a, row, pv),
    }
}

/// Every column an expression reads lies below `w`, and every public value
/// below `n`.
pub open spec fn expr_within(e: Expr, w: int, n: int) -> bool
    decreases e,
{
    match e {
        Expr::Col(i) => i < w,
        Expr::Pub(i) => i < n,
        Expr::Const(_) => true,
        Expr::Add(a, b) => expr_within(*a, w, n) && expr_within(*b, w, n),
        Expr::Sub(a, b) => expr_within(*a, w, n) && expr_within(*b, w, n),
        Expr::Mul(a, b) => expr_within(*a, w, n) && expr_within(*b, w, n),
        Expr::Double(a) => expr_within(*a, w, n),
    }
}

/// Zero in the field.
pub open spec fn is_zero_mod(x: int) -> bool {
    x % (P as int) == 0
}

/// The columns a permutation block at `start` holds are the trace row the
/// permutation generator produces for the block's own input lanes.
///
/// This is the meaning a `Step::Hash` carries here, and it is taken as
/// given: the Poseidon2 AIR that app/ places over such a block fixes every
/// one of its columns from the input lanes, so its constraints hold of the
/// block exactly when the block is that row; nothing in this crate proves
/// that of the outside AIR.
pub open spec fn hash_block_holds(r: int, start: int, row: Seq<u64>) -> bool {
    &&& 0 <= start
    &&& start + block_width_spec(r) <= row.len()
    &&& row.subrange(start, start + block_width_spec(r)) == poseidon2_trace_row(
        r,
        row.subrange(start, start + WIDTH as int),
    )
}

/// One step holds of a row, for a permutation with `r` S-box registers.
pub open spec fn step_holds(s: Step, r: int, row: Seq<u64>, pv: Seq<u64>) -> bool {
    match s {
        Step::Hash(start) => hash_block_holds(r, start as int, row),
        Step::Zero(e) => is_zero_mod(eval(e, row, pv)),
        Step::Eq(a, b) => is_zero_mod(eval(a, row, pv) - eval(b, row, pv)),
        Step::Bool(e) => is_zero_mod(eval(e, row, pv) * (eval(e, row, pv) - 1)),
        Step::One(e) => is_zero_mod(eval(e, row, pv) - 1),
    }
}

/// Every step of a constraint system holds of a row.
pub open spec fn all_hold(steps: Seq<Step>, r: int, row: Seq<u64>, pv: Seq<u64>) -> bool {
    forall|i: int| 0 <= i < steps.len() ==> #[trigger] step_holds(steps[i], r, row, pv)
}

/// Some step of a constraint system fails on a row.
pub open spec fn some_fails(steps: Seq<Step>, r: int, row: Seq<u64>, pv: Seq<u64>) -> bool {
    exists|i: int| 0 <= i < steps.len() && !#[trigger] step_holds(steps[i], r, row, pv)
}

/// Every column a step reads lies below `w`.
pub open spec fn step_within(s: Step, r: int, w: int) -> bool {
    match s {
        Step::Hash(start) => start + block_width_spec(r) <= w,
        Step::Zero(e) => expr_cols_below(e, w),
        Step::Eq(a, b) => expr_cols_below(a, w) && expr_cols_below(b, w),
        Step::Bool(e) => expr_cols_below(e, w),
        Step::One(e) => expr_cols_below(e, w),
    }
}

/// Every column an expression reads lies below `w`.
pub open spec fn expr_cols_below(e: Expr, w: int) -> bool
    decreases e,
{
    match e {
        Expr::Col(i) => i < w,
        Expr::Pub(_) => true,
        Expr::Const(_) => true,
        Expr::Add(a, b) => expr_cols_below(*a, w) && expr_cols_below(*b, w),
        Expr::Sub(a, b) => expr_cols_below(*a, w) && expr_cols_below(*b, w),
        Expr::Mul(a, b) => expr_cols_below(*a, w) && expr_cols_below(*b, w),
        Expr::Double(a) => expr_cols_below(*a, w),
    }
}

pub open spec fn steps_within(steps: Seq<Step>, r: int, w: int) -> bool {
    forall|i: int| 0 <= i < steps.len() ==> #[trigger] step_within(steps[i], r, w)
}

/// Two rows that agree below `w` give an expression reading below `w` the
/// same value.
pub proof fn lemma_eval_frame(e: Expr, a: Seq<u64>, b: Seq<u64>, pv: Seq<u64>, w: int)
    requires
        expr_cols_below(e, w),
        0 <= w,
        w <= a.len(),
        w <= b.len(),
        a.subrange(0, w) == b.subrange(0, w),
    ensures
        eval(e, a, pv) == eval(e, b, pv),
    decreases e,
{
    match e {
        Expr::Col(i) => {
            let k = i as int;
            assert(a.subrange(0, w)[k] == a[k]);
            assert(b.subrange(0, w)[k] == b[k]);
        },
        Expr::Add(x, y) => {
            lemma_eval_frame(*x, a, b, pv, w);
            lemma_eval_frame(*y, a, b, pv, w);
        },
        Expr::Sub(x, y) => {
            lemma_eval_frame(*x, a, b, pv, w);
            lemma_eval_frame(*y, a, b, pv, w);
        },
        Expr::Mul(x, y) => {
            lemma_eval_frame(*x, a, b, pv, w);
            lemma_eval_frame(*y, a, b, pv, w);
        },
        Expr::Double(x) => {
            lemma_eval_frame(*x, a, b, pv, w);
        },
        _ => {},
    }
}

/// Two rows that agree below `w` satisfy the same steps reading below `w`.
pub proof fn lemma_step_frame(s: Step, r: int, a: Seq<u64>, b: Seq<u64>, pv: Seq<u64>, w: int)
    requires
        r >= 0,
        step_within(s, r, w),
        0 <= w,
        w <= a.len(),
        w <= b.len(),
        a.subrange(0, w) == b.subrange(0, w),
    ensures
        step_holds(s, r, a, pv) == step_holds(s, r, b, pv),
{
    match s {
        Step::Hash(start) => {
            let s0 = start as int;
            let e = s0 + block_width_spec(r);
            assert forall|x: int| 0 <= x < w implies #[trigger] a[x] == b[x] by {
                assert(a.subrange(0, w)[x] == a[x]);
                assert(b.subrange(0, w)[x] == b[x]);
            }
            assert(a.subrange(s0, e) =~= b.subrange(s0, e));
            assert(a.subrange(s0, s0 + WIDTH as int) =~= b.subrange(s0, s0 + WIDTH as int));
        },
        Step::Zero(x) => {
            lemma_eval_frame(x, a, b, pv, w);
        },
        Step::Eq(x, y) => {
            lemma_eval_frame(x, a, b, pv, w);
            lemma_eval_frame(y, a, b, pv, w);
        },
        Step::Bool(x) => {
            lemma_eval_frame(x, a, b, pv, w);
        },
        Step::One(x) => {
            lemma_eval_frame(x, a, b, pv, w);
        },
    }
}

/// A row's constraints reading below `w` hold or fail as they do for any
/// row agreeing with it there.
pub proof fn lemma_steps_frame(steps: Seq<Step>, r: int, a: Seq<u64>, b: Seq<u64>, pv: Seq<u64>, w: int)
    requires
        r >= 0,
        steps_within(steps, r, w),
        0 <= w,
        w <= a.len(),
        w <= b.len(),
        a.subrange(0, w) == b.subrange(0, w),
    ensures
        all_hold(steps, r, a, pv) == all_hold(steps, r, b, pv),
        some_fails(steps, r, a, pv) == some_fails(steps, r, b, pv),
{
    assert forall|i: int| 0 <= i < steps.len() implies #[trigger] step_holds(steps[i], r, a, pv)
        == step_holds(steps[i], r, b, pv) by {
        lemma_step_frame(steps[i], r, a, b, pv, w);
    }
    if all_hold(steps, r, a, pv) {
        assert forall|i: int| 0 <= i < steps.len() implies #[trigger] step_holds(steps[i], r, b, pv) by {
            assert(step_holds(steps[i], r, a, pv));
        }
    }
    if all_hold(steps, r, b, pv) {
        assert forall|i: int| 0 <= i < steps.len() implies #[trigger] step_holds(steps[i], r, a, pv) by {
            assert(step_holds(steps[i], r, b, pv));
        }
    }
    if some_fails(steps, r, a, pv) {
        let i = choose|i: int| 0 <= i < steps.len() && !#[trigger] step_holds(steps[i], r, a, pv);
        assert(!step_holds(steps[i], r, b, pv));
    }
    if some_fails(steps, r, b, pv) {
        let i = choose|i: int| 0 <= i < steps.len() && !#[trigger] step_holds(steps[i], r, b, pv);
        assert(!step_holds(steps[i], r, a, pv));
    }
}

pub proof fn lemma_within_concat(a: Seq<Step>, b: Seq<Step>, r: int, w: int)
    requires
        steps_within(a, r, w),
        steps_within(b, r, w),
    ensures
        steps_within(a + b, r, w),
{
    assert forall|i: int| 0 <= i < (a + b).len() implies #[trigger] step_within((a + b)[i], r, w) by {
        if i < a.len() {
            assert((a + b)[i] == a[i]);
        } else {
            assert((a + b)[i] == b[i - a.len()]);
        }
    }
}

/// A constraint system holds when each of its parts does.
pub proof fn lemma_all_hold_concat(a: Seq<Step>, b: Seq<Step>, r: int, row: Seq<u64>, pv: Seq<u64>)
    requires
        all_hold(a, r, row, pv),
        all_hold(b, r, row, pv),
    ensures
        all_hold(a + b, r, row, pv),
{
    assert forall|i: int| 0 <= i < (a + b).len() implies #[trigger] step_holds(
        (a + b)[i],
        r,
        row,
        pv,
    ) by {
        if i < a.len() {
            assert((a + b)[i] == a[i]);
        } else {
            assert((a + b)[i] == b[i - a.len()]);
        }
    }
}

/// Every step of a concatenation holds only if every step of each part does.
pub proof fn lemma_all_hold_split(a: Seq<Step>, b: Seq<Step>, r: int, row: Seq<u64>, pv: Seq<u64>)
    requires
        all_hold(a + b, r, row, pv),
    ensures
        all_hold(a, r, row, pv),
        all_hold(b, r, row, pv),
{
    assert forall|i: int| 0 <= i < a.len() implies #[trigger] step_holds(a[i], r, row, pv) by {
        assert((a + b)[i] == a[i]);
    }
    assert forall|i: int| 0 <= i < b.len() implies #[trigger] step_holds(b[i], r, row, pv) by {
        assert((a + b)[a.len() + i] == b[i]);
    }
}

/// A constraint system fails when one of its parts does.
pub proof fn lemma_some_fails_concat(a: Seq<Step>, b: Seq<Step>, r: int, row: Seq<u64>, pv: Seq<u64>)
    requires
        some_fails(a, r, row, pv) || some_fails(b, r, row, pv),
    ensures
        some_fails(a + b, r, row, pv),
{
    if some_fails(a, r, row, pv) {
        let i = choose|i: int| 0 <= i < a.len() && !#[trigger] step_holds(a[i], r, row, pv);
        assert((a + b)[i] == a[i]);
    } else {
        let i = choose|i: int| 0 <= i < b.len() && !#[trigger] step_holds(b[i], r, row, pv);
        assert((a + b)[a.len() + i] == b[i]);
    }
}

pub fn col(i: usize) -> (e: Expr)
    ensures
        e == Expr::Col(i),
{
    Expr::Col(i)
}

pub fn plus(a: Expr, b: Expr) -> (e: Expr)
    ensures
        e == Expr::Add(Box::new(a), Box::new(b)),
{
    Expr::Add(Box::new(a), Box::new(b))
}

pub fn minus(a: Expr, b: Expr) -> (e: Expr)
    ensures
        e == Expr::Sub(Box::new(a), Box::new(b)),
{
    Expr::Sub(Box::new(a), Box::new(b))
}

pub fn twice(a: Expr) -> (e: Expr)
    ensures
        e == Expr::Double(Box::new(a)),
{
    Expr::Double(Box::new(a))
}

pub fn times(a: Expr, b: Expr) -> (e: Expr)
    ensures
        e == Expr::Mul(Box::new(a), Box::new(b)),
{
    Expr::Mul(Box::new(a), Box::new(b))
}

impl Expr {
    /// A copy of the expression, equal to it.
    pub fn duplicate(&self) -> (r: Expr)
        ensures
            r == *self,
        decreases self,
    {
        match self {
            Expr::Col(i) => Expr::Col(*i),
            Expr::Pub(i) => Expr::Pub(*i),
            Expr::Const(c) => Expr::Const(*c),
            Expr::Add(a, b) => Expr::Add(Box::new(a.duplicate()), Box::new(b.duplicate())),
            Expr::Sub(a, b) => Expr::Sub(Box::new(a.duplicate()), Box::new(b.duplicate())),
            Expr::Mul(a, b) => Expr::Mul(Box::new(a.duplicate()), Box::new(b.duplicate())),
            Expr::Double(a) => Expr::Double(Box::new(a.duplicate())),
        }
    }
}


/// An expression with every column index moved up by `off`: the same
/// constraint read from a block of columns placed at `off`.
pub open spec fn shift_expr(e: Expr, off: int) -> Expr
    decreases e,
{
    match e {
        Expr::Col(i) => Expr::Col((i + off) as usize),
        Expr::Pub(i) => Expr::Pub(i),
        Expr::Const(c) => Expr::Const(c),
        Expr::Add(a, b) => Expr::Add(Box::new(shift_expr(*a, off)), Box::new(shift_expr(*b, off))),
        Expr::Sub(a, b) => Expr::Sub(Box::new(shift_expr(*a, off)), Box::new(shift_expr(*b, off))),
        Expr::Mul(a, b) => Expr::Mul(Box::new(shift_expr(*a, off)), Box::new(shift_expr(*b, off))),
        Expr::Double(a) => Expr::Double(Box::new(shift_expr(*a, off))),
    }
}

/// A step read from a block of columns placed at `off`.
pub open spec fn shift_step(s: Step, off: int) -> Step {
    match s {
        Step::Hash(start) => Step::Hash((start + off) as usize),
        Step::Zero(e) => Step::Zero(shift_expr(e, off)),
        Step::Eq(a, b) => Step::Eq(shift_expr(a, off), shift_expr(b, off)),
        Step::Bool(e) => Step::Bool(shift_expr(e, off)),
        Step::One(e) => Step::One(shift_expr(e, off)),
    }
}

/// A constraint system read from a block of columns placed at `off`, as a
/// sub-circuit evaluated over a window of a wider row is.
pub open spec fn shift_steps(steps: Seq<Step>, off: int) -> Seq<Step> {
    steps.map_values(|s: Step| shift_step(s, off))
}

/// An expression reading below `w` takes the same value on a block as its
/// shift does on any row holding that block at `off`.
pub proof fn lemma_shift_eval(e: Expr, sub: Seq<u64>, row: Seq<u64>, off: int, pv: Seq<u64>)
    requires
        expr_cols_below(e, sub.len() as int),
        0 <= off,
        off + sub.len() <= row.len(),
        off + sub.len() <= usize::MAX,
        row.subrange(off, off + sub.len()) == sub,
    ensures
        eval(shift_expr(e, off), row, pv) == eval(e, sub, pv),
    decreases e,
{
    match e {
        Expr::Col(i) => {
            assert(row.subrange(off, off + sub.len())[i as int] == row[off + i]);
        },
        Expr::Add(a, b) => {
            lemma_shift_eval(*a, sub, row, off, pv);
            lemma_shift_eval(*b, sub, row, off, pv);
        },
        Expr::Sub(a, b) => {
            lemma_shift_eval(*a, sub, row, off, pv);
            lemma_shift_eval(*b, sub, row, off, pv);
        },
        Expr::Mul(a, b) => {
            lemma_shift_eval(*a, sub, row, off, pv);
            lemma_shift_eval(*b, sub, row, off, pv);
        },
        Expr::Double(a) => {
            lemma_shift_eval(*a, sub, row, off, pv);
        },
        _ => {},
    }
}

/// A constraint system that holds of a block holds, shifted, of any row
/// holding that block at `off`.
pub proof fn lemma_shift_holds(steps: Seq<Step>, r: int, sub: Seq<u64>, row: Seq<u64>, off: int, pv: Seq<u64>)
    requires
        r >= 0,
        steps_within(steps, r, sub.len() as int),
        all_hold(steps, r, sub, pv),
        0 <= off,
        off + sub.len() <= row.len(),
        off + sub.len() <= usize::MAX,
        row.subrange(off, off + sub.len()) == sub,
    ensures
        all_hold(shift_steps(steps, off), r, row, pv),
{
    let sh = shift_steps(steps, off);
    assert forall|k: int| 0 <= k < sh.len() implies #[trigger] step_holds(sh[k], r, row, pv) by {
        let s = steps[k];
        assert(step_holds(s, r, sub, pv));
        assert(step_within(s, r, sub.len() as int));
        assert(sh[k] == shift_step(s, off));
        match s {
            Step::Hash(start) => {
                let st = start as int;
                let bw = block_width_spec(r);
                assert(row.subrange(off + st, off + st + bw) =~= sub.subrange(st, st + bw));
                assert(row.subrange(off + st, off + st + WIDTH as int) =~= sub.subrange(
                    st,
                    st + WIDTH as int,
                ));
            },
            Step::Zero(e) => {
                lemma_shift_eval(e, sub, row, off, pv);
            },
            Step::Eq(a, b) => {
                lemma_shift_eval(a, sub, row, off, pv);
                lemma_shift_eval(b, sub, row, off, pv);
            },
            Step::Bool(e) => {
                lemma_shift_eval(e, sub, row, off, pv);
            },
            Step::One(e) => {
                lemma_shift_eval(e, sub, row, off, pv);
            },
        }
    }
}

/// A shifted constraint system that holds of a row holds, unshifted, of the
/// block the row holds at `off`.
pub proof fn lemma_shift_holds_back(steps: Seq<Step>, r: int, sub: Seq<u64>, row: Seq<u64>, off: int, pv: Seq<u64>)
    requires
        r >= 0,
        steps_within(steps, r, sub.len() as int),
        all_hold(shift_steps(steps, off), r, row, pv),
        0 <= off,
        off + sub.len() <= row.len(),
        off + sub.len() <= usize::MAX,
        row.subrange(off, off + sub.len()) == sub,
    ensures
        all_hold(steps, r, sub, pv),
{
    let sh = shift_steps(steps, off);
    assert forall|k: int| 0 <= k < steps.len() implies #[trigger] step_holds(steps[k], r, sub, pv) by {
        let s = steps[k];
        assert(step_holds(sh[k], r, row, pv));
        assert(step_within(s, r, sub.len() as int));
        assert(sh[k] == shift_step(s, off));
        match s {
            Step::Hash(start) => {
                let st = start as int;
                let bw = block_width_spec(r);
                assert(row.subrange(off + st, off + st + bw) =~= sub.subrange(st, st + bw));
                assert(row.subrange(off + st, off + st + WIDTH as int) =~= sub.subrange(
                    st,
                    st + WIDTH as int,
                ));
            },
            Step::Zero(e) => {
                lemma_shift_eval(e, sub, row, off, pv);
            },
            Step::Eq(a, b) => {
                lemma_shift_eval(a, sub, row, off, pv);
                lemma_shift_eval(b, sub, row, off, pv);
            },
            Step::Bool(e) => {
                lemma_shift_eval(e, sub, row, off, pv);
            },
            Step::One(e) => {
                lemma_shift_eval(e, sub, row, off, pv);
            },
        }
    }
}

/// Reading below `w` implies reading below anything wider.
pub proof fn lemma_expr_below_widen(e: Expr, w: int, w2: int)
    requires
        expr_cols_below(e, w),
        w <= w2,
    ensures
        expr_cols_below(e, w2),
    decreases e,
{
    match e {
        Expr::Add(a, b) => {
            lemma_expr_below_widen(*a, w, w2);
            lemma_expr_below_widen(*b, w, w2);
        },
        Expr::Sub(a, b) => {
            lemma_expr_below_widen(*a, w, w2);
            lemma_expr_below_widen(*b, w, w2);
        },
        Expr::Mul(a, b) => {
            lemma_expr_below_widen(*a, w, w2);
            lemma_expr_below_widen(*b, w, w2);
        },
        Expr::Double(a) => {
            lemma_expr_below_widen(*a, w, w2);
        },
        _ => {},
    }
}

/// Steps reading below `w` read below anything wider.
pub proof fn lemma_within_widen(steps: Seq<Step>, r: int, w: int, w2: int)
    requires
        steps_within(steps, r, w),
        w <= w2,
    ensures
        steps_within(steps, r, w2),
{
    assert forall|k: int| 0 <= k < steps.len() implies #[trigger] step_within(steps[k], r, w2) by {
        assert(step_within(steps[k], r, w));
        match steps[k] {
            Step::Zero(e) => lemma_expr_below_widen(e, w, w2),
            Step::Eq(a, b) => {
                lemma_expr_below_widen(a, w, w2);
                lemma_expr_below_widen(b, w, w2);
            },
            Step::Bool(e) => lemma_expr_below_widen(e, w, w2),
            Step::One(e) => lemma_expr_below_widen(e, w, w2),
            _ => {},
        }
    }
}

/// The expression read from a block of columns placed at `off`.
pub fn shift_expr_exec(e: &Expr, off: usize, w: usize) -> (r: Expr)
    requires
        expr_cols_below(*e, w as int),
        w + off <= usize::MAX,
    ensures
        r == shift_expr(*e, off as int),
    decreases e,
{
    match e {
        Expr::Col(i) => Expr::Col(*i + off),
        Expr::Pub(i) => Expr::Pub(*i),
        Expr::Const(c) => Expr::Const(*c),
        Expr::Add(a, b) => Expr::Add(
            Box::new(shift_expr_exec(a, off, w)),
            Box::new(shift_expr_exec(b, off, w)),
        ),
        Expr::Sub(a, b) => Expr::Sub(
            Box::new(shift_expr_exec(a, off, w)),
            Box::new(shift_expr_exec(b, off, w)),
        ),
        Expr::Mul(a, b) => Expr::Mul(
            Box::new(shift_expr_exec(a, off, w)),
            Box::new(shift_expr_exec(b, off, w)),
        ),
        Expr::Double(a) => Expr::Double(Box::new(shift_expr_exec(a, off, w))),
    }
}

/// A constraint system read from a block of columns placed at `off`.
pub(crate) fn shift(steps: &Vec<Step>, off: usize, r: Ghost<int>, w: usize) -> (v: Vec<Step>)
    requires
        r@ >= 0,
        steps_within(steps@, r@, w as int),
        w + off <= usize::MAX,
    ensures
        v@ == shift_steps(steps@, off as int),
{
    let mut v: Vec<Step> = Vec::new();
    let mut i: usize = 0;
    while i < steps.len()
        invariant
            i <= steps@.len(),
            r@ >= 0,
            steps_within(steps@, r@, w as int),
            w + off <= usize::MAX,
            v@ == shift_steps(steps@, off as int).take(i as int),
        decreases steps@.len() - i,
    {
        assert(step_within(steps@[i as int], r@, w as int));
        let s = match &steps[i] {
            Step::Hash(start) => {
                assert(block_width_spec(r@) > 0);
                Step::Hash(*start + off)
            },
            Step::Zero(e) => Step::Zero(shift_expr_exec(e, off, w)),
            Step::Eq(a, b) => Step::Eq(shift_expr_exec(a, off, w), shift_expr_exec(b, off, w)),
            Step::Bool(e) => Step::Bool(shift_expr_exec(e, off, w)),
            Step::One(e) => Step::One(shift_expr_exec(e, off, w)),
        };
        v.push(s);
        i += 1;
        assert(v@ =~= shift_steps(steps@, off as int).take(i as int));
    }
    assert(shift_steps(steps@, off as int).take(i as int) =~= shift_steps(steps@, off as int));
    v
}
} // verus!
