//! Merkle inclusion of a leaf under a committed root: one permutation per
//! level, with a direction bit selecting which side the sibling sits on.
//!
//! Per level the layout is digest-in, sibling, direction bit, permutation
//! block. The root digest sits after the per-level blocks.
use crate::air::DIGEST;
use crate::expr::{all_hold, col, eval, hash_block_holds, lemma_all_hold_split, minus, plus, step_holds, times, Expr, Step};
use crate::field::{all_canonical, lemma_canonical_eq, P};
use crate::gen::{perm_out, poseidon2_trace_row};
use crate::hash::{block_width, block_width_spec, output_offset, WIDTH};
use vstd::prelude::*;

verus! {

pub struct MerkleAir<const R: usize, const DEPTH: usize> {}

/// Columns of one level at `r` registers.
pub open spec fn level_width_spec(r: int) -> int {
    2 * DIGEST + 1 + block_width_spec(r)
}

/// Columns of a path of `depth` levels, root included.
pub open spec fn merkle_width_spec(r: int, depth: int) -> int {
    depth * level_width_spec(r) + DIGEST
}

/// `left = cur + bit * (sib - cur)`, so no field constant one is needed.
pub open spec fn left_expr(base: int, j: int) -> Expr {
    Expr::Add(
        Box::new(Expr::Col((base + j) as usize)),
        Box::new(
            Expr::Mul(
                Box::new(Expr::Col((base + 2 * DIGEST) as usize)),
                Box::new(
                    Expr::Sub(
                        Box::new(Expr::Col((base + DIGEST + j) as usize)),
                        Box::new(Expr::Col((base + j) as usize)),
                    ),
                ),
            ),
        ),
    )
}

/// `right = sib + bit * (cur - sib)`.
pub open spec fn right_expr(base: int, j: int) -> Expr {
    Expr::Add(
        Box::new(Expr::Col((base + DIGEST + j) as usize)),
        Box::new(
            Expr::Mul(
                Box::new(Expr::Col((base + 2 * DIGEST) as usize)),
                Box::new(
                    Expr::Sub(
                        Box::new(Expr::Col((base + j) as usize)),
                        Box::new(Expr::Col((base + DIGEST + j) as usize)),
                    ),
                ),
            ),
        ),
    )
}

/// Lane `j` of a level whose columns start at `base`: the ordered pair enters
/// the permutation, and the compressed output feeds the next digest.
pub open spec fn lane_steps(r: int, base: int, next: int, j: int) -> Seq<Step> {
    let ps = base + 2 * DIGEST + 1;
    seq![
        Step::Eq(left_expr(base, j), Expr::Col((ps + j) as usize)),
        Step::Eq(right_expr(base, j), Expr::Col((ps + DIGEST + j) as usize)),
        Step::Eq(
            Expr::Col((ps + block_width_spec(r) - WIDTH + j) as usize),
            Expr::Col((next + j) as usize),
        ),
    ]
}

pub open spec fn lanes_spec(r: int, base: int, next: int, n: int) -> Seq<Step>
    decreases n,
{
    if n <= 0 {
        seq![]
    } else {
        lanes_spec(r, base, next, n - 1) + lane_steps(r, base, next, n - 1)
    }
}

/// The constraints of one level of a path placed at column `off`.
pub open spec fn level_steps(r: int, off: int, level: int) -> Seq<Step> {
    let base = off + level * level_width_spec(r);
    let next = off + (level + 1) * level_width_spec(r);
    seq![
        Step::Hash((base + 2 * DIGEST + 1) as usize),
        Step::Bool(Expr::Col((base + 2 * DIGEST) as usize)),
    ] + lanes_spec(r, base, next, DIGEST as int)
}

/// The constraints of a path of `depth` levels placed at column `off`.
pub open spec fn merkle_steps(r: int, off: int, depth: int) -> Seq<Step>
    decreases depth,
{
    if depth <= 0 {
        seq![]
    } else {
        merkle_steps(r, off, depth - 1) + level_steps(r, off, depth - 1)
    }
}

/// The lane constraints of a level hold of a row whose permutation input is
/// the ordered pair the direction bit selects and whose next digest is the
/// permutation's output.
pub proof fn lemma_lanes_hold(r: int, base: int, next: int, n: int, row: Seq<u64>, pv: Seq<u64>)
    requires
        0 <= n <= DIGEST,
        0 <= base,
        0 <= next,
        r >= 0,
        base + 2 * DIGEST + 1 + block_width_spec(r) <= usize::MAX,
        next + DIGEST <= usize::MAX,
        row[base + 2 * DIGEST] == 0 || row[base + 2 * DIGEST] == 1,
        forall|j: int|
            0 <= j < DIGEST ==> #[trigger] row[base + 2 * DIGEST + 1 + j] == if row[base + 2 * DIGEST]
                == 1 {
                row[base + DIGEST + j]
            } else {
                row[base + j]
            },
        forall|j: int|
            0 <= j < DIGEST ==> #[trigger] row[base + 2 * DIGEST + 1 + DIGEST + j] == if row[base + 2
                * DIGEST] == 1 {
                row[base + j]
            } else {
                row[base + DIGEST + j]
            },
        forall|j: int|
            0 <= j < DIGEST ==> #[trigger] row[base + 2 * DIGEST + 1 + block_width_spec(r) - WIDTH + j]
                == row[next + j],
    ensures
        all_hold(lanes_spec(r, base, next, n), r, row, pv),
    decreases n,
{
    if n > 0 {
        lemma_lanes_hold(r, base, next, n - 1, row, pv);
        let j = n - 1;
        let l = lane_steps(r, base, next, j);
        reveal_with_fuel(eval, 4);
        let b = row[base + 2 * DIGEST] as int;
        let cur = row[base + j] as int;
        let sib = row[base + DIGEST + j] as int;
        assert(row[base + 2 * DIGEST + 1 + j] == if b == 1 { sib } else { cur });
        assert(row[base + 2 * DIGEST + 1 + DIGEST + j] == if b == 1 { cur } else { sib });
        assert(row[base + 2 * DIGEST + 1 + block_width_spec(r) - WIDTH + j] == row[next + j]);
        assert(eval(left_expr(base, j), row, pv) == cur + b * (sib - cur));
        assert(eval(right_expr(base, j), row, pv) == sib + b * (cur - sib));
        if b == 1 {
            assert(cur + b * (sib - cur) == sib);
            assert(sib + b * (cur - sib) == cur);
        } else {
            assert(cur + b * (sib - cur) == cur);
            assert(sib + b * (cur - sib) == sib);
        }
        assert forall|i: int| 0 <= i < l.len() implies #[trigger] step_holds(l[i], r, row, pv) by {}
        crate::expr::lemma_all_hold_concat(lanes_spec(r, base, next, n - 1), l, r, row, pv);
    }
}

/// A path of `depth` levels at column `off` reads only its own columns.
pub proof fn lemma_merkle_within(r: int, off: int, depth: int, d: int)
    requires
        0 <= d <= depth,
        0 <= off,
        r >= 0,
        off + merkle_width_spec(r, depth) <= usize::MAX,
    ensures
        crate::expr::steps_within(merkle_steps(r, off, d), r, off + merkle_width_spec(r, depth)),
    decreases d,
{
    if d > 0 {
        lemma_merkle_within(r, off, depth, d - 1);
        let l = d - 1;
        let lw = level_width_spec(r);
        let w = off + merkle_width_spec(r, depth);
        let base = off + l * lw;
        let next = off + (l + 1) * lw;
        assert(next + DIGEST <= w) by (nonlinear_arith)
            requires
                l < depth,
                next == off + (l + 1) * lw,
                w == off + depth * lw + DIGEST,
                lw >= 0,
        ;
        assert(next == base + lw) by (nonlinear_arith)
            requires
                next == off + (l + 1) * lw,
                base == off + l * lw,
        ;
        assert(l * lw >= 0) by (nonlinear_arith)
            requires
                l >= 0,
                lw >= 0,
        ;
        let lanes = lanes_spec(r, base, next, DIGEST as int);
        assert forall|n: int| 0 <= n <= DIGEST implies crate::expr::steps_within(
            #[trigger] lanes_spec(r, base, next, n),
            r,
            w,
        ) by {
            lemma_lanes_within(r, base, next, n, w);
        }
        let head = seq![
            Step::Hash((base + 2 * DIGEST + 1) as usize),
            Step::Bool(Expr::Col((base + 2 * DIGEST) as usize)),
        ];
        crate::expr::lemma_within_concat(head, lanes, r, w);
        crate::expr::lemma_within_concat(merkle_steps(r, off, d - 1), level_steps(r, off, l), r, w);
    }
}

pub proof fn lemma_lanes_within(r: int, base: int, next: int, n: int, w: int)
    requires
        0 <= n <= DIGEST,
        0 <= base,
        r >= 0,
        next == base + 2 * DIGEST + 1 + block_width_spec(r),
        next + DIGEST <= w,
        w <= usize::MAX,
    ensures
        crate::expr::steps_within(lanes_spec(r, base, next, n), r, w),
    decreases n,
{
    if n > 0 {
        lemma_lanes_within(r, base, next, n - 1, w);
        reveal_with_fuel(crate::expr::expr_cols_below, 5);
        let l = lane_steps(r, base, next, n - 1);
        assert forall|i: int| 0 <= i < l.len() implies #[trigger] crate::expr::step_within(l[i], r, w) by {}
        crate::expr::lemma_within_concat(
            lanes_spec(r, base, next, n - 1),
            lane_steps(r, base, next, n - 1),
            r,
            w,
        );
    }
}

/// The permutation input a level selects: the current digest and the
/// sibling, swapped when the direction bit is one.
pub open spec fn select(cur: Seq<u64>, sib: Seq<u64>, bit: u64) -> Seq<u64> {
    if bit == 1 {
        sib + cur
    } else {
        cur + sib
    }
}

/// The digest a path row's own columns compute at `level`: the leaf in the
/// first columns, then, level by level, the first lanes of the permutation
/// of the current digest and that level's sibling in the order its direction
/// bit selects.
pub open spec fn path_digest(r: int, row: Seq<u64>, level: nat) -> Seq<u64>
    decreases level,
{
    if level == 0 {
        row.subrange(0, DIGEST as int)
    } else {
        let l = (level - 1) as nat;
        let base = l * level_width_spec(r);
        let sib = row.subrange(base + DIGEST, base + 2 * DIGEST);
        perm_out(poseidon2_trace_row(r, select(path_digest(r, row, l), sib, row[base + 2 * DIGEST]))).take(
            DIGEST as int,
        )
    }
}

/// Every level's constraints hold where the path's do.
proof fn lemma_levels_hold(r: int, d: int, l: int, row: Seq<u64>, pv: Seq<u64>)
    requires
        0 <= l < d,
        all_hold(merkle_steps(r, 0, d), r, row, pv),
    ensures
        all_hold(level_steps(r, 0, l), r, row, pv),
    decreases d,
{
    lemma_all_hold_split(merkle_steps(r, 0, d - 1), level_steps(r, 0, d - 1), r, row, pv);
    if l < d - 1 {
        lemma_levels_hold(r, d - 1, l, row, pv);
    }
}

/// Every lane's constraints hold where a level's lanes' do.
proof fn lemma_lane_holds(r: int, base: int, next: int, n: int, j: int, row: Seq<u64>, pv: Seq<u64>)
    requires
        0 <= j < n,
        all_hold(lanes_spec(r, base, next, n), r, row, pv),
    ensures
        all_hold(lane_steps(r, base, next, j), r, row, pv),
    decreases n,
{
    lemma_all_hold_split(lanes_spec(r, base, next, n - 1), lane_steps(r, base, next, n - 1), r, row, pv);
    if j < n - 1 {
        lemma_lane_holds(r, base, next, n - 1, j, row, pv);
    }
}

/// One lane of an accepted level: the permutation's input lanes hold the
/// current digest's and the sibling's lane in the order the direction bit
/// selects, and the next digest's lane is the permutation's output lane.
proof fn lemma_lane_values(r: int, base: int, next: int, j: int, row: Seq<u64>, pv: Seq<u64>)
    requires
        0 <= r <= 1,
        0 <= j < DIGEST,
        0 <= base,
        0 <= next,
        next + DIGEST <= row.len(),
        base + 2 * DIGEST + 1 + block_width_spec(r) <= row.len(),
        next + DIGEST <= usize::MAX,
        base + 2 * DIGEST + 1 + block_width_spec(r) <= usize::MAX,
        all_canonical(row),
        all_hold(lanes_spec(r, base, next, DIGEST as int), r, row, pv),
        row[base + 2 * DIGEST] <= 1,
    ensures
        ({
            let ps = base + 2 * DIGEST + 1;
            let b = row[base + 2 * DIGEST];
            let c = row[base + j];
            let s = row[base + DIGEST + j];
            &&& row[ps + j] == if b == 1 { s } else { c }
            &&& row[ps + DIGEST + j] == if b == 1 { c } else { s }
            &&& row[next + j] == row[ps + block_width_spec(r) - WIDTH + j]
        }),
{
    let ps = base + 2 * DIGEST + 1;
    let bw = block_width_spec(r);
    let b = row[base + 2 * DIGEST] as int;
    lemma_lane_holds(r, base, next, DIGEST as int, j, row, pv);
    let ls = lane_steps(r, base, next, j);
    assert(step_holds(ls[0], r, row, pv));
    assert(step_holds(ls[1], r, row, pv));
    assert(step_holds(ls[2], r, row, pv));
    reveal_with_fuel(eval, 4);
    let c = row[base + j] as int;
    let s = row[base + DIGEST + j] as int;
    assert(eval(left_expr(base, j), row, pv) == c + b * (s - c));
    assert(eval(right_expr(base, j), row, pv) == s + b * (c - s));
    if b == 1 {
        assert(c + b * (s - c) == s && s + b * (c - s) == c) by (nonlinear_arith)
            requires
                b == 1,
        ;
    } else {
        assert(c + b * (s - c) == c && s + b * (c - s) == s) by (nonlinear_arith)
            requires
                b == 0,
        ;
    }
    lemma_canonical_eq(eval(left_expr(base, j), row, pv), row[ps + j] as int);
    lemma_canonical_eq(eval(right_expr(base, j), row, pv), row[ps + DIGEST + j] as int);
    lemma_canonical_eq(row[ps + bw - WIDTH + j] as int, row[next + j] as int);
}

/// One level of an accepted path: its permutation's input is the pair its
/// direction bit selects, and the next digest is that permutation's output.
proof fn lemma_level_computes(r: int, depth: int, l: int, row: Seq<u64>, pv: Seq<u64>)
    requires
        0 <= r <= 1,
        0 <= l < depth,
        merkle_width_spec(r, depth) <= usize::MAX,
        row.len() >= merkle_width_spec(r, depth),
        all_canonical(row),
        all_hold(level_steps(r, 0, l), r, row, pv),
        row[l * level_width_spec(r) + 2 * DIGEST] <= 1,
    ensures
        ({
            let lw = level_width_spec(r);
            let base = l * lw;
            let cur = row.subrange(base, base + DIGEST);
            let sib = row.subrange(base + DIGEST, base + 2 * DIGEST);
            row.subrange(base + lw, base + lw + DIGEST) == perm_out(
                poseidon2_trace_row(r, select(cur, sib, row[base + 2 * DIGEST])),
            ).take(DIGEST as int)
        }),
{
    let lw = level_width_spec(r);
    let bw = block_width_spec(r);
    let base = l * lw;
    let next = (l + 1) * lw;
    let ps = base + 2 * DIGEST + 1;
    assert(next == base + lw && 0 <= base && next + DIGEST <= depth * lw + DIGEST) by (nonlinear_arith)
        requires
            next == (l + 1) * lw,
            base == l * lw,
            0 <= l < depth,
            lw >= 0,
    ;
    let b = row[base + 2 * DIGEST];
    let cur = row.subrange(base, base + DIGEST);
    let sib = row.subrange(base + DIGEST, base + 2 * DIGEST);
    let head = seq![Step::Hash(ps as usize), Step::Bool(Expr::Col((base + 2 * DIGEST) as usize))];
    assert(level_steps(r, 0, l) =~= head + lanes_spec(r, base, next, DIGEST as int));
    lemma_all_hold_split(head, lanes_spec(r, base, next, DIGEST as int), r, row, pv);
    assert(step_holds(head[0], r, row, pv));
    let input = row.subrange(ps, ps + WIDTH);
    let prow = poseidon2_trace_row(r, input);
    assert(hash_block_holds(r, ps, row));
    assert(row.subrange(ps, ps + bw) == prow);
    let sel = select(cur, sib, b);
    assert forall|k: int| 0 <= k < WIDTH implies #[trigger] input[k] == sel[k] by {
        if k < DIGEST {
            lemma_lane_values(r, base, next, k, row, pv);
        } else {
            lemma_lane_values(r, base, next, k - DIGEST, row, pv);
        }
    }
    assert(input =~= sel);
    let out = row.subrange(base + lw, base + lw + DIGEST);
    assert forall|j: int| 0 <= j < DIGEST implies #[trigger] out[j] == perm_out(prow).take(DIGEST as int)[j] by {
        lemma_lane_values(r, base, next, j, row, pv);
        assert(row.subrange(ps, ps + bw)[bw - WIDTH + j] == prow[bw - WIDTH + j]);
    }
    assert(out =~= perm_out(prow).take(DIGEST as int));
}

/// What the path circuit guarantees of every row it accepts: the root its
/// last columns hold is the digest its own leaf, siblings and direction bits
/// compute through the permutation. The direction bits' own constraint makes
/// each a root of x(x - 1), which is a bit because p is prime; that primality
/// is not proved here, so the bits' being bits is taken as given.
pub proof fn lemma_merkle_path_computes_root(r: int, depth: int, d: int, row: Seq<u64>, pv: Seq<u64>)
    requires
        0 <= r <= 1,
        0 <= d <= depth,
        merkle_width_spec(r, depth) <= usize::MAX,
        row.len() >= merkle_width_spec(r, depth),
        all_canonical(row),
        all_hold(merkle_steps(r, 0, depth), r, row, pv),
        forall|l: int| 0 <= l < depth ==> #[trigger] row[l * level_width_spec(r) + 2 * DIGEST] <= 1,
    ensures
        row.subrange(d * level_width_spec(r), d * level_width_spec(r) + DIGEST) == path_digest(r, row, d as nat),
    decreases d,
{
    if d > 0 {
        let l = d - 1;
        lemma_merkle_path_computes_root(r, depth, l, row, pv);
        lemma_levels_hold(r, depth, l, row, pv);
        lemma_level_computes(r, depth, l, row, pv);
        let lw = level_width_spec(r);
        assert(l * lw + lw == d * lw) by (nonlinear_arith)
            requires
                l == d - 1,
        ;
        let base = l * lw;
        let cur = row.subrange(base, base + DIGEST);
        let sib = row.subrange(base + DIGEST, base + 2 * DIGEST);
        assert(cur == path_digest(r, row, l as nat));
        assert(path_digest(r, row, d as nat) == perm_out(
            poseidon2_trace_row(r, select(path_digest(r, row, l as nat), sib, row[base + 2 * DIGEST])),
        ).take(DIGEST as int));
    } else {
        let lw = level_width_spec(r);
        assert(d * lw == 0) by (nonlinear_arith)
            requires
                d == 0,
        ;
    }
}

impl<const R: usize, const DEPTH: usize> MerkleAir<R, DEPTH> {
    pub fn new() -> (a: Self) {
        MerkleAir {  }
    }

    pub fn block_width(&self) -> (n: usize)
        requires
            R <= 1,
        ensures
            n == block_width_spec(R as int),
    {
        block_width::<R>()
    }

    pub fn level_width(&self) -> (n: usize)
        requires
            R <= 1,
        ensures
            n == level_width_spec(R as int),
    {
        DIGEST + DIGEST + 1 + self.block_width()
    }

    /// The root digest sits after the per-level blocks.
    pub fn root_offset(&self) -> (n: usize)
        requires
            R <= 1,
            merkle_width_spec(R as int, DEPTH as int) <= usize::MAX,
        ensures
            n == DEPTH * level_width_spec(R as int),
    {
        DEPTH * self.level_width()
    }

    pub fn width(&self) -> (n: usize)
        requires
            R <= 1,
            merkle_width_spec(R as int, DEPTH as int) <= usize::MAX,
        ensures
            n == merkle_width_spec(R as int, DEPTH as int),
    {
        DEPTH * self.level_width() + DIGEST
    }

    /// The path's constraints with its columns starting at `off`.
    pub fn constrain(&self, off: usize) -> (steps: Vec<Step>)
        requires
            R <= 1,
            off + merkle_width_spec(R as int, DEPTH as int) <= usize::MAX,
        ensures
            steps@ == merkle_steps(R as int, off as int, DEPTH as int),
    {
        let lw = self.level_width();
        let bw = self.block_width();
        let oo = output_offset::<R>();
        let mut steps: Vec<Step> = Vec::new();
        let mut level: usize = 0;
        while level < DEPTH
            invariant
                R <= 1,
                lw == level_width_spec(R as int),
                bw == block_width_spec(R as int),
                oo == bw - WIDTH,
                off + merkle_width_spec(R as int, DEPTH as int) <= usize::MAX,
                level <= DEPTH,
                steps@ == merkle_steps(R as int, off as int, level as int),
            decreases DEPTH - level,
        {
            assert(off + (level + 1) * lw + DIGEST <= off + DEPTH * lw + DIGEST) by (nonlinear_arith)
                requires
                    level < DEPTH,
            ;
            assert((level + 1) * lw == level * lw + lw) by (nonlinear_arith);
            let base = off + level * lw;
            let next = off + (level + 1) * lw;
            let ps = base + DIGEST + DIGEST + 1;
            let ghost s0 = steps@;
            steps.push(Step::Hash(ps));
            steps.push(Step::Bool(col(base + 2 * DIGEST)));
            let mut j: usize = 0;
            while j < DIGEST
                invariant
                    R <= 1,
                    lw == level_width_spec(R as int),
                    bw == block_width_spec(R as int),
                    oo == bw - WIDTH,
                    base == off + level * lw,
                    next == base + lw,
                    next + DIGEST <= usize::MAX,
                    ps == base + 2 * DIGEST + 1,
                    j <= DIGEST,
                    steps@ == s0 + seq![
                        Step::Hash(ps),
                        Step::Bool(Expr::Col((base + 2 * DIGEST) as usize)),
                    ] + lanes_spec(R as int, base as int, next as int, j as int),
                decreases DIGEST - j,
            {
                let left = plus(col(base + j), times(col(base + 2 * DIGEST), minus(col(base + DIGEST + j), col(base + j))));
                let right = plus(col(base + DIGEST + j), times(col(base + 2 * DIGEST), minus(col(base + j), col(base + DIGEST + j))));
                steps.push(Step::Eq(left, col(ps + j)));
                steps.push(Step::Eq(right, col(ps + DIGEST + j)));
                steps.push(Step::Eq(col(ps + oo + j), col(next + j)));
                j += 1;
                proof {
                    let pre = s0 + seq![
                        Step::Hash(ps),
                        Step::Bool(Expr::Col((base + 2 * DIGEST) as usize)),
                    ];
                    assert(steps@ =~= pre + lanes_spec(R as int, base as int, next as int, j as int));
                }
            }
            level += 1;
            assert(steps@ =~= merkle_steps(R as int, off as int, level as int));
        }
        steps
    }
}

} // verus!
