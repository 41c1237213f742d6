//! The spend component's witness: one row holding the secret, the run of
//! units a payment charges, the range decompositions, and one permutation per
//! slot deriving that slot's key.
//!
//! The layout is the one `SpendAir` declares; the columns are taken from it
//! rather than restated.
use crate::air::{bits_of, bits_seq, low_bits, RANGE_BITS};
use crate::field::{add_spec, all_canonical, lemma_canonical_concat, fadd, fmul, fsub, from_u64, inverse, mul_spec, sub_spec, P};
use crate::gen::{perm_out, perm_output, perm_row, poseidon2_trace_row};
use crate::hash::{block_width, block_width_spec, DOMAIN_KEY, DOMAIN_NULL, DOMAIN_PAD, WIDTH};
use crate::spend::{
    node_base_spec, range_base_spec, spend_steps, value_cols_spec, COL_BASE, COL_INDEX, COL_INDEX_INV, COL_M,
    COL_R, COL_ROOT_KEY, COL_SECRET, COL_SELF, COL_UNITS, FIXED_COLS, NODE_ACTIVE, NODE_KEY, NODE_NULL,
    NODE_SHARE, PER_NODE, RANGE_BLOCKS, SECRET_ELEMS,
};
use crate::table::{append, lemma_repeats_row, raise, repeat, zero_seq, zeros, Trace};
use crate::expr::some_fails;
use vstd::arithmetic::power2::pow2;
use vstd::prelude::*;

verus! {

/// The payload digest, supplied to prove and verify as the single public value.
pub const PAYLOAD: u64 = 31337;

/// The payer's secret.
pub const SECRET: [u64; SECRET_ELEMS] = [987654321, 1234567891];

/// The root key every unit's key derives from.
pub const ROOT_KEY: [u64; SECRET_ELEMS] = [424242, 858585];

/// Where each region of the spend row starts, and the row's width.
pub struct Layout {
    pub pos: usize,
    pub rng: usize,
    pub node: usize,
    pub vals: usize,
    pub width: usize,
}

/// The spend row's width at `cover` slots and block width `bw`.
pub open spec fn spend_row_width(cover: int, bw: int) -> int {
    value_cols_spec(cover) + cover * bw
}

/// The regions of the spend row: the fixed columns, the running positions,
/// the range decompositions, the slots, and the permutation blocks.
pub fn layout(depth: usize, cover: usize, bw: usize) -> (l: Layout)
    requires
        spend_row_width(cover as int, bw as int) <= usize::MAX,
    ensures
        l.pos == FIXED_COLS,
        l.rng == range_base_spec(cover as int),
        l.node == node_base_spec(cover as int),
        l.vals == value_cols_spec(cover as int),
        l.width == spend_row_width(cover as int, bw as int),
{
    let _ = depth;
    proof {
        assert(cover * bw >= 0) by (nonlinear_arith);
    }
    let pos = FIXED_COLS;
    let rng = pos + cover + 1;
    let node = rng + RANGE_BLOCKS * RANGE_BITS;
    let vals = node + PER_NODE * cover;
    Layout { pos, rng, node, vals, width: vals + cover * bw }
}

/// The start of the run within the delegation's range: a quarter in, plus
/// one, plus the shift a control asks for.
pub open spec fn run_offset(spendable: int, off_delta: int) -> int {
    spendable / 4 + 1 + off_delta
}

/// The slots the run may fill: the slot count, or the room left between the
/// run's start and the end of the spendable units, whichever is smaller.
pub open spec fn run_cap(cover: int, spendable: int, off_delta: int) -> int {
    let room = spendable - run_offset(spendable, off_delta) - 1;
    if cover < room {
        cover
    } else {
        room
    }
}

/// The units charged: those asked for, or the cap when nothing is asked.
pub open spec fn run_units(cover: int, units_want: Option<usize>, spendable: int, off_delta: int) -> int {
    match units_want {
        Some(u) => u as int,
        None => run_cap(cover, spendable, off_delta),
    }
}

/// The inputs `interval` accepts: the run starts strictly inside the
/// spendable units, and what is asked for fits the cap.
pub open spec fn interval_ok(cover: int, units_want: Option<usize>, spendable: int, off_delta: int) -> bool {
    &&& run_offset(spendable, off_delta) + 1 <= spendable
    &&& match units_want {
        Some(u) => u <= run_cap(cover, spendable, off_delta),
        None => true,
    }
}

/// The delegation's spendable count and base index, and the run of units
/// this payment charges: where it starts and how many units it takes.
/// `units_want` charges the number of units a payment's amount buys rather
/// than filling every slot, and `off_delta` moves the run.
pub fn interval(
    depth: usize,
    cover: usize,
    units_want: Option<usize>,
    off_delta: usize,
    base: usize,
    spendable: usize,
) -> (res: (usize, usize, usize, usize))
    requires
        interval_ok(cover as int, units_want, spendable as int, off_delta as int),
    ensures
        res.0 == spendable,
        res.1 == base,
        res.2 == run_offset(spendable as int, off_delta as int),
        res.3 == run_units(cover as int, units_want, spendable as int, off_delta as int),
{
    let _ = depth;
    let part = spendable;
    let off = part / 4 + 1 + off_delta;
    let room = part - off - 1;
    let cap = if cover < room {
        cover
    } else {
        room
    };
    let units = match units_want {
        Some(u) => u,
        None => cap,
    };
    (part, base, off, units)
}

/// What a control corrupts. Each must make verification fail.
#[derive(Clone, Copy, PartialEq, Eq, Debug, Structural)]
pub enum SpendBreak {
    Share,
    Key,
    Nullifier,
    Deactivate,
    RunStart,
    Modulus,
    Units,
    RangeBase,
    /// Consume a span of units in one slot rather than one unit per slot: the
    /// run's positions advance by two per slot.
    CoarseSpan,
    /// The run ends one unit past the delegation's spendable units.
    RunPastBudget,
    /// The self-region shrinks by one unit, so the run ends past it.
    RunPastSelf,
    /// The self-region grows by one unit past what the delegation holds.
    SelfPastHolding,
}

/// A non-negative integer as the field element it stands for.
pub open spec fn fe(x: int) -> u64 {
    (x % (P as int)) as u64
}

/// The run's start in the row a control produces.
pub open spec fn row_offset(
    cover: int,
    units_want: Option<usize>,
    spendable: int,
    off_delta: int,
    how: Option<SpendBreak>,
) -> int {
    if how == Some(SpendBreak::RunPastBudget) {
        spendable - run_units(cover, units_want, spendable, off_delta) + 1
    } else {
        run_offset(spendable, off_delta)
    }
}

/// The position before slot `c`: the run's start plus the units the earlier
/// slots consumed.
pub open spec fn slot_pos(off: int, units: int, c: int) -> int {
    off + if c < units {
        c
    } else {
        units
    }
}

/// The permutation input of slot `c`. A real slot derives from the root key
/// and the unit's index under `DOMAIN_KEY`; a padded slot from the root key,
/// the payload digest and its own position under `DOMAIN_PAD`.
pub open spec fn slot_input(payload: u64, base: int, off: int, units: int, c: int) -> Seq<u64> {
    if c < units {
        seq![ROOT_KEY[0], ROOT_KEY[1], fe(base + slot_pos(off, units, c)), DOMAIN_KEY, 0, 0, 0, 0]
    } else {
        seq![ROOT_KEY[0], ROOT_KEY[1], payload, DOMAIN_PAD, fe(c + 1), 0, 0, 0]
    }
}

/// The permutation block of slot `c`.
pub open spec fn slot_block(r: int, payload: u64, base: int, off: int, units: int, c: int) -> Seq<
    u64,
> {
    poseidon2_trace_row(r, slot_input(payload, base, off, units, c))
}

/// Every slot's block is as wide as a block and starts with its input, as
/// the generator's rows do.
pub open spec fn slots_generated(r: int, payload: u64, base: int, off: int, units: int, cover: int) -> bool {
    forall|q: int|
        0 <= q < cover ==> (#[trigger] slot_block(r, payload, base, off, units, q)).len() == block_width_spec(r)
            && slot_block(r, payload, base, off, units, q).subrange(0, WIDTH as int) == slot_input(
            payload,
            base,
            off,
            units,
            q,
        )
}

/// The slot columns of slot `c`: the active flag, the key, the shares
/// s_j + key_j * payload, and the nullifier, all read off the block's output.
pub open spec fn slot_node(r: int, payload: u64, base: int, off: int, units: int, c: int) -> Seq<
    u64,
> {
    let out = perm_out(slot_block(r, payload, base, off, units, c));
    seq![
        if c < units { 1u64 } else { 0u64 },
        out[0],
        out[1],
        add_spec(SECRET[0] as int, mul_spec(out[0] as int, payload as int)) as u64,
        add_spec(SECRET[1] as int, mul_spec(out[1] as int, payload as int)) as u64,
        out[2],
    ]
}

/// The slot columns of the first `k` slots.
pub open spec fn nodes_spec(r: int, payload: u64, base: int, off: int, units: int, k: nat) -> Seq<
    u64,
>
    decreases k,
{
    if k == 0 {
        seq![]
    } else {
        nodes_spec(r, payload, base, off, units, (k - 1) as nat) + slot_node(
            r,
            payload,
            base,
            off,
            units,
            k - 1,
        )
    }
}

/// The permutation blocks of the first `k` slots.
pub open spec fn blocks_spec(r: int, payload: u64, base: int, off: int, units: int, k: nat) -> Seq<
    u64,
>
    decreases k,
{
    if k == 0 {
        seq![]
    } else {
        blocks_spec(r, payload, base, off, units, (k - 1) as nat) + slot_block(
            r,
            payload,
            base,
            off,
            units,
            k - 1,
        )
    }
}

/// The running positions, one per slot boundary.
pub open spec fn positions_spec(off: int, units: int, cover: int) -> Seq<u64> {
    Seq::new((cover + 1) as nat, |c: int| fe(slot_pos(off, units, c)))
}

/// The three gaps the generator decomposes: the run's start, the units left
/// after the run, and the room between the range's end and 2^depth.
pub open spec fn spend_gap_values(depth: int, base: int, spendable: int, off: int, units: int) -> Seq<
    int,
> {
    seq![off, spendable - off - units, pow2(depth as nat) - base - spendable]
}

/// The range columns: the low bits of each of the three gaps, and a block of
/// zeros for the fourth.
pub open spec fn spend_range_bits(depth: int, base: int, spendable: int, off: int, units: int) -> Seq<
    u64,
> {
    let g = spend_gap_values(depth, base, spendable, off, units);
    let m = pow2(RANGE_BITS as nat) as int;
    bits_seq(g[0] % m) + bits_seq(g[1] % m) + bits_seq(g[2] % m) + zero_seq(RANGE_BITS as int)
}

/// The fixed columns. A delegation that grants nothing keeps every unit it
/// holds for itself, so its self-region is the whole holding.
pub open spec fn spend_fixed(payload: u64, inv: u64, spendable: int, off: int, units: int, base: int) -> Seq<
    u64,
> {
    seq![
        SECRET[0],
        SECRET[1],
        payload,
        inv,
        ROOT_KEY[0],
        ROOT_KEY[1],
        fe(spendable),
        fe(spendable),
        fe(off),
        fe(units),
        fe(base),
    ]
}

/// The spend row before any corruption, given the inverse of the payload.
pub open spec fn spend_unbroken_row(
    r: int,
    depth: int,
    cover: int,
    payload: u64,
    inv: u64,
    units_want: Option<usize>,
    off_delta: int,
    base: int,
    spendable: int,
    how: Option<SpendBreak>,
) -> Seq<u64> {
    let units = run_units(cover, units_want, spendable, off_delta);
    let off = row_offset(cover, units_want, spendable, off_delta, how);
    spend_fixed(payload, inv, spendable, off, units, base) + positions_spec(off, units, cover)
        + spend_range_bits(depth, base, spendable, off, units) + nodes_spec(
        r,
        payload,
        base,
        off,
        units,
        cover as nat,
    ) + blocks_spec(r, payload, base, off, units, cover as nat)
}

/// What a control does to a finished row.
pub open spec fn spend_break_spec(row: Seq<u64>, how: Option<SpendBreak>, cover: int) -> Seq<u64> {
    let n0 = node_base_spec(cover);
    match how {
        Some(SpendBreak::Share) => raise(row, n0 + NODE_SHARE),
        Some(SpendBreak::Key) => raise(row, n0 + NODE_KEY),
        Some(SpendBreak::Nullifier) => raise(row, n0 + NODE_NULL),
        Some(SpendBreak::Deactivate) => row.update(n0 + PER_NODE + NODE_ACTIVE, 0),
        Some(SpendBreak::RunStart) => raise(row, FIXED_COLS as int),
        Some(SpendBreak::Modulus) => raise(row, COL_M as int),
        Some(SpendBreak::Units) => row.update(
            COL_UNITS as int,
            sub_spec(row[COL_UNITS as int] as int, 1) as u64,
        ),
        Some(SpendBreak::RangeBase) => raise(row, COL_BASE as int),
        Some(SpendBreak::RunPastSelf) => row.update(
            COL_SELF as int,
            sub_spec(row[COL_SELF as int] as int, 1) as u64,
        ),
        Some(SpendBreak::SelfPastHolding) => raise(row, COL_SELF as int),
        Some(SpendBreak::CoarseSpan) => Seq::new(
            row.len(),
            |i: int|
                if FIXED_COLS < i <= FIXED_COLS + cover {
                    fe(row[FIXED_COLS as int] + 2 * (i - FIXED_COLS))
                } else {
                    row[i]
                },
        ),
        _ => row,
    }
}

/// The spend row a call produces, given the inverse of the payload.
pub open spec fn spend_row_spec(
    r: int,
    depth: int,
    cover: int,
    payload: u64,
    inv: u64,
    units_want: Option<usize>,
    off_delta: int,
    base: int,
    spendable: int,
    how: Option<SpendBreak>,
) -> Seq<u64> {
    spend_break_spec(
        spend_unbroken_row(r, depth, cover, payload, inv, units_want, off_delta, base, spendable, how),
        how,
        cover,
    )
}

/// The controls whose failure `spend_controls` proves, for a row whose run
/// takes `units` units: those that move the holding, the self-region, the
/// run's start or end, a share, a key, a nullifier, the range base or the
/// unit count, always; switching off the
/// second slot, where the run fills at least two; and positions advancing
/// by two, where the run fills at least one.
pub open spec fn control_caught(how: Option<SpendBreak>, units: int) -> bool {
    match how {
        Some(SpendBreak::Modulus) | Some(SpendBreak::RunStart) | Some(SpendBreak::RunPastBudget) | Some(
            SpendBreak::RunPastSelf,
        ) | Some(SpendBreak::SelfPastHolding) | Some(SpendBreak::Share) | Some(SpendBreak::Units) | Some(
            SpendBreak::Key,
        ) | Some(SpendBreak::RangeBase) | Some(SpendBreak::Nullifier) => true,
        Some(SpendBreak::Deactivate) => units >= 2,
        Some(SpendBreak::CoarseSpan) => units >= 1,
        _ => false,
    }
}

/// The units the trace row's run takes.
pub open spec fn trace_units(depth: int, cover: int) -> int {
    run_units(cover, None, pow2((depth - 1) as nat) as int, 0)
}

/// The controls that touch a slot's columns, which exist only when there is
/// at least one slot.
pub open spec fn touches_slot(how: Option<SpendBreak>) -> bool {
    match how {
        Some(SpendBreak::Share) | Some(SpendBreak::Key) | Some(SpendBreak::Nullifier) | Some(
            SpendBreak::Deactivate,
        ) => true,
        _ => false,
    }
}

/// The inputs a row can be built for: a non-zero canonical payload, a run
/// that `interval` accepts, a depth whose power fits the gap arithmetic, and
/// a row and unit indices that fit the machine.
pub open spec fn spend_row_ok(
    r: int,
    depth: int,
    cover: int,
    payload: u64,
    units_want: Option<usize>,
    off_delta: int,
    base: int,
    spendable: int,
    how: Option<SpendBreak>,
) -> bool {
    &&& r == 0 || r == 1
    &&& 0 < payload < P
    &&& depth <= 64
    &&& interval_ok(cover, units_want, spendable, off_delta)
    &&& base + spendable + cover + 3 <= usize::MAX
    &&& spend_row_width(cover, block_width_spec(r)) <= usize::MAX
    &&& touches_slot(how) ==> cover >= 1
}

/// The slot columns and the permutation blocks of every slot.
fn spend_slots<const R: usize>(payload: u64, base: usize, off: usize, units: usize, cover: usize) -> (res: (
    Vec<u64>,
    Vec<u64>,
))
    requires
        R == 0 || R == 1,
        0 < payload < P,
        base + off + units + cover + 2 <= usize::MAX,
        spend_row_width(cover as int, block_width_spec(R as int)) <= usize::MAX,
    ensures
        res.0@ == nodes_spec(R as int, payload, base as int, off as int, units as int, cover as nat),
        res.1@ == blocks_spec(R as int, payload, base as int, off as int, units as int, cover as nat),
        res.0@.len() == PER_NODE * cover,
        res.1@.len() == cover * block_width_spec(R as int),
        all_canonical(res.0@),
        all_canonical(res.1@),
        slots_generated(R as int, payload, base as int, off as int, units as int, cover as int),
{
    let mut nodes: Vec<u64> = Vec::new();
    let mut tail: Vec<u64> = Vec::new();
    let mut pos = off;
    let mut c: usize = 0;
    let ghost bw = block_width_spec(R as int);
    while c < cover
        invariant
            R == 0 || R == 1,
            0 < payload < P,
            bw == block_width_spec(R as int),
            base + off + units + cover + 2 <= usize::MAX,
            spend_row_width(cover as int, bw) <= usize::MAX,
            c <= cover,
            pos == slot_pos(off as int, units as int, c as int),
            nodes@ == nodes_spec(R as int, payload, base as int, off as int, units as int, c as nat),
            tail@ == blocks_spec(R as int, payload, base as int, off as int, units as int, c as nat),
            nodes@.len() == PER_NODE * c,
            tail@.len() == c * bw,
            all_canonical(nodes@),
            all_canonical(tail@),
            slots_generated(R as int, payload, base as int, off as int, units as int, c as int),
        decreases cover - c,
    {
        let active = c < units;
        let mut state = [0u64; WIDTH];
        state[0] = ROOT_KEY[0];
        state[1] = ROOT_KEY[1];
        if active {
            state[2] = from_u64((base + pos) as u64);
            state[3] = DOMAIN_KEY;
        } else {
            state[2] = payload;
            state[3] = DOMAIN_PAD;
            state[4] = from_u64(c as u64 + 1);
        }
        assert(state@ =~= slot_input(payload, base as int, off as int, units as int, c as int));
        let prow = perm_row::<R>(state);
        let outp = perm_output::<R>(prow.as_slice());
        proof {
            assert forall|k: int| 0 <= k < WIDTH implies #[trigger] outp@[k] < P by {
                assert(outp@[k] == prow@[prow@.len() - WIDTH + k]);
            }
        }
        let ghost n0 = nodes@;
        nodes.push(if active { 1 } else { 0 });
        nodes.push(outp[0]);
        nodes.push(outp[1]);
        nodes.push(fadd(SECRET[0], fmul(outp[0], payload)));
        nodes.push(fadd(SECRET[1], fmul(outp[1], payload)));
        nodes.push(outp[2]);
        assert(nodes@ =~= n0 + slot_node(R as int, payload, base as int, off as int, units as int, c as int));
        proof {
            assert(all_canonical(slot_node(R as int, payload, base as int, off as int, units as int, c as int)));
            lemma_canonical_concat(n0, slot_node(R as int, payload, base as int, off as int, units as int, c as int));
            lemma_canonical_concat(tail@, prow@);
            assert((c + 1) * bw == c * bw + bw) by (nonlinear_arith);
            assert(PER_NODE == 6);
            assert(PER_NODE * (c + 1) == PER_NODE * c + 6);
        }
        let ghost t0 = tail@;
        append(&mut tail, prow.as_slice());
        assert(prow@ == slot_block(R as int, payload, base as int, off as int, units as int, c as int));
        assert(blocks_spec(R as int, payload, base as int, off as int, units as int, (c + 1) as nat)
            == t0 + slot_block(R as int, payload, base as int, off as int, units as int, c as int));
        if active {
            pos += 1;
        }
        c += 1;
    }
    (nodes, tail)
}

/// The running positions: the run's start, advanced by each active slot.
fn push_positions(row: &mut Vec<u64>, off: usize, units: usize, cover: usize)
    requires
        off + units + cover + 2 <= usize::MAX,
    ensures
        final(row)@ == old(row)@ + positions_spec(off as int, units as int, cover as int),
{
    let mut pos = off;
    let mut c: usize = 0;
    while c < cover + 1
        invariant
            off + units + cover + 2 <= usize::MAX,
            c <= cover + 1,
            pos == slot_pos(off as int, units as int, c as int),
            row@ == old(row)@ + positions_spec(off as int, units as int, cover as int).take(c as int),
        decreases cover + 1 - c,
    {
        row.push(from_u64(pos as u64));
        if c < units {
            pos += 1;
        }
        c += 1;
        assert(row@ =~= old(row)@ + positions_spec(off as int, units as int, cover as int).take(c as int));
    }
    assert(positions_spec(off as int, units as int, cover as int).take(c as int) =~= positions_spec(
        off as int,
        units as int,
        cover as int,
    ));
}

/// Apply a control to a finished row.
fn apply_spend_break(row: &mut Vec<u64>, how: Option<SpendBreak>, cover: usize)
    requires
        all_canonical(old(row)@),
        old(row)@.len() >= node_base_spec(cover as int),
        touches_slot(how) ==> old(row)@.len() > node_base_spec(cover as int) + PER_NODE,
        node_base_spec(cover as int) + PER_NODE < usize::MAX,
    ensures
        final(row)@ == spend_break_spec(old(row)@, how, cover as int),
        all_canonical(final(row)@),
{
    let n0 = FIXED_COLS + cover + 1 + RANGE_BLOCKS * RANGE_BITS;
    let n1 = n0 + PER_NODE;
    let pos = FIXED_COLS;
    match how {
        Some(SpendBreak::Share) => {
            let v = row[n0 + NODE_SHARE];
            row.set(n0 + NODE_SHARE, fadd(v, 1));
        },
        Some(SpendBreak::Key) => {
            let v = row[n0 + NODE_KEY];
            row.set(n0 + NODE_KEY, fadd(v, 1));
        },
        Some(SpendBreak::Nullifier) => {
            let v = row[n0 + NODE_NULL];
            row.set(n0 + NODE_NULL, fadd(v, 1));
        },
        Some(SpendBreak::Deactivate) => {
            row.set(n1 + NODE_ACTIVE, 0);
        },
        Some(SpendBreak::RunStart) => {
            let v = row[pos];
            row.set(pos, fadd(v, 1));
        },
        Some(SpendBreak::Modulus) => {
            let v = row[COL_M];
            row.set(COL_M, fadd(v, 1));
        },
        Some(SpendBreak::Units) => {
            let v = row[COL_UNITS];
            row.set(COL_UNITS, fsub(v, 1));
        },
        Some(SpendBreak::RangeBase) => {
            let v = row[COL_BASE];
            row.set(COL_BASE, fadd(v, 1));
        },
        Some(SpendBreak::RunPastSelf) => {
            let v = row[COL_SELF];
            row.set(COL_SELF, fsub(v, 1));
        },
        Some(SpendBreak::SelfPastHolding) => {
            let v = row[COL_SELF];
            row.set(COL_SELF, fadd(v, 1));
        },
        Some(SpendBreak::CoarseSpan) => {
            let ghost r0 = row@;
            let ghost x = r0[FIXED_COLS as int];
            let mut c: usize = 1;
            while c <= cover
                invariant
                    1 <= c <= cover + 1,
                    pos == FIXED_COLS,
                    node_base_spec(cover as int) + PER_NODE < usize::MAX,
                    r0.len() >= node_base_spec(cover as int),
                    all_canonical(r0),
                    x == r0[FIXED_COLS as int],
                    row@.len() == r0.len(),
                    forall|i: int|
                        0 <= i < r0.len() ==> #[trigger] row@[i] == if FIXED_COLS < i < FIXED_COLS + c {
                            fe(x + 2 * (i - FIXED_COLS))
                        } else {
                            r0[i]
                        },
                decreases cover + 1 - c,
            {
                let p = row[pos + c - 1];
                proof {
                    if c > 1 {
                        assert(p == fe(x + 2 * (c - 1)));
                        vstd::arithmetic::div_mod::lemma_add_mod_noop(x + 2 * (c - 1), 2, P as int);
                        assert(((x + 2 * (c - 1)) % (P as int)) % (P as int) == (x + 2 * (c - 1))
                            % (P as int)) by {
                            vstd::arithmetic::div_mod::lemma_mod_twice(x + 2 * (c - 1), P as int);
                        }
                        assert(2int % (P as int) == 2);
                    } else {
                        assert(p == x);
                    }
                }
                row.set(pos + c, fadd(p, 2));
                c += 1;
            }
            assert(row@ =~= spend_break_spec(r0, how, cover as int));
            assert forall|i: int| 0 <= i < row@.len() implies #[trigger] row@[i] < P by {
                if FIXED_COLS < i <= FIXED_COLS + cover {
                    assert(row@[i] == fe(x + 2 * (i - FIXED_COLS)));
                }
            }
        },
        _ => {},
    }
}

/// The fixed columns, the running positions and the range decompositions.
fn spend_head(
    payload: u64,
    inv: u64,
    spendable: usize,
    off: usize,
    units: usize,
    base: usize,
    depth: usize,
    cover: usize,
) -> (row: Vec<u64>)
    requires
        payload < P,
        inv < P,
        depth <= 64,
        off + units + cover + 2 <= usize::MAX,
    ensures
        row@ == spend_fixed(payload, inv, spendable as int, off as int, units as int, base as int)
            + positions_spec(off as int, units as int, cover as int) + spend_range_bits(
            depth as int,
            base as int,
            spendable as int,
            off as int,
            units as int,
        ),
        all_canonical(row@),
{
    let mut row: Vec<u64> = Vec::new();
    row.push(SECRET[0]);
    row.push(SECRET[1]);
    row.push(payload);
    row.push(inv);
    row.push(ROOT_KEY[0]);
    row.push(ROOT_KEY[1]);
    row.push(from_u64(spendable as u64));
    row.push(from_u64(spendable as u64));
    row.push(from_u64(off as u64));
    row.push(from_u64(units as u64));
    row.push(from_u64(base as u64));
    let ghost fixed = row@;
    assert(fixed =~= spend_fixed(payload, inv, spendable as int, off as int, units as int, base as int));
    push_positions(&mut row, off, units, cover);
    let ghost head = row@;
    let d = pow2_i128(depth);
    let g0: i128 = off as i128;
    let g1: i128 = spendable as i128 - off as i128 - units as i128;
    let g2: i128 = d - base as i128 - spendable as i128;
    let ghost gv = spend_gap_values(depth as int, base as int, spendable as int, off as int, units as int);
    let ghost m = pow2(RANGE_BITS as nat) as int;
    let b0 = bits_of(low_bits(g0));
    let b1 = bits_of(low_bits(g1));
    let b2 = bits_of(low_bits(g2));
    let z = zeros(RANGE_BITS);
    assert(b0@ =~= bits_seq(gv[0] % m));
    assert(b1@ =~= bits_seq(gv[1] % m));
    assert(b2@ =~= bits_seq(gv[2] % m));
    append(&mut row, b0.as_slice());
    append(&mut row, b1.as_slice());
    append(&mut row, b2.as_slice());
    append(&mut row, z.as_slice());
    let ghost rb = spend_range_bits(depth as int, base as int, spendable as int, off as int, units as int);
    assert(row@ =~= head + rb);
    proof {
        assert(all_canonical(head));
        assert forall|i: int| 0 <= i < rb.len() implies #[trigger] rb[i] < P by {
            assert(rb[i] < 2);
        }
        lemma_canonical_concat(head, rb);
    }
    row
}

/// The spend row for a payload, a requested run and a control.
#[verifier::rlimit(60)]
fn row_of<const R: usize, const DEPTH: usize, const COVER: usize>(
    payload: u64,
    units_want: Option<usize>,
    off_delta: usize,
    pindex: usize,
    part_units: usize,
    how: Option<SpendBreak>,
) -> (row: Vec<u64>)
    requires
        spend_row_ok(
            R as int,
            DEPTH as int,
            COVER as int,
            payload,
            units_want,
            off_delta as int,
            pindex as int,
            part_units as int,
            how,
        ),
    ensures
        row@[COL_INDEX_INV as int] < P,
        mul_spec(payload as int, row@[COL_INDEX_INV as int] as int) == 1,
        row@ == spend_row_spec(
            R as int,
            DEPTH as int,
            COVER as int,
            payload,
            row@[COL_INDEX_INV as int],
            units_want,
            off_delta as int,
            pindex as int,
            part_units as int,
            how,
        ),
        row@.len() == spend_row_width(COVER as int, block_width_spec(R as int)),
        all_canonical(row@),
        slots_generated(
            R as int,
            payload,
            pindex as int,
            row_offset(COVER as int, units_want, part_units as int, off_delta as int, how),
            run_units(COVER as int, units_want, part_units as int, off_delta as int),
            COVER as int,
        ),
{
    let bw = block_width::<R>();
    let l = layout(DEPTH, COVER, bw);
    let (spendable, base, off0, units) = interval(DEPTH, COVER, units_want, off_delta, pindex, part_units);
    let off = match how {
        Some(SpendBreak::RunPastBudget) => spendable - units + 1,
        _ => off0,
    };
    let inv = inverse(payload);
    assert(off + units <= spendable + 1);
    let mut row = spend_head(payload, inv, spendable, off, units, base, DEPTH, COVER);
    let (nodes, tail) = spend_slots::<R>(payload, base, off, units, COVER);
    append(&mut row, nodes.as_slice());
    append(&mut row, tail.as_slice());
    let ghost unbroken = spend_unbroken_row(
        R as int,
        DEPTH as int,
        COVER as int,
        payload,
        inv,
        units_want,
        off_delta as int,
        pindex as int,
        part_units as int,
        how,
    );
    assert(row@ =~= unbroken);
    proof {
        let pre = spend_fixed(payload, inv, spendable as int, off as int, units as int, base as int)
            + positions_spec(off as int, units as int, COVER as int) + spend_range_bits(
            DEPTH as int,
            base as int,
            spendable as int,
            off as int,
            units as int,
        );
        lemma_canonical_concat(pre, nodes@);
        lemma_canonical_concat(pre + nodes@, tail@);
    }
    proof {
        if COVER >= 1 {
            assert(COVER * block_width_spec(R as int) >= block_width_spec(R as int)) by (nonlinear_arith)
                requires
                    COVER >= 1,
                    R <= 1,
            ;
        }
    }
    apply_spend_break(&mut row, how, COVER);
    row
}

/// One row of the spend component, for the composed trace to place.
pub fn spend_row<const R: usize, const DEPTH: usize, const COVER: usize>(
    payload: u64,
    units_want: Option<usize>,
    off_delta: usize,
    pindex: usize,
    part: usize,
    how: Option<SpendBreak>,
) -> (row: Vec<u64>)
    requires
        spend_row_ok(
            R as int,
            DEPTH as int,
            COVER as int,
            payload,
            units_want,
            off_delta as int,
            pindex as int,
            part as int,
            how,
        ),
    ensures
        row@[COL_INDEX_INV as int] < P,
        mul_spec(payload as int, row@[COL_INDEX_INV as int] as int) == 1,
        row@ == spend_row_spec(
            R as int,
            DEPTH as int,
            COVER as int,
            payload,
            row@[COL_INDEX_INV as int],
            units_want,
            off_delta as int,
            pindex as int,
            part as int,
            how,
        ),
        row@.len() == spend_row_width(COVER as int, block_width_spec(R as int)),
        all_canonical(row@),
        slots_generated(
            R as int,
            payload,
            pindex as int,
            row_offset(COVER as int, units_want, part as int, off_delta as int, how),
            run_units(COVER as int, units_want, part as int, off_delta as int),
            COVER as int,
        ),
{
    let row = row_of::<R, DEPTH, COVER>(payload, units_want, off_delta, pindex, part, how);
    row
}

/// The inputs a trace is built on: a depth of at least two, so that half the
/// index space leaves room for a run, and a trace that fits the machine.
pub open spec fn spend_trace_ok(r: int, depth: int, cover: int, rows: int, how: Option<SpendBreak>) -> bool {
    &&& r == 0 || r == 1
    &&& 2 <= depth <= 64
    &&& pow2((depth - 1) as nat) + cover + 3 <= usize::MAX
    &&& spend_row_width(cover, block_width_spec(r)) <= usize::MAX
    &&& rows * spend_row_width(cover, block_width_spec(r)) <= usize::MAX
    &&& touches_slot(how) ==> cover >= 1
}

/// The row every trace repeats: the fixed payload, the whole run the slots
/// allow, the delegation at base index zero holding half the index space.
pub open spec fn spend_trace_row(r: int, depth: int, cover: int, inv: u64, how: Option<SpendBreak>) -> Seq<u64> {
    spend_row_spec(r, depth, cover, PAYLOAD, inv, None, 0, 0, pow2((depth - 1) as nat) as int, how)
}

/// The honest spend trace.
pub fn spend_trace<const R: usize, const DEPTH: usize, const COVER: usize>(rows: usize) -> (t: Trace)
    requires
        spend_trace_ok(R as int, DEPTH as int, COVER as int, rows as int, None),
    ensures
        t.wf(),
        exists|inv: u64|
            inv < P && mul_spec(PAYLOAD as int, inv as int) == 1 && #[trigger] t.repeats(
                spend_trace_row(R as int, DEPTH as int, COVER as int, inv, None),
                rows as int,
            ),
        DEPTH <= 40 ==> forall|k: int|
            0 <= k < rows ==> #[trigger] crate::expr::all_hold(
                spend_steps(R as int, DEPTH as nat, COVER as int, 0, false),
                R as int,
                t.row(k),
                seq![PAYLOAD],
            ),
{
    build::<R, DEPTH, COVER>(rows, None)
}

/// The spend trace with a control applied.
pub fn broken_spend<const R: usize, const DEPTH: usize, const COVER: usize>(
    rows: usize,
    how: SpendBreak,
) -> (t: Trace)
    requires
        spend_trace_ok(R as int, DEPTH as int, COVER as int, rows as int, Some(how)),
    ensures
        t.wf(),
        exists|inv: u64|
            inv < P && mul_spec(PAYLOAD as int, inv as int) == 1 && #[trigger] t.repeats(
                spend_trace_row(R as int, DEPTH as int, COVER as int, inv, Some(how)),
                rows as int,
            ),
        control_caught(Some(how), trace_units(DEPTH as int, COVER as int)) ==> forall|k: int, pv: Seq<u64>|
            0 <= k < rows ==> #[trigger] some_fails(
                spend_steps(R as int, DEPTH as nat, COVER as int, 0, false),
                R as int,
                t.row(k),
                pv,
            ),
{
    build::<R, DEPTH, COVER>(rows, Some(how))
}

/// `rows` copies of the spend row for the fixed payload.
#[verifier::spinoff_prover]
#[verifier::rlimit(80)]
pub fn build<const R: usize, const DEPTH: usize, const COVER: usize>(
    rows: usize,
    how: Option<SpendBreak>,
) -> (t: Trace)
    requires
        spend_trace_ok(R as int, DEPTH as int, COVER as int, rows as int, how),
    ensures
        t.wf(),
        exists|inv: u64|
            inv < P && mul_spec(PAYLOAD as int, inv as int) == 1 && #[trigger] t.repeats(
                spend_trace_row(R as int, DEPTH as int, COVER as int, inv, how),
                rows as int,
            ),
        how is None && DEPTH <= 40 ==> forall|k: int|
            0 <= k < rows ==> #[trigger] crate::expr::all_hold(
                spend_steps(R as int, DEPTH as nat, COVER as int, 0, false),
                R as int,
                t.row(k),
                seq![PAYLOAD],
            ),
        control_caught(how, trace_units(DEPTH as int, COVER as int)) ==> forall|k: int, pv: Seq<u64>|
            0 <= k < rows ==> #[trigger] some_fails(
                spend_steps(R as int, DEPTH as nat, COVER as int, 0, false),
                R as int,
                t.row(k),
                pv,
            ),
{
    proof {
        vstd::arithmetic::power2::lemma2_to64();
        if DEPTH > 2 {
            vstd::arithmetic::power2::lemma_pow2_strictly_increases(1, (DEPTH - 1) as nat);
        }
    }
    let part = pow2_i128(DEPTH - 1) as usize;
    assert(part >= 2);
    assert(part / 4 + 2 <= part);
    let row = spend_row::<R, DEPTH, COVER>(PAYLOAD, None, 0, 0, part, how);
    let ghost inv = row@[COL_INDEX_INV as int];
    let t = repeat(&row, rows);
    assert(t.repeats(spend_trace_row(R as int, DEPTH as int, COVER as int, inv, how), rows as int));
    assert(how is None && DEPTH <= 40 ==> forall|k: int|
        0 <= k < rows ==> #[trigger] crate::expr::all_hold(
            spend_steps(R as int, DEPTH as nat, COVER as int, 0, false),
            R as int,
            t.row(k),
            seq![PAYLOAD],
        )) by {
        if how is None && DEPTH <= 40 {
            vstd::arithmetic::power2::lemma2_to64();
            vstd::arithmetic::power2::lemma2_to64_rest();
            vstd::arithmetic::power2::lemma_pow2_unfold(DEPTH as nat);
            if DEPTH - 1 < 39 {
                vstd::arithmetic::power2::lemma_pow2_strictly_increases((DEPTH - 1) as nat, 39);
            }
            let bw = block_width_spec(R as int);
            assert(COVER * bw >= COVER * 94) by (nonlinear_arith)
                requires
                    COVER >= 0,
                    bw >= 94,
            ;
            assert(COVER * 94 <= usize::MAX);
            let units = run_units(COVER as int, None, part as int, 0);
            let off = row_offset(COVER as int, None, part as int, 0, None);
            let g = spend_gap_values(DEPTH as int, 0, part as int, off, units);
            assert(forall|k: int| 0 <= k < 3 ==> 0 <= #[trigger] g[k] < pow2(RANGE_BITS as nat));
            assert(crate::spend_accept::honest_ok(R as int, DEPTH as int, COVER as int, PAYLOAD, inv, None, 0, 0, part as int));
            assert forall|k: int| 0 <= k < rows implies #[trigger] crate::expr::all_hold(
                spend_steps(R as int, DEPTH as nat, COVER as int, 0, false),
                R as int,
                t.row(k),
                seq![PAYLOAD],
            ) by {
                lemma_repeats_row(t, row@, rows as int, k);
                crate::spend_accept::lemma_honest_spend_row_satisfies(
                    R as int,
                    DEPTH as int,
                    COVER as int,
                    PAYLOAD,
                    inv,
                    None,
                    0,
                    0,
                    part as int,
                    seq![PAYLOAD],
                );
            }
        }
    }
    assert(control_caught(how, trace_units(DEPTH as int, COVER as int)) ==> forall|k: int, pv: Seq<u64>|
        0 <= k < rows ==> #[trigger] some_fails(
            spend_steps(R as int, DEPTH as nat, COVER as int, 0, false),
            R as int,
            t.row(k),
            pv,
        )) by {
        if control_caught(how, trace_units(DEPTH as int, COVER as int)) {
            let b = how.unwrap();
            vstd::arithmetic::power2::lemma2_to64_rest();
            if DEPTH - 1 < 63 {
                vstd::arithmetic::power2::lemma_pow2_strictly_increases((DEPTH - 1) as nat, 63);
            }
            assert(part + 2 < P);
            assert forall|k: int, pv: Seq<u64>| 0 <= k < rows implies #[trigger] some_fails(
                spend_steps(R as int, DEPTH as nat, COVER as int, 0, false),
                R as int,
                t.row(k),
                pv,
            ) by {
                lemma_repeats_row(t, row@, rows as int, k);
                if b is Nullifier {
                    crate::spend_controls::lemma_nullifier_control_fails(
                        R as int,
                        DEPTH as int,
                        COVER as int,
                        PAYLOAD,
                        inv,
                        None,
                        0,
                        0,
                        part as int,
                        pv,
                    );
                } else if b is Key || b is RangeBase {
                    vstd::arithmetic::power2::lemma_pow2_unfold(DEPTH as nat);
                    crate::spend_controls::lemma_spend_key_and_base_controls_fail(
                        R as int,
                        DEPTH as int,
                        COVER as int,
                        PAYLOAD,
                        inv,
                        None,
                        0,
                        0,
                        part as int,
                        b,
                        pv,
                    );
                } else if b is Share || b is Units || b is Deactivate || b is CoarseSpan {
                    crate::spend_controls::lemma_spend_slot_controls_fail(
                        R as int,
                        DEPTH as int,
                        COVER as int,
                        PAYLOAD,
                        inv,
                        None,
                        0,
                        0,
                        part as int,
                        b,
                        pv,
                    );
                } else {
                    crate::spend_controls::lemma_spend_cell_controls_fail(
                        R as int,
                        DEPTH as int,
                        COVER as int,
                        PAYLOAD,
                        inv,
                        None,
                        0,
                        0,
                        part as int,
                        b,
                        pv,
                    );
                }
            }
        }
    }
    t
}

/// The input of the second invocation for slot `c`: the slot's key under
/// `DOMAIN_NULL`.
pub open spec fn null_input(row: Seq<u64>, node: int, c: int) -> Seq<u64> {
    seq![
        row[node + c * PER_NODE + NODE_KEY],
        row[node + c * PER_NODE + NODE_KEY + 1],
        DOMAIN_NULL,
        0,
        0,
        0,
        0,
        0,
    ]
}

/// The second invocation's block for slot `c`.
pub open spec fn null_block(r: int, row: Seq<u64>, node: int, c: int) -> Seq<u64> {
    poseidon2_trace_row(r, null_input(row, node, c))
}

/// Each of the first `cover` second-invocation blocks is a generator row
/// of the block width whose first `WIDTH` columns are its input.
pub open spec fn nulls_generated(r: int, row: Seq<u64>, node: int, cover: int) -> bool {
    forall|q: int|
        0 <= q < cover ==> (#[trigger] null_block(r, row, node, q)).len() == block_width_spec(r)
            && null_block(r, row, node, q).subrange(0, WIDTH as int) == null_input(row, node, q)
}

/// The second invocations' blocks of the first `k` slots.
pub open spec fn null_blocks(r: int, row: Seq<u64>, node: int, k: nat) -> Seq<u64>
    decreases k,
{
    if k == 0 {
        seq![]
    } else {
        null_blocks(r, row, node, (k - 1) as nat) + null_block(r, row, node, k - 1)
    }
}

/// `row` with the nullifiers of its first `k` slots replaced by the first
/// output lane of their second invocation.
pub open spec fn with_nulls(r: int, row: Seq<u64>, node: int, k: int) -> Seq<u64> {
    Seq::new(
        row.len(),
        |i: int|
            if node <= i < node + PER_NODE * k && (i - node) % (PER_NODE as int) == NODE_NULL {
                perm_out(null_block(r, row, node, (i - node) / (PER_NODE as int)))[0]
            } else {
                row[i]
            },
    )
}

/// The row of the second-invocation variant built from a spend row.
pub open spec fn spend_two_row(r: int, row: Seq<u64>, cover: int) -> Seq<u64> {
    let node = node_base_spec(cover);
    with_nulls(r, row, node, cover) + null_blocks(r, row, node, cover as nat)
}

/// The same payment under the second-invocation variant: the spend row with
/// each slot's nullifier replaced by the first output of a permutation of
/// its key under `DOMAIN_NULL`, and those permutations' columns appended.
#[verifier::spinoff_prover]
#[verifier::rlimit(80)]
pub fn spend_two_trace<const R: usize, const DEPTH: usize, const COVER: usize>(rows: usize) -> (t: Trace)
    requires
        spend_trace_ok(R as int, DEPTH as int, COVER as int, rows as int, None),
        spend_row_width(COVER as int, block_width_spec(R as int)) + COVER * block_width_spec(R as int)
            <= usize::MAX,
        rows * (spend_row_width(COVER as int, block_width_spec(R as int)) + COVER * block_width_spec(
            R as int,
        )) <= usize::MAX,
    ensures
        t.wf(),
        exists|inv: u64|
            inv < P && mul_spec(PAYLOAD as int, inv as int) == 1 && #[trigger] t.repeats(
                spend_two_row(
                    R as int,
                    spend_trace_row(R as int, DEPTH as int, COVER as int, inv, None),
                    COVER as int,
                ),
                rows as int,
            ),
        DEPTH <= 40 ==> forall|k: int|
            0 <= k < rows ==> #[trigger] crate::expr::all_hold(
                crate::spend2::spend_two_steps(R as int, DEPTH as int, COVER as int),
                R as int,
                t.row(k),
                seq![PAYLOAD],
            ),
{
    proof {
        vstd::arithmetic::power2::lemma2_to64();
        if DEPTH > 2 {
            vstd::arithmetic::power2::lemma_pow2_strictly_increases(1, (DEPTH - 1) as nat);
        }
        assert(COVER * block_width_spec(R as int) >= 0) by (nonlinear_arith)
            requires
                R <= 1,
        ;
    }
    let bw = block_width::<R>();
    let l = layout(DEPTH, COVER, bw);
    let part = pow2_i128(DEPTH - 1) as usize;
    assert(part / 4 + 2 <= part);
    let mut row = spend_row::<R, DEPTH, COVER>(PAYLOAD, None, 0, 0, part, None);
    let ghost r0 = row@;
    let ghost inv = r0[COL_INDEX_INV as int];
    let ghost node = node_base_spec(COVER as int);
    let mut tail: Vec<u64> = Vec::new();
    let mut c: usize = 0;
    assert(row@ =~= with_nulls(R as int, r0, node, 0));
    while c < COVER
        invariant
            R == 0 || R == 1,
            bw == block_width_spec(R as int),
            l.node == node,
            node == node_base_spec(COVER as int),
            r0.len() == spend_row_width(COVER as int, bw as int),
            all_canonical(r0),
            c <= COVER,
            row@ == with_nulls(R as int, r0, node, c as int),
            tail@ == null_blocks(R as int, r0, node, c as nat),
            nulls_generated(R as int, r0, node, c as int),
            tail@.len() == c * bw,
            spend_row_width(COVER as int, bw as int) + COVER * bw <= usize::MAX,
            COVER * bw >= 0,
        decreases COVER - c,
    {
        assert(PER_NODE == 6);
        let n = l.node + c * PER_NODE;
        proof {
            vstd::arithmetic::div_mod::lemma_mod_multiples_vanish(c as int, 1, 6);
            vstd::arithmetic::div_mod::lemma_mod_multiples_vanish(c as int, 2, 6);
            vstd::arithmetic::div_mod::lemma_mod_multiples_vanish(c as int, 5, 6);
            vstd::arithmetic::div_mod::lemma_div_multiples_vanish_fancy(c as int, 5, 6);
            assert(6 * c == c * 6) by (nonlinear_arith);
        }
        assert(row@[n + NODE_KEY] == r0[n + NODE_KEY]);
        assert(row@[n + NODE_KEY + 1] == r0[n + NODE_KEY + 1]);
        let mut state = [0u64; WIDTH];
        state[0] = row[n + NODE_KEY];
        state[1] = row[n + NODE_KEY + 1];
        state[2] = DOMAIN_NULL;
        assert(state@ =~= null_input(r0, node, c as int));
        let prow = perm_row::<R>(state);
        assert(prow@ == null_block(R as int, r0, node, c as int));
        let outp = perm_output::<R>(prow.as_slice());
        row.set(n + NODE_NULL, outp[0]);
        let ghost t0 = tail@;
        append(&mut tail, prow.as_slice());
        proof {
            assert((c + 1) * bw == c * bw + bw) by (nonlinear_arith);
            assert forall|i: int| 0 <= i < r0.len() implies #[trigger] row@[i] == with_nulls(
                R as int,
                r0,
                node,
                c + 1,
            )[i] by {
                if node <= i < node + PER_NODE * (c + 1) && (i - node) % (PER_NODE as int) == NODE_NULL {
                    if i != n + NODE_NULL {
                        assert((i - node) / (PER_NODE as int) < c);
                    }
                }
            }
            assert(row@ =~= with_nulls(R as int, r0, node, c + 1));
        }
        c += 1;
    }
    append(&mut row, tail.as_slice());
    assert(row@ =~= spend_two_row(R as int, r0, COVER as int));
    let t = repeat(&row, rows);
    assert(t.repeats(
        spend_two_row(R as int, spend_trace_row(R as int, DEPTH as int, COVER as int, inv, None), COVER as int),
        rows as int,
    ));
    assert(DEPTH <= 40 ==> forall|k: int|
        0 <= k < rows ==> #[trigger] crate::expr::all_hold(
            crate::spend2::spend_two_steps(R as int, DEPTH as int, COVER as int),
            R as int,
            t.row(k),
            seq![PAYLOAD],
        )) by {
        if DEPTH <= 40 {
            vstd::arithmetic::power2::lemma2_to64();
            vstd::arithmetic::power2::lemma2_to64_rest();
            vstd::arithmetic::power2::lemma_pow2_unfold(DEPTH as nat);
            if DEPTH - 1 < 39 {
                vstd::arithmetic::power2::lemma_pow2_strictly_increases((DEPTH - 1) as nat, 39);
            }
            assert(COVER * bw >= COVER * 94) by (nonlinear_arith)
                requires
                    COVER >= 0,
                    bw >= 94,
            ;
            assert(COVER * 94 <= usize::MAX);
            let units = run_units(COVER as int, None, part as int, 0);
            let off = row_offset(COVER as int, None, part as int, 0, None);
            let g = spend_gap_values(DEPTH as int, 0, part as int, off, units);
            assert(forall|k: int| 0 <= k < 3 ==> 0 <= #[trigger] g[k] < pow2(RANGE_BITS as nat));
            assert(crate::spend_accept::honest_ok(R as int, DEPTH as int, COVER as int, PAYLOAD, inv, None, 0, 0, part as int));
            assert forall|k: int| 0 <= k < rows implies #[trigger] crate::expr::all_hold(
                crate::spend2::spend_two_steps(R as int, DEPTH as int, COVER as int),
                R as int,
                t.row(k),
                seq![PAYLOAD],
            ) by {
                lemma_repeats_row(t, row@, rows as int, k);
                crate::spend_two_accept::lemma_spend_two_row_satisfies(
                    R as int,
                    DEPTH as int,
                    COVER as int,
                    PAYLOAD,
                    inv,
                    None,
                    0,
                    0,
                    part as int,
                    seq![PAYLOAD],
                );
            }
        }
    }
    t
}

/// Two to the `k`, built by doubling.
fn pow2_i128(k: usize) -> (p: i128)
    requires
        k <= 64,
    ensures
        p == pow2(k as nat),
{
    let mut p: i128 = 1;
    let mut i: usize = 0;
    proof {
        vstd::arithmetic::power2::lemma2_to64();
    }
    while i < k
        invariant
            i <= k <= 64,
            p == pow2(i as nat),
        decreases k - i,
    {
        proof {
            vstd::arithmetic::power2::lemma_pow2_unfold((i + 1) as nat);
            vstd::arithmetic::power2::lemma_pow2_strictly_increases(i as nat, 64);
            assert(pow2(64) == 0x1_0000_0000_0000_0000) by {
                vstd::arithmetic::power2::lemma2_to64_rest();
            }
            assert(p < 0x1_0000_0000_0000_0000);
        }
        p = p + p;
        i += 1;
    }
    p
}

} // verus!
