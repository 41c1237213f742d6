//! Witness generation for permutation blocks, and the sponge built from them.
use crate::field::{all_canonical, from_u64, P};
use crate::hash::{block_width, block_width_spec, HALF_FULL_ROUNDS, PARTIAL_ROUNDS, SBOX_DEGREE, WIDTH};
use p3_field::PrimeField64;
use p3_goldilocks::{
    GenericPoseidon2LinearLayersGoldilocks, Goldilocks, GOLDILOCKS_POSEIDON2_RC_8_EXTERNAL_FINAL,
    GOLDILOCKS_POSEIDON2_RC_8_EXTERNAL_INITIAL, GOLDILOCKS_POSEIDON2_RC_8_INTERNAL,
};
use p3_poseidon2_air::{generate_trace_rows, num_cols, RoundConstants};
use vstd::prelude::*;

verus! {

/// The columns `p3_poseidon2_air::generate_trace_rows` writes for one
/// permutation of `input` at `registers` S-box registers, under the published
/// Goldilocks width-8 round constants, each as its canonical value.
pub uninterp spec fn poseidon2_trace_row(registers: int, input: Seq<u64>) -> Seq<u64>;

/// One permutation's worth of columns for a given input state.
///
/// Calls `p3_poseidon2_air::generate_trace_rows` on two copies of the input
/// (it insists on a power-of-two row count) with the published round
/// constants, and keeps the first row. The contract names the row
/// `poseidon2_trace_row`, and states what the generator's source shows of it:
/// the block is `num_cols` wide, every entry is a canonical field element, and
/// the first `WIDTH` columns are the input itself. What the rounds compute is
/// left unsaid. The generator panics for register counts other than zero and
/// one at degree 7, which `requires` excludes.
#[verifier::external_body]
pub fn perm_row<const R: usize>(input: [u64; WIDTH]) -> (row: Vec<u64>)
    requires
        R == 0 || R == 1,
        all_canonical(input@),
    ensures
        row@ == poseidon2_trace_row(R as int, input@),
        row@.len() == block_width_spec(R as int),
        all_canonical(row@),
        row@.subrange(0, WIDTH as int) == input@,
{
    let state: [Goldilocks; WIDTH] = input.map(Goldilocks::new);
    let constants = RoundConstants::new(
        GOLDILOCKS_POSEIDON2_RC_8_EXTERNAL_INITIAL,
        GOLDILOCKS_POSEIDON2_RC_8_INTERNAL,
        GOLDILOCKS_POSEIDON2_RC_8_EXTERNAL_FINAL,
    );
    let m = generate_trace_rows::<Goldilocks, GenericPoseidon2LinearLayersGoldilocks, WIDTH,
        SBOX_DEGREE, R, HALF_FULL_ROUNDS, PARTIAL_ROUNDS>(vec![state, state], &constants, 0);
    let cols = num_cols::<WIDTH, SBOX_DEGREE, R, HALF_FULL_ROUNDS, PARTIAL_ROUNDS>();
    m.values[..cols].iter().map(|x| x.as_canonical_u64()).collect()
}

/// What the generator's contract states of its row for an input it has been
/// run on: the block width, the input in the first lanes, canonical entries.
pub open spec fn generated(r: int, input: Seq<u64>) -> bool {
    &&& poseidon2_trace_row(r, input).len() == block_width_spec(r)
    &&& poseidon2_trace_row(r, input).subrange(0, WIDTH as int) == input
    &&& all_canonical(poseidon2_trace_row(r, input))
}

/// The permutation output held by a block: its last `WIDTH` columns.
pub open spec fn perm_out(row: Seq<u64>) -> Seq<u64> {
    row.subrange(row.len() - WIDTH, row.len() as int)
}

/// The permutation output, which the block layout places in its final
/// `WIDTH` columns.
pub fn perm_output<const R: usize>(row: &[u64]) -> (out: [u64; WIDTH])
    requires
        R <= 1,
        row@.len() == block_width_spec(R as int),
    ensures
        out@ == perm_out(row@),
{
    let cols = block_width::<R>();
    let mut out = [0u64; WIDTH];
    let mut j: usize = 0;
    while j < WIDTH
        invariant
            j <= WIDTH,
            cols == row@.len(),
            cols >= WIDTH,
            out@.len() == WIDTH,
            forall|k: int| 0 <= k < j ==> out@[k] == row@[cols - WIDTH + k],
        decreases WIDTH - j,
    {
        out[j] = row[cols - WIDTH + j];
        j += 1;
    }
    assert(out@ =~= perm_out(row@));
    out
}

/// A state with the first lanes overwritten by an absorbed chunk.
pub open spec fn absorb(state: Seq<u64>, chunk: Seq<u64>) -> Seq<u64> {
    Seq::new(WIDTH as nat, |i: int| if i < chunk.len() { chunk[i] } else { state[i] })
}

/// The sponge's starting state: zero everywhere except the first capacity
/// lane, which holds the domain separator.
pub open spec fn sponge_start(rate: int, domain: u64) -> Seq<u64> {
    Seq::new(WIDTH as nat, |i: int| if i == rate { domain % P } else { 0 })
}

/// The blocks a sponge produces from `state` over `elements`: each step
/// overwrites the rate lanes with the next chunk, permutes, and carries the
/// whole output into the next step.
pub open spec fn sponge_from(r: int, state: Seq<u64>, elements: Seq<u64>, rate: int) -> Seq<
    Seq<u64>,
>
    decreases elements.len(),
{
    if elements.len() == 0 || rate <= 0 {
        seq![]
    } else {
        let k = if rate < elements.len() {
            rate
        } else {
            elements.len() as int
        };
        let row = poseidon2_trace_row(r, absorb(state, elements.take(k)));
        seq![row] + sponge_from(r, perm_out(row), elements.skip(k), rate)
    }
}

/// The permutation inputs of a sponge from `state` over `elements`: each
/// step's state with the next chunk written over its rate lanes.
pub open spec fn sponge_inputs(r: int, state: Seq<u64>, elements: Seq<u64>, rate: int) -> Seq<
    Seq<u64>,
>
    decreases elements.len(),
{
    if elements.len() == 0 || rate <= 0 {
        seq![]
    } else {
        let k = if rate < elements.len() {
            rate
        } else {
            elements.len() as int
        };
        let input = absorb(state, elements.take(k));
        seq![input] + sponge_inputs(r, perm_out(poseidon2_trace_row(r, input)), elements.skip(k), rate)
    }
}

/// Each block of a sponge is the generator's row for the matching input.
pub proof fn lemma_sponge_rows(r: int, state: Seq<u64>, elements: Seq<u64>, rate: int)
    ensures
        sponge_from(r, state, elements, rate).len() == sponge_inputs(r, state, elements, rate).len(),
        forall|i: int|
            0 <= i < sponge_from(r, state, elements, rate).len() ==> #[trigger] sponge_from(
                r,
                state,
                elements,
                rate,
            )[i] == poseidon2_trace_row(r, sponge_inputs(r, state, elements, rate)[i]),
    decreases elements.len(),
{
    if elements.len() > 0 && rate > 0 {
        let k = if rate < elements.len() {
            rate
        } else {
            elements.len() as int
        };
        let input = absorb(state, elements.take(k));
        let next = perm_out(poseidon2_trace_row(r, input));
        lemma_sponge_rows(r, next, elements.skip(k), rate);
        let rows = sponge_from(r, state, elements, rate);
        let ins = sponge_inputs(r, state, elements, rate);
        assert forall|i: int| 0 <= i < rows.len() implies #[trigger] rows[i] == poseidon2_trace_row(
            r,
            ins[i],
        ) by {
            if i > 0 {
                assert(rows[i] == sponge_from(r, next, elements.skip(k), rate)[i - 1]);
                assert(ins[i] == sponge_inputs(r, next, elements.skip(k), rate)[i - 1]);
            }
        }
    }
}

/// At rate four, element `q` of a sponge's input sits in lane `q % 4` of
/// step `q / 4`'s input.
pub proof fn lemma_sponge_lanes(r: int, state: Seq<u64>, elements: Seq<u64>)
    ensures
        forall|q: int|
            0 <= q < elements.len() ==> #[trigger] sponge_inputs(r, state, elements, 4)[q / 4][q % 4]
                == elements[q],
        sponge_inputs(r, state, elements, 4).len() == (elements.len() + 3) / 4,
    decreases elements.len(),
{
    if elements.len() > 0 {
        let k = if 4 < elements.len() {
            4
        } else {
            elements.len() as int
        };
        let input = absorb(state, elements.take(k));
        let next = perm_out(poseidon2_trace_row(r, input));
        lemma_sponge_lanes(r, next, elements.skip(k));
        let ins = sponge_inputs(r, state, elements, 4);
        let rest = sponge_inputs(r, next, elements.skip(k), 4);
        assert forall|q: int| 0 <= q < elements.len() implies #[trigger] ins[q / 4][q % 4]
            == elements[q] by {
            if q < 4 {
                assert(ins[0] == input);
            } else {
                let q2 = q - 4;
                assert(q2 / 4 == q / 4 - 1);
                assert(q2 % 4 == q % 4);
                assert(ins[q / 4] == rest[q2 / 4]);
                assert(rest[q2 / 4][q2 % 4] == elements.skip(k)[q2]);
            }
        }
    }
}

/// The lanes of a sponge's first input past the first chunk hold the
/// starting state.
pub proof fn lemma_sponge_first(r: int, state: Seq<u64>, elements: Seq<u64>, lane: int)
    requires
        elements.len() > 0,
        (if 4 < elements.len() { 4 } else { elements.len() as int }) <= lane < WIDTH,
    ensures
        sponge_inputs(r, state, elements, 4)[0][lane] == state[lane],
{
}

/// Step `i` of a sponge carries every lane it does not absorb from step
/// `i - 1`'s output.
pub proof fn lemma_sponge_chain(r: int, state: Seq<u64>, elements: Seq<u64>, i: int, lane: int)
    requires
        1 <= i,
        i * 4 < elements.len(),
        (if 4 < elements.len() - i * 4 { 4 } else { elements.len() - i * 4 }) <= lane < WIDTH,
    ensures
        sponge_inputs(r, state, elements, 4)[i][lane] == perm_out(
            poseidon2_trace_row(r, sponge_inputs(r, state, elements, 4)[i - 1]),
        )[lane],
    decreases i,
{
    let k = if 4 < elements.len() {
        4
    } else {
        elements.len() as int
    };
    assert(k == 4);
    let input = absorb(state, elements.take(k));
    let next = perm_out(poseidon2_trace_row(r, input));
    let rest = elements.skip(k);
    let ins = sponge_inputs(r, state, elements, 4);
    let tail = sponge_inputs(r, next, rest, 4);
    assert(ins == seq![input] + tail);
    assert(rest.len() > 0);
    lemma_sponge_lanes(r, state, elements);
    lemma_sponge_lanes(r, next, rest);
    assert(i < ins.len());
    if i > 1 {
        lemma_sponge_chain(r, next, rest, i - 1, lane);
        assert(ins[i] == tail[i - 1]);
        assert(ins[i - 1] == tail[i - 2]);
    } else {
        let k2 = if 4 < rest.len() { 4 } else { rest.len() as int };
        assert(tail[0] == absorb(next, rest.take(k2)));
        assert(ins[1] == tail[0]);
        assert(ins[0] == input);
    }
}

/// The sponge over `elements` at the given rate and domain separator.
pub open spec fn sponge_spec(r: int, elements: Seq<u64>, rate: int, domain: u64) -> Seq<
    Seq<u64>,
> {
    sponge_from(r, sponge_start(rate, domain), elements, rate)
}

/// The blocks held by a vector of rows.
pub open spec fn rows_view(rows: Seq<Vec<u64>>) -> Seq<Seq<u64>> {
    rows.map_values(|v: Vec<u64>| v@)
}

/// Absorb `elements` in rate-sized chunks, overwriting the rate lanes and
/// carrying the capacity, and return one row per permutation. The first
/// capacity lane starts at the domain separator rather than at zero, so two
/// sponges over the same elements in different roles diverge from the outset.
pub fn sponge<const R: usize>(elements: &[u64], rate: usize, domain: u64) -> (rows: Vec<Vec<u64>>)
    requires
        R == 0 || R == 1,
        0 < rate < WIDTH,
        all_canonical(elements@),
    ensures
        rows_view(rows@) == sponge_spec(R as int, elements@, rate as int, domain),
        forall|i: int|
            0 <= i < rows@.len() ==> (#[trigger] rows@[i])@.len() == block_width_spec(R as int),
        forall|i: int| 0 <= i < rows@.len() ==> all_canonical((#[trigger] rows@[i])@),
        sponge_inputs(R as int, sponge_start(rate as int, domain), elements@, rate as int).len()
            == rows@.len(),
        forall|i: int|
            0 <= i < rows@.len() ==> #[trigger] generated(
                R as int,
                sponge_inputs(R as int, sponge_start(rate as int, domain), elements@, rate as int)[i],
            ),
{
    let mut state = [0u64; WIDTH];
    state[rate] = from_u64(domain);
    assert(state@ =~= sponge_start(rate as int, domain));
    let mut rows: Vec<Vec<u64>> = Vec::new();
    let n = elements.len();
    let mut i: usize = 0;
    assert(elements@.skip(0) =~= elements@);
    assert(rows_view(rows@) =~= Seq::<Seq<u64>>::empty());
    assert(Seq::<Seq<u64>>::empty() + sponge_spec(R as int, elements@, rate as int, domain)
        =~= sponge_spec(R as int, elements@, rate as int, domain));
    let ghost all_inputs = sponge_inputs(R as int, sponge_start(rate as int, domain), elements@, rate as int);
    let ghost mut done: Seq<Seq<u64>> = seq![];
    assert(done + sponge_inputs(R as int, state@, elements@.skip(0), rate as int) =~= all_inputs);
    while i < n
        invariant
            0 < rate < WIDTH,
            R == 0 || R == 1,
            n == elements@.len(),
            i <= n,
            all_canonical(elements@),
            all_canonical(state@),
            state@.len() == WIDTH,
            rows_view(rows@) + sponge_from(R as int, state@, elements@.skip(i as int), rate as int)
                == sponge_spec(R as int, elements@, rate as int, domain),
            forall|k: int|
                0 <= k < rows@.len() ==> (#[trigger] rows@[k])@.len() == block_width_spec(
                    R as int,
                ),
            forall|k: int| 0 <= k < rows@.len() ==> all_canonical((#[trigger] rows@[k])@),
            all_inputs == sponge_inputs(R as int, sponge_start(rate as int, domain), elements@, rate as int),
            done + sponge_inputs(R as int, state@, elements@.skip(i as int), rate as int) == all_inputs,
            done.len() == rows@.len(),
            forall|k: int| 0 <= k < done.len() ==> #[trigger] generated(R as int, done[k]),
        decreases n - i,
    {
        let take = if n - i > rate {
            rate
        } else {
            n - i
        };
        let ghost old_state = state@;
        let ghost rest = elements@.skip(i as int);
        let mut j: usize = 0;
        while j < take
            invariant
                take <= rate < WIDTH,
                i + take <= n,
                n == elements@.len(),
                state@.len() == WIDTH,
                j <= take,
                all_canonical(elements@),
                all_canonical(old_state),
                old_state.len() == WIDTH,
                forall|k: int| 0 <= k < j ==> state@[k] == elements@[i + k],
                forall|k: int| j <= k < WIDTH ==> state@[k] == old_state[k],
            decreases take - j,
        {
            state[j] = elements[i + j];
            j += 1;
        }
        assert(state@ =~= absorb(old_state, rest.take(take as int)));
        assert(all_canonical(state@));
        let row = perm_row::<R>(state);
        state = perm_output::<R>(&row);
        proof {
            assert(rest.skip(take as int) =~= elements@.skip(i + take));
            let tail = sponge_from(R as int, state@, rest.skip(take as int), rate as int);
            assert(sponge_from(R as int, old_state, rest, rate as int) == seq![row@] + tail);
            assert(rows_view(rows@.push(row)) =~= rows_view(rows@).push(row@));
            assert(rows_view(rows@).push(row@) + tail =~= rows_view(rows@) + (seq![row@]
                + tail));
            assert forall|k: int| 0 <= k < WIDTH implies #[trigger] state@[k] < P by {
                assert(state@[k] == row@[row@.len() - WIDTH + k]);
            }
            let input = absorb(old_state, rest.take(take as int));
            assert(generated(R as int, input));
            assert(sponge_inputs(R as int, old_state, rest, rate as int) == seq![input]
                + sponge_inputs(R as int, state@, rest.skip(take as int), rate as int));
            done = done.push(input);
            assert(done.drop_last() + (seq![input] + sponge_inputs(
                R as int,
                state@,
                elements@.skip(i + take),
                rate as int,
            )) =~= done + sponge_inputs(R as int, state@, elements@.skip(i + take), rate as int));
        }
        rows.push(row);
        i = i + take;
    }
    assert(sponge_inputs(R as int, state@, elements@.skip(i as int), rate as int) =~= Seq::<Seq<u64>>::empty());
    assert(done =~= all_inputs);
    assert(elements@.skip(n as int) =~= Seq::<u64>::empty());
    assert(rows_view(rows@) + Seq::<Seq<u64>>::empty() =~= rows_view(rows@));
    rows
}

} // verus!
