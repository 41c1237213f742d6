# circuits

The constraint systems of a private bounded-delegation scheme, and the traces
they are proved over, as a Verus library.

A circuit is data: a list of steps over one trace row, each either a Poseidon2
permutation block placed at a column or one polynomial assertion over the
row's columns and the public values (`src/expr.rs`). Every circuit of the
scheme is built as such a list, and its contract states the list exactly:

- `air.rs` the policy clauses and their range checks; `full.rs` the clauses
  with the C9 opening sponge; `merkle.rs` inclusion paths; `revocation.rs`
  C8 non-membership; `whole.rs` the compliance circuit; `spend.rs` and
  `spend2.rs` the accountability circuit; `composed.rs` both halves as one
  statement; `vacuous.rs` the compliance circuit without C9's policy binding;
  `containment.rs` sub-delegation containment.
- `trace.rs`, `witness.rs` and `spend_trace.rs` build the traces the circuits
  are proved over and every negative control, with contracts over the rows
  they produce;
  `acceptance.rs` proves that the whole compliance row satisfies the whole
  circuit, `spend_accept.rs` that the honest spend row satisfies the
  spend circuit, `composed_accept.rs` that the composed row satisfies the
  composed circuit, and `spend_two_accept.rs` that the second-invocation row
  satisfies the second-invocation circuit (`spend_frame.rs` and
  `whole_frame.rs` place the halves at their columns); `spend_controls.rs` and `composed_controls.rs` prove that
  each negative control makes its row fail.
- `trace.rs` states exactly which rows the policy circuit accepts, in the
  field. `soundness.rs`, with the guarantees proved beside each circuit,
  states what an accepting row means, taking the range-check, direction and active
  cells of the row to be bits (each is a root of x(x - 1), a bit because p
  is prime, which is not proved here), and taking a permutation block to
  hold exactly when it is the generator's row for its input lanes (the
  meaning `Step::Hash` is given in `expr.rs`, assumed of the Poseidon2 AIR
  rather than proved): the commitment is the sponge over the policy
  columns the clauses read, the payload digest the sponge over the payment's
  fields, the allowlist paths end in the committed roots, and the consumed
  run lies outside every revoked range; `composed.rs` adds what the ties
  between the two halves guarantee of the unit size, the run and the amount;
  `spend_two_accept.rs` that each nullifier is the second permutation of its
  key; and `containment_sound.rs` that both policy blocks open the public
  commitments and the child's grant lies within the parent's.
- `field.rs` is Goldilocks arithmetic; `hash.rs` and `gen.rs` reach
  `p3-poseidon2-air` for block widths and permutation rows, behind trusted
  wrappers whose contracts name the generated row.

`app/` is the harness: it hands each list of steps to Plonky3 as an AIR, proves
and verifies the traces under a hiding FRI configuration, and prints the
measurements.
