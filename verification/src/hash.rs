//! Parameters of the Poseidon2 permutation the circuits use, and the column
//! layout of one permutation block.
use p3_poseidon2_air::num_cols;
use vstd::prelude::*;

verus! {

pub const WIDTH: usize = 8;

pub const SBOX_DEGREE: u64 = 7;

pub const HALF_FULL_ROUNDS: usize = 4;

pub const PARTIAL_ROUNDS: usize = 22;

/// Domain separators absorbed by each in-circuit use of the permutation, so
/// that a collision found in one cannot be transported to another. The
/// opening sponge starts its capacity at `DOMAIN_OPENING`; key derivation
/// carries `DOMAIN_KEY` in the lane after the direction bit; Merkle
/// compression needs no tag because its input occupies the full width.
pub const DOMAIN_OPENING: u64 = 1;

pub const DOMAIN_KEY: u64 = 2;

/// Padding slots derive their key from the root key, the payload digest and
/// the slot position, under a separator of their own.
pub const DOMAIN_PAD: u64 = 3;

/// The payload sponge, which computes H(m) from the payment's own columns.
pub const DOMAIN_PAYLOAD: u64 = 4;

/// The nullifier, when it is derived by a second invocation.
pub const DOMAIN_NULL: u64 = 5;

/// Columns of one permutation block at `r` S-box registers: the inputs, two
/// half-runs of full rounds each holding the S-box registers and the post
/// state of every lane, and the partial rounds each holding the registers and
/// the S-box output of the first lane: 8 + 2 * 4 * (8r + 8) + 22 * (r + 1).
pub open spec fn block_width_spec(r: int) -> int {
    94 + 86 * r
}

/// `p3_poseidon2_air::num_cols` at this width, degree and round counts. The
/// function is the size of a `repr(C)` struct of `u8` arrays laid out as
/// `block_width_spec` counts them, and the contract claims exactly that count.
#[verifier::external_body]
pub fn block_width<const R: usize>() -> (n: usize)
    requires
        R <= 0xFFFF,
    ensures
        n == block_width_spec(R as int),
{
    num_cols::<WIDTH, SBOX_DEGREE, R, HALF_FULL_ROUNDS, PARTIAL_ROUNDS>()
}

/// The permutation output is the post state of the final full round, so it
/// occupies the last `WIDTH` columns of the block.
pub fn output_offset<const R: usize>() -> (n: usize)
    requires
        R <= 0xFFFF,
    ensures
        n == block_width_spec(R as int) - WIDTH,
{
    block_width::<R>() - WIDTH
}

} // verus!
