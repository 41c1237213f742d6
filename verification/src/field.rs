//! The Goldilocks field, p = 2^64 - 2^32 + 1, with elements held as their
//! canonical representatives in [0, p).
use p3_field::{Field, PrimeField64};
use p3_goldilocks::Goldilocks;
use vstd::prelude::*;

verus! {

/// The field order.
pub const P: u64 = 0xFFFF_FFFF_0000_0001u64;

/// A canonical field element.
pub open spec fn canonical(x: u64) -> bool {
    x < P
}

/// Every entry of a sequence is a canonical field element.
pub open spec fn all_canonical(s: Seq<u64>) -> bool {
    forall|i: int| 0 <= i < s.len() ==> #[trigger] s[i] < P
}

pub open spec fn add_spec(a: int, b: int) -> int {
    (a + b) % (P as int)
}

pub open spec fn sub_spec(a: int, b: int) -> int {
    (a - b) % (P as int)
}

pub open spec fn mul_spec(a: int, b: int) -> int {
    (a * b) % (P as int)
}

/// `x` reduced into the field, as `Goldilocks::from_u64` does.
pub fn from_u64(x: u64) -> (r: u64)
    ensures
        r == x % P,
        r < P,
{
    x % P
}

/// Both halves of a concatenation hold canonical elements.
pub proof fn lemma_canonical_concat(a: Seq<u64>, b: Seq<u64>)
    requires
        all_canonical(a),
        all_canonical(b),
    ensures
        all_canonical(a + b),
{
    assert forall|i: int| 0 <= i < (a + b).len() implies #[trigger] (a + b)[i] < P by {
        if i < a.len() {
            assert((a + b)[i] == a[i]);
        } else {
            assert((a + b)[i] == b[i - a.len()]);
        }
    }
}

/// Two canonical elements equal in the field are equal.
pub proof fn lemma_canonical_eq(a: int, b: int)
    requires
        0 <= a < P,
        0 <= b < P,
        (a - b) % (P as int) == 0,
    ensures
        a == b,
{
    if a > b {
        vstd::arithmetic::div_mod::lemma_small_mod((a - b) as nat, P as nat);
    } else if a < b {
        vstd::arithmetic::div_mod::lemma_mod_multiples_vanish(1, a - b, P as int);
        vstd::arithmetic::div_mod::lemma_small_mod((a - b + P) as nat, P as nat);
    }
}

/// A canonical element equal in the field to an integer is that integer
/// reduced.
pub proof fn lemma_canonical_reduces(a: int, x: int)
    requires
        0 <= a < P,
        (a - x) % (P as int) == 0,
    ensures
        a == x % (P as int),
{
    vstd::arithmetic::div_mod::lemma_fundamental_div_mod(a - x, P as int);
    vstd::arithmetic::div_mod::lemma_mod_multiples_vanish((a - x) / (P as int), x, P as int);
    vstd::arithmetic::div_mod::lemma_small_mod(a as nat, P as nat);
}

/// Field addition.
pub fn fadd(a: u64, b: u64) -> (r: u64)
    requires
        a < P,
        b < P,
    ensures
        r == add_spec(a as int, b as int),
        r < P,
{
    let s: u128 = (a as u128) + (b as u128);
    let r: u128 = s % (P as u128);
    r as u64
}

/// Field subtraction.
pub fn fsub(a: u64, b: u64) -> (r: u64)
    requires
        a < P,
        b < P,
    ensures
        r == sub_spec(a as int, b as int),
        r < P,
{
    let s: u128 = (a as u128) + (P as u128) - (b as u128);
    let r: u128 = s % (P as u128);
    proof {
        assert(((a as int) + (P as int) - (b as int)) % (P as int) == ((a as int) - (b as int))
            % (P as int)) by {
            vstd::arithmetic::div_mod::lemma_mod_add_multiples_vanish(
                (a as int) - (b as int),
                P as int,
            );
        }
    }
    r as u64
}

/// Field multiplication.
pub fn fmul(a: u64, b: u64) -> (r: u64)
    requires
        a < P,
        b < P,
    ensures
        r == mul_spec(a as int, b as int),
        r < P,
{
    let x: u128 = a as u128;
    let y: u128 = b as u128;
    assert(x * y <= 0xFFFF_FFFF_FFFF_FFFFu128 * 0xFFFF_FFFF_FFFF_FFFFu128) by (nonlinear_arith)
        requires
            x <= 0xFFFF_FFFF_FFFF_FFFFu128,
            y <= 0xFFFF_FFFF_FFFF_FFFFu128,
    ;
    let s: u128 = x * y;
    let r: u128 = s % (P as u128);
    r as u64
}

/// The multiplicative inverse of a non-zero element, as `Field::inverse` on
/// `Goldilocks` computes it. The contract claims that the result is canonical
/// and that its product with the argument is one in the field.
#[verifier::external_body]
pub fn inverse(a: u64) -> (r: u64)
    requires
        0 < a < P,
    ensures
        r < P,
        mul_spec(a as int, r as int) == 1,
{
    Goldilocks::new(a).inverse().as_canonical_u64()
}

} // verus!
