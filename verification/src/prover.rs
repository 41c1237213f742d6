//! The proof-system parameters the library's circuits are measured under,
//! and the smallest trace height they admit.
use vstd::prelude::*;

verus! {

/// Salt elements per leaf: two 64-bit elements reach 128 bits against a
/// claimed 88.
pub const SALT_ELEMS: usize = 2;

/// Random codewords the hiding commitment appends per matrix.
pub const NUM_RANDOM_CODEWORDS: usize = 2;

/// 40 queries at blowup 4 with 8 proof-of-work bits is about 88 bits.
pub const NUM_QUERIES: usize = 40;

pub const LOG_BLOWUP: usize = 2;

pub const POW_BITS: usize = 8;

/// The log of the length of FRI's final polynomial.
pub const LOG_FINAL_POLY_LEN: usize = 3;

/// A trace of height 2^k is admitted when, with zero knowledge doubling the
/// domain, its log height plus the blowup exceeds the final polynomial's log
/// length plus the blowup.
pub open spec fn admissible(k: nat) -> bool {
    k + LOG_BLOWUP + 1 > LOG_FINAL_POLY_LEN + LOG_BLOWUP
}

/// The smallest trace the FRI parameters admit: the least power of two whose
/// log is admissible.
pub fn min_admissible_height() -> (h: usize)
    ensures
        h == vstd::arithmetic::power2::pow2(LOG_FINAL_POLY_LEN as nat),
        admissible(LOG_FINAL_POLY_LEN as nat),
        forall|k: nat| k < LOG_FINAL_POLY_LEN ==> !#[trigger] admissible(k),
        h == 8,
{
    proof {
        vstd::arithmetic::power2::lemma2_to64();
    }
    let mut h: usize = 1;
    let mut log: usize = 0;
    while log + LOG_BLOWUP + 1 <= LOG_FINAL_POLY_LEN + LOG_BLOWUP
        invariant
            log <= LOG_FINAL_POLY_LEN,
            h <= 8,
            h == vstd::arithmetic::power2::pow2(log as nat),
            forall|k: nat| k < log ==> !#[trigger] admissible(k),
        decreases LOG_FINAL_POLY_LEN - log,
    {
        proof {
            vstd::arithmetic::power2::lemma_pow2_unfold((log + 1) as nat);
            vstd::arithmetic::power2::lemma2_to64();
        }
        h = h * 2;
        log = log + 1;
    }
    h
}

} // verus!
