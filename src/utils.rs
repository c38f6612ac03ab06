//! Sizes of k-mer spaces.
use vstd::arithmetic::power2::{lemma2_to64, lemma_pow2_pos, lemma_pow2_unfold, pow2};
use vstd::bits::{lemma_u64_pow2_no_overflow, lemma_u64_shl_is_mul};
use vstd::prelude::*;

verus! {

/// The number of canonical k-mers as this library counts them.
pub open spec fn canonical_space_spec(k: nat) -> nat {
    if k % 2 == 1 {
        pow2(2 * k) / 2
    } else {
        (pow2(2 * k) / 2 - 2 * k) as nat
    }
}

proof fn lemma_pow2_ge(m: nat)
    ensures
        pow2(m) >= m + 1,
    decreases m,
{
    lemma_pow2_pos(m);
    if m > 0 {
        lemma_pow2_ge((m - 1) as nat);
        lemma_pow2_unfold(m);
    } else {
        lemma2_to64();
    }
}

/// The number of k-mers of length `k`: `4^k`.
pub fn kmer_space(k: u32) -> (r: usize)
    requires
        2 * k < 64,
        pow2(2 * k as nat) <= usize::MAX,
    ensures
        r == pow2(2 * k as nat),
{
    let s = (2 * k) as u64;
    proof {
        lemma_u64_pow2_no_overflow(s as nat);
        lemma_u64_shl_is_mul(1, s);
    }
    (1u64 << s) as usize
}

/// The number of canonical k-mers: half of `4^k`, less `2k` when `k` is even.
pub fn canonical_space(k: u32) -> (r: usize)
    requires
        2 * k < 64,
        pow2(2 * k as nat) <= usize::MAX,
    ensures
        r == canonical_space_spec(k as nat),
{
    let n = kmer_space(k);
    if k % 2 == 1 {
        n / 2
    } else {
        proof {
            if k > 0 {
                lemma_pow2_ge((2 * k - 1) as nat);
                lemma_pow2_unfold((2 * k) as nat);
            } else {
                lemma2_to64();
            }
        }
        n / 2 - (k * 2) as usize
    }
}

} // verus!
