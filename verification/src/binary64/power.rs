//! Powers of two and digit counts.

use vstd::arithmetic::power2::{
    lemma2_to64, lemma2_to64_rest, lemma_pow2_adds, lemma_pow2_pos, lemma_pow2_strictly_increases,
    lemma_pow2_unfold, pow2,
};
use vstd::prelude::*;

verus! {

/// Number of binary digits of `q`: zero for zero, otherwise one more than the
/// position of the leading one.
pub open spec fn bit_length(q: nat) -> nat
    decreases q,
{
    if q == 0 {
        0
    } else {
        1 + bit_length(q / 2)
    }
}

/// Powers of two never decrease as the exponent grows.
pub proof fn lemma_pow2_monotonic(a: nat, b: nat)
    requires
        a <= b,
    ensures
        pow2(a) <= pow2(b),
{
    if a < b {
        lemma_pow2_strictly_increases(a, b);
    }
}

/// `2^128`, just beyond the widest machine integer.
pub proof fn lemma_pow2_128()
    ensures
        pow2(128) == 0x1_0000_0000_0000_0000_0000_0000_0000_0000,
        pow2(64) == 0x1_0000_0000_0000_0000,
{
    lemma2_to64();
    lemma2_to64_rest();
    lemma_pow2_adds(64, 64);
}

/// A positive number lies between the two powers of two that its digit count names.
pub proof fn lemma_bit_length_bounds(q: nat)
    requires
        q > 0,
    ensures
        bit_length(q) >= 1,
        pow2((bit_length(q) - 1) as nat) <= q < pow2(bit_length(q)),
    decreases q,
{
    if q == 1 {
        assert(bit_length(0) == 0);
        assert(bit_length(1) == 1 + bit_length(0));
        lemma2_to64();
    } else {
        let h = q / 2;
        lemma_bit_length_bounds(h);
        let l = bit_length(h);
        assert(bit_length(q) == l + 1);
        lemma_pow2_unfold(l);
        lemma_pow2_unfold(l + 1);
    }
}

/// The digit count is the only `l` with `2^(l-1) <= q < 2^l`.
pub proof fn lemma_bit_length_unique(q: nat, l: nat)
    requires
        l >= 1,
        pow2((l - 1) as nat) <= q < pow2(l),
    ensures
        bit_length(q) == l,
{
    lemma_pow2_pos((l - 1) as nat);
    lemma_bit_length_bounds(q);
    let b = bit_length(q);
    if b < l {
        lemma_pow2_monotonic(b, (l - 1) as nat);
    } else if b > l {
        lemma_pow2_monotonic(l, (b - 1) as nat);
    }
}

proof fn lemma_shift_of_one(k: u128)
    requires
        k < 128,
    ensures
        (1u128 << k) == pow2(k as nat),
    decreases k,
{
    if k == 0 {
        assert((1u128 << 0u128) == 1u128) by (bit_vector);
        lemma2_to64();
    } else {
        let j = (k - 1) as u128;
        lemma_shift_of_one(j);
        assert((1u128 << k) == 2 * (1u128 << j)) by (bit_vector)
            requires
                0 < k < 128,
                j == k - 1,
        ;
        lemma_pow2_unfold(k as nat);
    }
}

/// `2^k` as a 128-bit integer.
pub fn pow2_u128(k: u32) -> (p: u128)
    requires
        k < 128,
    ensures
        p == pow2(k as nat),
        p > 0,
{
    proof {
        lemma_shift_of_one(k as u128);
        lemma_pow2_pos(k as nat);
    }
    1u128 << (k as u128)
}

/// `2^k` as a 64-bit integer.
pub fn pow2_u64(k: u32) -> (p: u64)
    requires
        k < 64,
    ensures
        p == pow2(k as nat),
        p > 0,
{
    proof {
        lemma_pow2_128();
        lemma_pow2_strictly_increases(k as nat, 64);
    }
    let wide: u128 = pow2_u128(k);
    wide as u64
}

/// Digit count of a 128-bit integer, found by halving the span of candidates.
pub fn bit_length_u128(m: u128) -> (l: u32)
    ensures
        l == bit_length(m as nat),
        l <= 128,
{
    if m == 0 {
        return 0;
    }
    let mut low: u32 = 0;
    let mut span: u32 = 128;
    proof {
        lemma_pow2_128();
        lemma2_to64();
    }
    while span > 1
        invariant
            1 <= span <= 128,
            low + span <= 128,
            pow2(low as nat) <= m < pow2((low + span) as nat),
        decreases span,
    {
        let half: u32 = span / 2;
        let rest: u32 = span - half;
        if m >= pow2_u128(low + rest) {
            low = low + rest;
            span = half;
        } else {
            span = rest;
        }
    }
    proof {
        lemma_bit_length_unique(m as nat, (low + 1) as nat);
    }
    low + 1
}

} // verus!
