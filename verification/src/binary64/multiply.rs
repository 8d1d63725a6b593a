//! Multiplication.

use crate::binary64::encode::round_pack;
use crate::binary64::rounding::lemma_window_from_powers;
use crate::binary64::value::Binary64;
use vstd::arithmetic::power2::{lemma_pow2_adds, lemma_pow2_pos, pow2};
use vstd::prelude::*;

verus! {

impl Binary64 {
    /// The product, rounded to nearest.
    pub fn mul(self, rhs: Binary64) -> (r: Binary64)
        ensures
            r@ == self@.times(rhs@),
    {
        if self.is_nan() || rhs.is_nan() {
            return Binary64::nan();
        }
        let negative = self.sign() != rhs.sign();
        if self.is_infinite() {
            if rhs.is_zero() {
                return Binary64::nan();
            }
            return Binary64::infinity(negative);
        }
        if rhs.is_infinite() {
            if self.is_zero() {
                return Binary64::nan();
            }
            return Binary64::infinity(negative);
        }
        let (ma, ea) = self.parts();
        let (mb, eb) = rhs.parts();
        proof {
            assert(ma * mb < 0x20_0000_0000_0000 * 0x20_0000_0000_0000) by (nonlinear_arith)
                requires
                    ma < 0x20_0000_0000_0000,
                    mb < 0x20_0000_0000_0000,
            ;
        }
        let m: u128 = (ma as u128) * (mb as u128);
        let e: i32 = (ea as i32) + (eb as i32) - 1074;
        let ghost n: nat = self@->units * rhs@->units;
        let ghost d: nat = pow2(1074);
        proof {
            let a = (ea + eb) as nat;
            lemma_pow2_pos(1074);
            lemma_pow2_pos(a);
            lemma_pow2_adds(ea as nat, eb as nat);
            let pa = pow2(ea as nat);
            let pb = pow2(eb as nat);
            assert((m as nat) * pow2(a) * d == n * d) by (nonlinear_arith)
                requires
                    n == (ma * pa) * (mb * pb),
                    m == ma * mb,
                    pow2(a) == pa * pb,
            ;
            assert(((m as nat) + 1) * pow2(a) * d > n * d) by (nonlinear_arith)
                requires
                    (m as nat) * pow2(a) * d == n * d,
                    pow2(a) > 0,
                    d > 0,
            ;
            lemma_window_from_powers(m as nat, a, 1074, n, d);
        }
        round_pack(negative, m, e, false, Ghost(n), Ghost(d))
    }
}

} // verus!
