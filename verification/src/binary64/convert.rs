//! Conversions from whole numbers and fractions, and to bytes.

use crate::binary64::encode::round_pack;
use crate::binary64::power::{lemma_pow2_monotonic, pow2_u64};
use crate::binary64::rounding::{lemma_rounded_exact, lemma_window_from_powers};
use crate::binary64::value::{Binary64, Value};
use vstd::arithmetic::div_mod::{lemma_basic_div, lemma_div_multiples_vanish_quotient};
use vstd::arithmetic::power2::{
    lemma2_to64, lemma2_to64_rest, lemma_pow2_adds, lemma_pow2_pos, pow2,
};
use vstd::prelude::*;

verus! {

impl Binary64 {
    /// The whole number `count`; every 32-bit count is representable.
    pub fn from_u32(count: u32) -> (r: Binary64)
        ensures
            r@ == Value::from_count(count as nat),
    {
        let ghost n: nat = count as nat * pow2(1074);
        proof {
            lemma2_to64();
            lemma2_to64_rest();
            lemma_pow2_pos(1074);
            lemma_rounded_exact(false, count as nat, 1074);
            assert((count as nat) * pow2(1074) * 1 == n * pow2(0) && ((count as nat) + 1) * pow2(
                1074,
            ) * 1 > n * pow2(0)) by (nonlinear_arith)
                requires
                    n == (count as nat) * pow2(1074),
                    pow2(0) == 1,
                    pow2(1074) > 0,
            ;
            lemma_window_from_powers(count as nat, 1074, 0, n, 1);
        }
        round_pack(false, count as u128, 1074, false, Ghost(n), Ghost(1))
    }

    /// The number nearest to the fraction `numerator / denominator`.
    pub fn from_ratio(numerator: u32, denominator: u32) -> (r: Binary64)
        ensures
            r@ == Value::ratio(numerator as nat, denominator as nat),
    {
        Binary64::from_u32(numerator).div(Binary64::from_u32(denominator))
    }

    /// The whole part as a byte, saturating at both ends; 0 for a NaN.
    pub fn to_u8(self) -> (b: u8)
        ensures
            b == self@.to_byte(),
    {
        if self.is_nan() || self.sign() {
            return 0;
        }
        if self.is_infinite() {
            return 255;
        }
        let (m, e) = self.parts();
        let ghost units = self@->units;
        let ghost one = pow2(1074);
        proof {
            lemma2_to64();
            lemma2_to64_rest();
            lemma_pow2_pos(1074);
            lemma_pow2_pos(e as nat);
        }
        if e >= 1074 {
            proof {
                let extra = pow2((e - 1074) as nat);
                lemma_pow2_pos((e - 1074) as nat);
                lemma_pow2_adds((e - 1074) as nat, 1074);
                assert(units == (m * extra) * one) by (nonlinear_arith)
                    requires
                        units == m * pow2(e as nat),
                        pow2(e as nat) == extra * one,
                ;
                assert(m * extra >= m) by (nonlinear_arith)
                    requires
                        extra >= 1,
                ;
                vstd::arithmetic::div_mod::lemma_div_by_multiple((m * extra) as int, one as int);
            }
            return 255;
        }
        let s: u32 = 1074 - e;
        proof {
            let pe = pow2(e as nat);
            let ps = pow2(s as nat);
            lemma_pow2_pos(s as nat);
            lemma_pow2_adds(e as nat, s as nat);
            lemma_div_multiples_vanish_quotient(pe as int, m as int, ps as int);
            assert(pe * m == units) by (nonlinear_arith)
                requires
                    units == m * pe,
            ;
            assert(units / one == m as nat / ps);
            if s >= 53 {
                lemma_pow2_monotonic(53, s as nat);
                lemma_basic_div(m as int, ps as int);
            }
        }
        if s >= 53 {
            return 0;
        }
        let whole: u64 = m / pow2_u64(s);
        if whole >= 255 {
            255
        } else {
            whole as u8
        }
    }
}

} // verus!
