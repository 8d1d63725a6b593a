//! Comparisons.

use crate::binary64::rounding::{lemma_units_increase, lemma_units_of_parts};
use crate::binary64::value::{
    units_of_code, value_of_bits, Binary64, HIDDEN_BIT, INFINITY_CODE, SIGN_BIT,
};
use vstd::arithmetic::power2::{lemma2_to64, lemma2_to64_rest, lemma_pow2_adds, pow2};
use vstd::prelude::*;

verus! {

/// Where a pattern that is no NaN stands on the number line: its magnitude
/// code read as a magnitude, with the sign.
pub proof fn lemma_position_of_bits(bits: u64)
    requires
        bits % SIGN_BIT <= INFINITY_CODE,
    ensures
        value_of_bits(bits).position() == (if bits >= SIGN_BIT {
            -(units_of_code((bits % SIGN_BIT) as nat) as int)
        } else {
            units_of_code((bits % SIGN_BIT) as nat) as int
        }),
{
    let code = (bits % SIGN_BIT) as nat;
    if code == INFINITY_CODE {
        lemma2_to64();
        lemma2_to64_rest();
        lemma_pow2_adds(52, 2046);
        assert(code / (HIDDEN_BIT as nat) == 2047 && code % (HIDDEN_BIT as nat) == 0);
    }
}

/// Codes and the magnitudes they stand for are ordered alike.
proof fn lemma_codes_order(c1: nat, c2: nat)
    requires
        c1 <= INFINITY_CODE,
        c2 <= INFINITY_CODE,
    ensures
        c1 < c2 <==> units_of_code(c1) < units_of_code(c2),
        c1 == 0 <==> units_of_code(c1) == 0,
{
    if c1 < c2 {
        lemma_units_increase(c1, c2);
    }
    if c2 < c1 {
        lemma_units_increase(c2, c1);
    }
    if 0 < c1 {
        lemma_units_increase(0, c1);
    }
    lemma_units_of_parts(0, 0);
    assert(0 * pow2(0) == 0) by (nonlinear_arith);
}

impl Binary64 {
    /// Strictly less; false whenever a NaN takes part. The two zeros are equal.
    pub fn lt(self, rhs: Binary64) -> (r: bool)
        ensures
            r == self@.below(rhs@),
    {
        if self.is_nan() || rhs.is_nan() {
            return false;
        }
        let ca: u64 = self.bits % SIGN_BIT;
        let cb: u64 = rhs.bits % SIGN_BIT;
        proof {
            lemma_position_of_bits(self.bits);
            lemma_position_of_bits(rhs.bits);
            lemma_codes_order(ca as nat, cb as nat);
            lemma_codes_order(cb as nat, ca as nat);
        }
        if self.sign() {
            if rhs.sign() {
                ca > cb
            } else {
                ca != 0 || cb != 0
            }
        } else {
            if rhs.sign() {
                false
            } else {
                ca < cb
            }
        }
    }

    /// Less or equal; false whenever a NaN takes part.
    pub fn le(self, rhs: Binary64) -> (r: bool)
        ensures
            r == self@.at_most(rhs@),
    {
        if self.is_nan() || rhs.is_nan() {
            return false;
        }
        !rhs.lt(self)
    }

    /// Strictly greater; false whenever a NaN takes part.
    pub fn gt(self, rhs: Binary64) -> (r: bool)
        ensures
            r == rhs@.below(self@),
    {
        rhs.lt(self)
    }

    /// Greater or equal; false whenever a NaN takes part.
    pub fn ge(self, rhs: Binary64) -> (r: bool)
        ensures
            r == rhs@.at_most(self@),
    {
        rhs.le(self)
    }
}

} // verus!
