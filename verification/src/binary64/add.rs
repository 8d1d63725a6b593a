//! Negation, absolute value, addition and subtraction.

use crate::binary64::encode::round_pack;
use crate::binary64::power::{lemma_pow2_monotonic, pow2_u128};
use crate::binary64::rounding::{lemma_window_from_powers, rounded};
use crate::binary64::value::{Binary64, Value, SIGN_BIT};
use vstd::arithmetic::power2::{
    lemma2_to64, lemma2_to64_rest, lemma_pow2_adds, lemma_pow2_pos, pow2,
};
use vstd::prelude::*;

verus! {

/// Rounds the sum of two finite numbers of magnitudes `x = mx * 2^ex` and
/// `y = my * 2^ey` with `ex >= ey`, where `x` carries the sign
/// `negative` and `y` the same sign or, if `opposed`, the other one.
/// The result is the sum of the two signed numbers; `zero_sign` is the sign
/// to give an exact zero.
fn add_aligned(
    negative: bool,
    opposed: bool,
    zero_sign: bool,
    mx: u64,
    ex: u32,
    my: u64,
    ey: u32,
) -> (r: Binary64)
    requires
        mx < 0x20_0000_0000_0000,
        my < 0x20_0000_0000_0000,
        ey <= ex <= 2045,
        ex > 0 ==> mx >= 0x10_0000_0000_0000,
    ensures
        r@ == ({
            let x = mx * pow2(ex as nat);
            let y = my * pow2(ey as nat);
            let first: int = if negative { -x } else { x as int };
            let second: int = if negative != opposed { -y } else { y as int };
            let exact = first + second;
            if exact == 0 {
                Value::Finite { negative: zero_sign, units: 0 }
            } else if exact < 0 {
                rounded(true, (-exact) as nat, 1)
            } else {
                rounded(false, exact as nat, 1)
            }
        }),
{
    let gap: u32 = ex - ey;
    let ghost x: nat = mx as nat * pow2(ex as nat);
    let ghost y: nat = my as nat * pow2(ey as nat);
    let ghost px = pow2(ex as nat);
    let ghost py = pow2(ey as nat);
    proof {
        lemma2_to64();
        lemma2_to64_rest();
        lemma_pow2_pos(ex as nat);
        lemma_pow2_pos(ey as nat);
        lemma_pow2_pos(gap as nat);
        lemma_pow2_adds(gap as nat, ey as nat);
        assert(x == (mx as nat * pow2(gap as nat)) * py) by (nonlinear_arith)
            requires
                x == mx as nat * px,
                px == pow2(gap as nat) * py,
        ;
    }
    if gap < 56 {
        // Both terms fit one integer at the smaller exponent.
        proof {
            lemma_pow2_monotonic(gap as nat, 55);
            lemma_pow2_adds(32, 23);
            assert(mx * pow2(gap as nat) < 0x20_0000_0000_0000 * 0x80_0000_0000_0000)
                by (nonlinear_arith)
                requires
                    mx < 0x20_0000_0000_0000,
                    pow2(gap as nat) <= 0x80_0000_0000_0000,
            ;
        }
        let big: u128 = (mx as u128) * pow2_u128(gap);
        let small: u128 = my as u128;
        let m: u128;
        let sign: bool;
        if !opposed {
            m = big + small;
            sign = negative;
        } else if big >= small {
            m = big - small;
            sign = negative;
        } else {
            m = small - big;
            sign = !negative;
        }
        proof {
            assert(big * py == x);
            assert((big + small) * py == x + y && (big - small) * py == x - y && (small - big) * py
                == y - x) by (nonlinear_arith)
                requires
                    big * py == x,
                    small * py == y,
            ;
            if m == 0 {
                assert(m * py == 0) by (nonlinear_arith)
                    requires
                        m == 0,
                ;
            } else {
                assert(m * py > 0) by (nonlinear_arith)
                    requires
                        m > 0,
                        py > 0,
                ;
            }
        }
        if m == 0 {
            return Binary64::zero(zero_sign);
        }
        let ghost n: nat = (m as nat) * py;
        proof {
            assert((m as nat) * py * 1 == n * pow2(0) && ((m as nat) + 1) * py * 1 > n * pow2(0))
                by (nonlinear_arith)
                requires
                    n == (m as nat) * py,
                    pow2(0) == 1,
                    py > 0,
            ;
            lemma_window_from_powers(m as nat, ey as nat, 0, n, 1);
        }
        round_pack(sign, m, ey as i32, false, Ghost(n), Ghost(1))
    } else if my == 0 {
        proof {
            assert(y == 0) by (nonlinear_arith)
                requires
                    y == my as nat * py,
                    my == 0,
            ;
            assert(x > 0) by (nonlinear_arith)
                requires
                    x == mx as nat * px,
                    mx > 0,
                    px > 0,
            ;
            assert((mx as nat) * px * 1 == x * pow2(0) && ((mx as nat) + 1) * px * 1 > x * pow2(0))
                by (nonlinear_arith)
                requires
                    x == (mx as nat) * px,
                    pow2(0) == 1,
                    px > 0,
            ;
            lemma_window_from_powers(mx as nat, ex as nat, 0, x, 1);
        }
        round_pack(negative, mx as u128, ex as i32, false, Ghost(x), Ghost(1))
    } else {
        // The smaller term lies far below the last digit of the larger one
        // and only tells on which side of it the sum falls.
        let e: u32 = ex - 3;
        let ghost pe = pow2(e as nat);
        let m: u128 = if opposed {
            (mx as u128) * 8 - 1
        } else {
            (mx as u128) * 8
        };
        let ghost n: nat = if opposed {
            (x - y) as nat
        } else {
            x + y
        };
        proof {
            lemma_pow2_pos(e as nat);
            lemma_pow2_adds(3, e as nat);
            lemma_pow2_adds(53, ey as nat);
            lemma_pow2_monotonic((53 + ey) as nat, e as nat);
            assert(px == 8 * pe);
            assert(y < pow2(53) * py) by (nonlinear_arith)
                requires
                    y == my as nat * py,
                    my < pow2(53),
                    py > 0,
            ;
            assert(y > 0) by (nonlinear_arith)
                requires
                    y == my as nat * py,
                    my > 0,
                    py > 0,
            ;
            assert(0 < y < pe);
            assert(x > y) by (nonlinear_arith)
                requires
                    x == mx as nat * px,
                    px == 8 * pe,
                    mx >= 1,
                    y < pe,
            ;
            assert(x == (mx as nat * 8) * pe) by (nonlinear_arith)
                requires
                    x == mx as nat * px,
                    px == 8 * pe,
            ;
            assert(x >= 0x10_0000_0000_0000 * 8 * pe) by (nonlinear_arith)
                requires
                    x == (mx as nat * 8) * pe,
                    mx >= 0x10_0000_0000_0000,
            ;
            assert((m as nat) * pe * 1 < n * pow2(0) && ((m as nat) + 1) * pe * 1 > n * pow2(0))
                by (nonlinear_arith)
                requires
                    x == (mx as nat * 8) * pe,
                    0 < y < pe,
                    pow2(0) == 1,
                    opposed ==> m == mx * 8 - 1 && n == x - y,
                    !opposed ==> m == mx * 8 && n == x + y,
            ;
            assert(n > 0);
            lemma_window_from_powers(m as nat, e as nat, 0, n, 1);
        }
        round_pack(negative, m, e as i32, true, Ghost(n), Ghost(1))
    }
}

impl Binary64 {
    /// The same number with the opposite sign.
    pub fn neg(self) -> (r: Binary64)
        ensures
            r@ == self@.negated(),
    {
        if self.bits >= SIGN_BIT {
            Binary64 { bits: self.bits - SIGN_BIT }
        } else {
            Binary64 { bits: self.bits + SIGN_BIT }
        }
    }

    /// The absolute value.
    pub fn abs(self) -> (r: Binary64)
        ensures
            r@ == self@.magnitude(),
    {
        Binary64 { bits: self.bits % SIGN_BIT }
    }

    /// The sum, rounded to nearest.
    pub fn add(self, rhs: Binary64) -> (r: Binary64)
        ensures
            r@ == self@.plus(rhs@),
    {
        if self.is_nan() || rhs.is_nan() {
            return Binary64::nan();
        }
        let sa = self.sign();
        let sb = rhs.sign();
        if self.is_infinite() {
            if rhs.is_infinite() && sa != sb {
                return Binary64::nan();
            }
            return self;
        }
        if rhs.is_infinite() {
            return rhs;
        }
        let (ma, ea) = self.parts();
        let (mb, eb) = rhs.parts();
        if ea >= eb {
            add_aligned(sa, sa != sb, sa && sb, ma, ea, mb, eb)
        } else {
            add_aligned(sb, sa != sb, sa && sb, mb, eb, ma, ea)
        }
    }

    /// The difference, rounded to nearest.
    pub fn sub(self, rhs: Binary64) -> (r: Binary64)
        ensures
            r@ == self@.minus(rhs@),
    {
        self.add(rhs.neg())
    }
}

} // verus!
