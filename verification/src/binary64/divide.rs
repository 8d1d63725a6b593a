//! Division and remainder.

use crate::binary64::encode::round_pack;
use crate::binary64::power::{
    bit_length_u128, lemma_bit_length_bounds, lemma_pow2_monotonic, pow2_u128, pow2_u64,
};
use crate::binary64::rounding::{lemma_rounded_exact, lemma_window_from_powers};
use crate::binary64::value::Binary64;
use vstd::arithmetic::div_mod::{
    lemma_fundamental_div_mod, lemma_mul_mod_noop_left, lemma_small_mod, lemma_truncate_middle,
};
use vstd::arithmetic::power2::{
    lemma2_to64, lemma2_to64_rest, lemma_pow2_adds, lemma_pow2_pos, pow2,
};
use vstd::prelude::*;

verus! {

/// Shifts a nonzero significand up until its leading digit is in place;
/// returns it with the number of places shifted.
fn normalize(m: u64) -> (r: (u64, u32))
    requires
        0 < m < 0x20_0000_0000_0000,
    ensures
        0x10_0000_0000_0000 <= r.0 < 0x20_0000_0000_0000,
        r.1 <= 52,
        r.0 == m * pow2(r.1 as nat),
{
    let len: u32 = bit_length_u128(m as u128);
    proof {
        lemma2_to64();
        lemma2_to64_rest();
        lemma_bit_length_bounds(m as nat);
        if len > 53 {
            lemma_pow2_monotonic(53, (len - 1) as nat);
        }
    }
    let lift: u32 = 53 - len;
    proof {
        let pl = pow2(lift as nat);
        lemma_pow2_pos(lift as nat);
        lemma_pow2_adds(len as nat, lift as nat);
        lemma_pow2_adds((len - 1) as nat, lift as nat);
        lemma_pow2_monotonic(lift as nat, 52);
        assert(m * pl < pow2(len as nat) * pl) by (nonlinear_arith)
            requires
                m < pow2(len as nat),
                pl > 0,
        ;
        assert(m * pl >= pow2((len - 1) as nat) * pl) by (nonlinear_arith)
            requires
                m >= pow2((len - 1) as nat),
                pl > 0,
        ;
    }
    (m * pow2_u64(lift), lift)
}

/// The algebra behind division: a window for `x / y` in whole numbers
/// becomes a window for the quotient of the two magnitudes.
proof fn lemma_quotient_scaling(
    q: nat,
    x: nat,
    nb: nat,
    n: nat,
    d: nat,
    pa: nat,
    pb: nat,
)
    requires
        nb > 0,
        d > 0,
        pa > 0,
        pb > 0,
        q * nb <= x < (q + 1) * nb,
        n * pb * nb == x * pa * d,
    ensures
        q * pa * d <= n * pb < (q + 1) * pa * d,
        q * pa * d == n * pb <==> q * nb == x,
{
    let g = pa * d;
    let lhs = n * pb;
    assert(g > 0) by (nonlinear_arith)
        requires
            g == pa * d,
            pa > 0,
            d > 0,
    ;
    assert(lhs * nb == x * g) by (nonlinear_arith)
        requires
            n * pb * nb == x * pa * d,
            g == pa * d,
            lhs == n * pb,
    ;
    assert(q * pa * d == q * g && (q + 1) * pa * d == (q + 1) * g) by (nonlinear_arith)
        requires
            g == pa * d,
    ;
    assert((q * g) * nb == (q * nb) * g && ((q + 1) * g) * nb == ((q + 1) * nb) * g)
        by (nonlinear_arith);
    assert((q * nb) * g <= x * g) by (nonlinear_arith)
        requires
            q * nb <= x,
            g > 0,
    ;
    assert(x * g < ((q + 1) * nb) * g) by (nonlinear_arith)
        requires
            x < (q + 1) * nb,
            g > 0,
    ;
    assert(q * g <= lhs) by (nonlinear_arith)
        requires
            (q * g) * nb <= lhs * nb,
            nb > 0,
    ;
    assert(lhs < (q + 1) * g) by (nonlinear_arith)
        requires
            lhs * nb < ((q + 1) * g) * nb,
            nb > 0,
    ;
    if q * g == lhs {
        assert((q * nb) * g == x * g);
        assert(q * nb == x) by (nonlinear_arith)
            requires
                (q * nb) * g == x * g,
                g > 0,
        ;
    }
    if q * nb == x {
        assert(q * g == lhs) by (nonlinear_arith)
            requires
                (q * g) * nb == lhs * nb,
                nb > 0,
        ;
    }
}

impl Binary64 {
    /// The quotient, rounded to nearest.
    pub fn div(self, rhs: Binary64) -> (r: Binary64)
        ensures
            r@ == self@.over(rhs@),
    {
        if self.is_nan() || rhs.is_nan() {
            return Binary64::nan();
        }
        let negative = self.sign() != rhs.sign();
        if self.is_infinite() {
            if rhs.is_infinite() {
                return Binary64::nan();
            }
            return Binary64::infinity(negative);
        }
        if rhs.is_infinite() {
            return Binary64::zero(negative);
        }
        if rhs.is_zero() {
            if self.is_zero() {
                return Binary64::nan();
            }
            return Binary64::infinity(negative);
        }
        let (ma, ea) = self.parts();
        let (mb, eb) = rhs.parts();
        let ghost ua = self@->units;
        let ghost ub = rhs@->units;
        let ghost n: nat = ua * pow2(1074);
        let ghost d: nat = ub;
        proof {
            lemma2_to64();
            lemma2_to64_rest();
            lemma_pow2_pos(ea as nat);
            lemma_pow2_pos(eb as nat);
            lemma_pow2_pos(1074);
            if mb == 0 {
                assert(mb * pow2(eb as nat) == 0) by (nonlinear_arith)
                    requires
                        mb == 0,
                ;
            }
        }
        if ma == 0 {
            proof {
                assert(ua == 0) by (nonlinear_arith)
                    requires
                        ua == ma * pow2(ea as nat),
                        ma == 0,
                ;
                assert(n == 0) by (nonlinear_arith)
                    requires
                        n == ua * pow2(1074),
                        ua == 0,
                ;
                assert(0 * pow2(0) * d == n * pow2(0) && (0 + 1) * pow2(0) * d > n * pow2(0))
                    by (nonlinear_arith)
                    requires
                        n == 0,
                        d > 0,
                        pow2(0) == 1,
                ;
                lemma_window_from_powers(0, 0, 0, n, d);
            }
            return round_pack(negative, 0, 0, false, Ghost(n), Ghost(d));
        }
        let (na, za) = normalize(ma);
        let (nb, zb) = normalize(mb);
        proof {
            lemma_pow2_adds(64, 52);
            lemma_pow2_adds(64, 53);
        }
        let x: u128 = (na as u128) * pow2_u128(64);
        let q: u128 = x / (nb as u128);
        let rem: u128 = x % (nb as u128);
        let e: i32 = (ea as i32) - (za as i32) - (eb as i32) + (zb as i32) + 1010;
        proof {
            let a = (ea + zb + 1074) as nat;
            let b = (za + eb + 64) as nat;
            let pea = pow2(ea as nat);
            let peb = pow2(eb as nat);
            let pza = pow2(za as nat);
            let pzb = pow2(zb as nat);
            let p64 = pow2(64);
            let pu = pow2(1074);
            lemma_pow2_pos(za as nat);
            lemma_pow2_pos(zb as nat);
            lemma_pow2_pos(a);
            lemma_pow2_pos(b);
            lemma_pow2_adds(ea as nat, zb as nat);
            lemma_pow2_adds((ea + zb) as nat, 1074);
            lemma_pow2_adds(za as nat, eb as nat);
            lemma_pow2_adds((za + eb) as nat, 64);
            assert(pow2(a) == pea * pzb * pu);
            assert(pow2(b) == pza * peb * p64);
            lemma_fundamental_div_mod(x as int, nb as int);
            assert(x == q * nb + rem) by (nonlinear_arith)
                requires
                    x == nb * q + rem,
            ;
            assert((q + 1) * nb == q * nb + nb) by (nonlinear_arith);
            // Both sides are the product of the same eight factors.
            let common = (ma as nat) * pea * pza * pu * p64;
            assert(n * pow2(b) == common * peb) by (nonlinear_arith)
                requires
                    n == ua * pu,
                    ua == ma * pea,
                    pow2(b) == pza * peb * p64,
                    common == (ma as nat) * pea * pza * pu * p64,
            ;
            assert(x * pow2(a) == common * pzb) by (nonlinear_arith)
                requires
                    x == na * p64,
                    na == ma * pza,
                    pow2(a) == pea * pzb * pu,
                    common == (ma as nat) * pea * pza * pu * p64,
            ;
            assert(n * pow2(b) * nb == x * pow2(a) * d) by (nonlinear_arith)
                requires
                    n * pow2(b) == common * peb,
                    x * pow2(a) == common * pzb,
                    nb == mb * pzb,
                    d == mb * peb,
            ;
            lemma_quotient_scaling(q as nat, x as nat, nb as nat, n, d, pow2(a), pow2(b));
            lemma_window_from_powers(q as nat, a, b, n, d);
            assert(q + 1 > 0x8000_0000_0000_0000) by (nonlinear_arith)
                requires
                    (q + 1) * nb > x,
                    x >= 0x10_0000_0000_0000 * 0x1_0000_0000_0000_0000,
                    nb < 0x20_0000_0000_0000,
                    x == na * p64,
                    na >= 0x10_0000_0000_0000,
                    p64 == 0x1_0000_0000_0000_0000,
            ;
            assert(q <= x);
        }
        round_pack(negative, q, e, rem != 0, Ghost(n), Ghost(d))
    }

    /// The remainder of division with the quotient truncated toward zero.
    pub fn rem(self, rhs: Binary64) -> (r: Binary64)
        ensures
            r@ == self@.modulo(rhs@),
    {
        if self.is_nan() || rhs.is_nan() || self.is_infinite() || rhs.is_zero() {
            return Binary64::nan();
        }
        if rhs.is_infinite() {
            return self;
        }
        let negative = self.sign();
        let (ma, ea) = self.parts();
        let (mb, eb) = rhs.parts();
        let ghost ua = self@->units;
        let ghost ub = rhs@->units;
        proof {
            lemma2_to64();
            lemma2_to64_rest();
            lemma_pow2_pos(ea as nat);
            lemma_pow2_pos(eb as nat);
            if mb == 0 {
                assert(mb * pow2(eb as nat) == 0) by (nonlinear_arith)
                    requires
                        mb == 0,
                ;
            }
        }
        if ea < eb {
            // The dividend is the smaller of the two and is its own remainder.
            proof {
                lemma_pow2_adds(53, ea as nat);
                lemma_pow2_adds(52, eb as nat);
                lemma_pow2_monotonic((53 + ea) as nat, (52 + eb) as nat);
                assert(ua < pow2(53) * pow2(ea as nat)) by (nonlinear_arith)
                    requires
                        ua == ma * pow2(ea as nat),
                        ma < pow2(53),
                        pow2(ea as nat) > 0,
                ;
                assert(ub >= pow2(52) * pow2(eb as nat)) by (nonlinear_arith)
                    requires
                        ub == mb * pow2(eb as nat),
                        mb >= pow2(52),
                        pow2(eb as nat) > 0,
                ;
                lemma_small_mod(ua, ub);
            }
            return self;
        }
        let gap: u32 = ea - eb;
        let mut rest: u64 = ma % mb;
        let mut done: u32 = 0;
        proof {
            assert(ma * pow2(0) == ma) by (nonlinear_arith)
                requires
                    pow2(0) == 1,
            ;
        }
        while done < gap
            invariant
                done <= gap,
                0 < mb < 0x20_0000_0000_0000,
                rest == (ma * pow2(done as nat)) % (mb as int),
            decreases gap - done,
        {
            let step: u32 = if gap - done > 10 {
                10
            } else {
                gap - done
            };
            let factor: u64 = pow2_u64(step);
            proof {
                lemma2_to64();
                lemma_pow2_monotonic(step as nat, 10);
                lemma_pow2_adds(done as nat, step as nat);
                lemma_mul_mod_noop_left(
                    ma * pow2(done as nat),
                    factor as int,
                    mb as int,
                );
                assert(ma * pow2(done as nat) * factor == ma * pow2((done + step) as nat))
                    by (nonlinear_arith)
                    requires
                        pow2((done + step) as nat) == pow2(done as nat) * factor,
                ;
                assert(rest * factor <= 0x20_0000_0000_0000 * 1024) by (nonlinear_arith)
                    requires
                        rest < 0x20_0000_0000_0000,
                        factor <= 1024,
                ;
            }
            rest = (rest * factor) % mb;
            done = done + step;
        }
        let ghost units: nat = rest as nat * pow2(eb as nat);
        proof {
            let pg = pow2(gap as nat);
            let pe = pow2(eb as nat);
            lemma_pow2_adds(gap as nat, eb as nat);
            lemma_truncate_middle(ma * pg, pe as int, mb as int);
            assert(pe * (ma * pg) == ua) by (nonlinear_arith)
                requires
                    ua == ma * pow2(ea as nat),
                    pow2(ea as nat) == pg * pe,
            ;
            assert(pe * mb == ub) by (nonlinear_arith)
                requires
                    ub == mb * pe,
            ;
            assert(pe * ((ma * pg) % (mb as int)) == units) by (nonlinear_arith)
                requires
                    units == rest * pe,
                    rest == (ma * pg) % (mb as int),
            ;
            assert(ua % ub == units);
            lemma_rounded_exact(negative, rest as nat, eb as nat);
            assert((rest as nat) * pe * 1 == units * pow2(0) && ((rest as nat) + 1) * pe * 1 > units
                * pow2(0)) by (nonlinear_arith)
                requires
                    units == (rest as nat) * pe,
                    pow2(0) == 1,
                    pe > 0,
            ;
            lemma_window_from_powers(rest as nat, eb as nat, 0, units, 1);
        }
        round_pack(negative, rest as u128, eb as i32, false, Ghost(units), Ghost(1))
    }
}

} // verus!
