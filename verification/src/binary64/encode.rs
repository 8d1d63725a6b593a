//! Taking numbers apart into significand and exponent, and putting a
//! rounded result together.

use crate::binary64::power::{
    bit_length, bit_length_u128, lemma_bit_length_bounds, lemma_pow2_monotonic, pow2_u128,
    pow2_u64,
};
use crate::binary64::rounding::{
    at_window_start, canonical, in_window, lemma_code_parts, lemma_nearest_code_window,
    lemma_nearest_of_zero, lemma_quotient_window, lemma_units_increase, lemma_units_of_parts,
    lemma_window_narrowing, nearest_code, rounded, scale_down, scale_up,
};
use crate::binary64::value::{
    units_of_code, Binary64, Value, HIDDEN_BIT, INFINITY_CODE, SIGNIFICAND_LIMIT, SIGN_BIT,
};
use vstd::arithmetic::div_mod::lemma_small_mod;
use vstd::arithmetic::power2::{
    lemma2_to64, lemma2_to64_rest, lemma_pow2_adds, lemma_pow2_pos, pow2,
};
use vstd::prelude::*;

verus! {

/// Canonical quiet NaN.
pub const QUIET_NAN: u64 = 0x7FF8_0000_0000_0000;

impl Binary64 {
    /// A NaN.
    pub fn nan() -> (r: Binary64)
        ensures
            r@ == Value::Nan,
    {
        Binary64 { bits: QUIET_NAN }
    }

    /// The infinity of the given sign.
    pub fn infinity(negative: bool) -> (r: Binary64)
        ensures
            r@ == (Value::Infinite { negative }),
    {
        Binary64::from_code(negative, INFINITY_CODE)
    }

    /// The zero of the given sign.
    pub fn zero(negative: bool) -> (r: Binary64)
        ensures
            r@ == (Value::Finite { negative, units: 0 }),
    {
        Binary64::from_code(negative, 0)
    }

    /// Whether this is a zero of either sign.
    pub fn is_zero(self) -> (r: bool)
        ensures
            r == (self@ is Finite && self@->units == 0),
    {
        proof {
            let code = (self.bits % SIGN_BIT) as nat;
            if 0 < code <= INFINITY_CODE {
                lemma_units_increase(0, code);
            }
            lemma_units_of_parts(0, 0);
            assert(0 * pow2(0) == 0) by (nonlinear_arith);
        }
        self.bits % SIGN_BIT == 0
    }

    /// Significand and exponent of a finite number, whose magnitude is
    /// `significand * 2^exponent` units. A positive exponent comes with a
    /// significand that has its leading digit in place.
    pub fn parts(self) -> (r: (u64, u32))
        requires
            self@ is Finite,
        ensures
            self@->units == r.0 * pow2(r.1 as nat),
            r.0 < SIGNIFICAND_LIMIT,
            r.1 <= 2045,
            r.1 > 0 ==> r.0 >= HIDDEN_BIT,
    {
        let code: u64 = self.bits % SIGN_BIT;
        let field: u64 = code / HIDDEN_BIT;
        let fraction: u64 = code % HIDDEN_BIT;
        proof {
            lemma_code_parts(code as nat);
        }
        if field == 0 {
            (fraction, 0)
        } else {
            (HIDDEN_BIT + fraction, (field - 1) as u32)
        }
    }

    /// The number with the given sign and magnitude code.
    pub fn from_code(negative: bool, code: u64) -> (r: Binary64)
        requires
            code <= INFINITY_CODE,
        ensures
            r@ == (if code == INFINITY_CODE {
                Value::Infinite { negative }
            } else {
                Value::Finite { negative, units: units_of_code(code as nat) }
            }),
    {
        if negative {
            Binary64 { bits: code + SIGN_BIT }
        } else {
            Binary64 { bits: code }
        }
    }
}

/// The exponent field less one that the result of rounding starts from,
/// for a significand of `len` digits at exponent `e`: the number of low
/// digits that a code has to drop below its 53, or zero in the subnormal
/// range.
pub open spec fn dropped_digits(len: nat, e: int) -> nat {
    if len - 1 + e > 52 {
        (len - 53 + e) as nat
    } else {
        0
    }
}

/// Rounding when nothing is dropped: the magnitude is `m * 2^e` exactly
/// and fits the 53 digits of a code once `m` is shifted up.
proof fn lemma_round_without_dropping(m: nat, e: int, n: nat, d: nat)
    requires
        d > 0,
        m > 0,
        at_window_start(m, e, n, d),
        dropped_digits(bit_length(m), e) <= e,
    ensures
        ({
            let k = dropped_digits(bit_length(m), e);
            let sig = m * pow2((e - k) as nat);
            &&& e - k <= 52
            &&& sig < SIGNIFICAND_LIMIT
            &&& k >= 2046 ==> nearest_code(n, d) == INFINITY_CODE
            &&& k < 2046 ==> nearest_code(n, d) == k * HIDDEN_BIT + sig
        }),
{
    let len = bit_length(m);
    let k = dropped_digits(len, e);
    let lift = (e - k) as nat;
    let pl = pow2(lift);
    let pk = pow2(k);
    let sig = m * pl;
    lemma2_to64();
    lemma2_to64_rest();
    lemma_bit_length_bounds(m);
    lemma_pow2_pos(lift);
    lemma_pow2_pos(k);
    lemma_pow2_adds(lift, k);
    lemma_pow2_adds(len, lift);
    lemma_pow2_monotonic(len + lift, 53);
    assert(sig < pow2(len) * pl) by (nonlinear_arith)
        requires
            sig == m * pl,
            m < pow2(len),
            pl > 0,
    ;
    if k >= 1 {
        lemma_pow2_adds((len - 1) as nat, lift);
        assert(sig >= pow2((len - 1) as nat) * pl) by (nonlinear_arith)
            requires
                sig == m * pl,
                m >= pow2((len - 1) as nat),
                pl > 0,
        ;
    }
    assert(canonical(k, sig));
    assert(sig * pk * d == n) by (nonlinear_arith)
        requires
            sig == m * pl,
            m * (pl * pk) * d == n * 1,
    ;
    assert((sig + 1) * pk * d > n && (2 * sig + 1) * pk * d > 2 * n) by (nonlinear_arith)
        requires
            sig * pk * d == n,
            pk > 0,
            d > 0,
    ;
    lemma_nearest_code_window(n, d, k, sig);
}

/// Rounding when `s` low digits of `m` are dropped: the digits kept give
/// the code below the magnitude, and the digits dropped, with `sticky`,
/// tell whether the code above is nearer.
proof fn lemma_round_with_dropping(m: nat, e: int, sticky: bool, n: nat, d: nat)
    requires
        d > 0,
        m > 0,
        in_window(m, e, n, d),
        sticky <==> !at_window_start(m, e, n, d),
        dropped_digits(bit_length(m), e) > e,
    ensures
        ({
            let k = dropped_digits(bit_length(m), e);
            let s = (k - e) as nat;
            let sig = m / pow2(s);
            let rest = m % pow2(s);
            let half = pow2((s - 1) as nat);
            let up = rest > half || (rest == half && (sticky || sig % 2 == 1));
            &&& sig < SIGNIFICAND_LIMIT
            &&& s > bit_length(m) ==> k == 0 && sig == 0 && rest == m && m < half
            &&& k >= 2046 ==> nearest_code(n, d) == INFINITY_CODE
            &&& k < 2046 ==> nearest_code(n, d) == k * HIDDEN_BIT + sig + if up {
                1nat
            } else {
                0nat
            }
        }),
{
    let len = bit_length(m);
    let k = dropped_digits(len, e);
    let s = (k - e) as nat;
    let ps = pow2(s);
    let sig = m / ps;
    lemma2_to64();
    lemma2_to64_rest();
    lemma_bit_length_bounds(m);
    lemma_pow2_pos(s);
    lemma_window_narrowing(m, e, n, d, s);
    if k >= 1 {
        lemma_pow2_adds(52, s);
        lemma_pow2_adds(53, s);
        lemma_quotient_window(m, ps, pow2(52), pow2(53));
    } else if len <= s {
        lemma_pow2_monotonic(len, s);
        assert(0 * ps == 0 && 1 * ps == ps) by (nonlinear_arith);
        lemma_quotient_window(m, ps, 0, 1);
        lemma_small_mod(m, ps);
        if len < s {
            lemma_pow2_monotonic(len, (s - 1) as nat);
        }
    } else {
        lemma_pow2_adds((len - s) as nat, s);
        lemma_pow2_monotonic((len - s) as nat, 53);
        assert(0 * ps == 0) by (nonlinear_arith);
        lemma_quotient_window(m, ps, 0, pow2((len - s) as nat));
    }
    assert(canonical(k, sig));
    lemma_nearest_code_window(n, d, k, sig);
}

/// Rounds to the nearest representable number a magnitude known by a
/// window: `m * 2^e <= n / d < (m + 1) * 2^e` units, with `sticky` telling
/// whether the magnitude lies strictly inside. A window that is not exact
/// has to be narrow enough: `m` of at least 55 digits.
pub(crate) fn round_pack(
    negative: bool,
    m: u128,
    e: i32,
    sticky: bool,
    Ghost(n): Ghost<nat>,
    Ghost(d): Ghost<nat>,
) -> (r: Binary64)
    requires
        d > 0,
        m < 0x100_0000_0000_0000_0000_0000_0000_0000,
        -8192 <= e <= 8192,
        in_window(m as nat, e as int, n, d),
        sticky <==> !at_window_start(m as nat, e as int, n, d),
        sticky ==> m >= 0x40_0000_0000_0000,
    ensures
        r@ == rounded(negative, n, d),
{
    proof {
        lemma2_to64();
        lemma2_to64_rest();
        lemma_pow2_adds(64, 56);
        lemma_nearest_of_zero(d);
    }
    if m == 0 {
        proof {
            let c = scale_down(e as int);
            lemma_pow2_pos((-e) as nat);
            assert(0 * scale_up(e as int) * d == 0) by (nonlinear_arith);
            assert(n == 0) by (nonlinear_arith)
                requires
                    n * c == 0,
                    c > 0,
            ;
        }
        return Binary64::zero(negative);
    }
    let len: u32 = bit_length_u128(m);
    proof {
        lemma_bit_length_bounds(m as nat);
        if len > 120 {
            lemma_pow2_monotonic(120, (len - 1) as nat);
        }
        if sticky && len < 55 {
            lemma_pow2_monotonic(len as nat, 54);
        }
    }
    let top: i32 = len as i32 - 1 + e;
    let k: i32 = if top > 52 {
        top - 52
    } else {
        0
    };
    let s: i32 = k - e;
    assert(k == dropped_digits(len as nat, e as int));
    let code: u64;
    if s <= 0 {
        // Nothing is dropped: the magnitude is `m * 2^e` exactly.
        proof {
            lemma_round_without_dropping(m as nat, e as int, n, d);
            lemma_pow2_monotonic((-s) as nat, 52);
        }
        if k >= 2046 {
            return Binary64::infinity(negative);
        }
        let scale: u64 = pow2_u64((-s) as u32);
        let mant: u64 = (m as u64) * scale;
        code = (k as u64) * HIDDEN_BIT + mant;
    } else {
        proof {
            lemma_round_with_dropping(m as nat, e as int, sticky, n, d);
        }
        if k >= 2046 {
            return Binary64::infinity(negative);
        }
        if s > 120 {
            return Binary64::zero(negative);
        }
        let p: u128 = pow2_u128(s as u32);
        let half: u128 = pow2_u128((s - 1) as u32);
        let mant: u64 = (m / p) as u64;
        let rest: u128 = m % p;
        let up: bool = rest > half || (rest == half && (sticky || mant % 2 == 1));
        code = (k as u64) * HIDDEN_BIT + mant + if up {
            1u64
        } else {
            0u64
        };
    }
    Binary64::from_code(negative, code)
}

} // verus!
