//! Rounding to nearest with ties to even: its definition, and the lemmas
//! that tie it to significands, exponents and dropped digits.

use crate::binary64::power::{
    bit_length, lemma_bit_length_bounds, lemma_bit_length_unique, lemma_pow2_monotonic,
};
use crate::binary64::value::{units_of_code, Value, HIDDEN_BIT, INFINITY_CODE, SIGNIFICAND_LIMIT};
use vstd::arithmetic::div_mod::{
    lemma_div_is_ordered, lemma_fundamental_div_mod, lemma_fundamental_div_mod_converse,
};
use vstd::arithmetic::power2::{
    lemma2_to64, lemma2_to64_rest, lemma_pow2_adds, lemma_pow2_pos, lemma_pow2_unfold, pow2,
};
use vstd::prelude::*;

verus! {

/// Magnitude code of the largest representable magnitude that does not
/// exceed `q` units, where infinity stands for `2^1024`.
///
/// Below `2^53` units the representable magnitudes are the whole numbers and
/// the code is `q` itself. Above, `q` is cut to its 53 leading digits and the
/// number of digits dropped goes into the exponent field.
pub open spec fn floor_code(q: nat) -> nat {
    if q < SIGNIFICAND_LIMIT {
        q
    } else {
        let dropped = (bit_length(q) - 53) as nat;
        if dropped >= 2046 {
            INFINITY_CODE as nat
        } else {
            dropped * (HIDDEN_BIT as nat) + q / pow2(dropped)
        }
    }
}

/// Magnitude code of the representable magnitude nearest to `n / d` units;
/// a fraction exactly halfway between two neighbours goes to the one with
/// the even code. A magnitude of at least `2^1024 - 2^970` yields infinity.
#[verifier::opaque]
pub open spec fn nearest_code(n: nat, d: nat) -> nat {
    let low = floor_code(n / d);
    if low >= INFINITY_CODE {
        INFINITY_CODE as nat
    } else {
        let twice_middle = units_of_code(low) + units_of_code(low + 1);
        if 2 * n < twice_middle * d || (2 * n == twice_middle * d && low % 2 == 0) {
            low
        } else {
            low + 1
        }
    }
}

/// The value nearest to `n / d` units with the given sign: the result of an
/// operation whose exact outcome has that sign and magnitude.
pub open spec fn rounded(negative: bool, n: nat, d: nat) -> Value {
    let code = nearest_code(n, d);
    if code >= INFINITY_CODE {
        Value::Infinite { negative }
    } else {
        Value::Finite { negative, units: units_of_code(code) }
    }
}

/// A significand and the number of low digits dropped below it, in the one
/// form that a magnitude code holds: nothing dropped and any significand, or
/// a significand with its leading digit in place.
pub open spec fn canonical(dropped: nat, significand: nat) -> bool {
    if dropped == 0 {
        significand < SIGNIFICAND_LIMIT
    } else {
        HIDDEN_BIT <= significand < SIGNIFICAND_LIMIT
    }
}

/// The magnitude of a code assembled from a canonical pair, and of its successor.
pub proof fn lemma_units_of_parts(dropped: nat, significand: nat)
    requires
        canonical(dropped, significand),
    ensures
        units_of_code(dropped * (HIDDEN_BIT as nat) + significand) == significand * pow2(dropped),
        units_of_code(dropped * (HIDDEN_BIT as nat) + significand + 1) == (significand + 1) * pow2(
            dropped,
        ),
{
    let h = HIDDEN_BIT as nat;
    let code = dropped * h + significand;
    lemma2_to64();
    lemma_pow2_unfold(dropped + 1);
    if dropped == 0 {
        assert(code == significand);
        lemma_pow2_unfold(1);
        if significand < h {
            assert(code / h == 0 && code % h == significand);
        } else {
            assert(code / h == 1 && code % h == significand - h);
        }
        if significand + 1 < h {
            assert((code + 1) / h == 0 && (code + 1) % h == significand + 1);
        } else if significand + 1 < 2 * h {
            assert((code + 1) / h == 1 && (code + 1) % h == significand + 1 - h);
        } else {
            assert((code + 1) / h == 2 && (code + 1) % h == 0);
        }
    } else {
        assert(code == (dropped + 1) * h + (significand - h)) by (nonlinear_arith)
            requires
                code == dropped * h + significand,
        ;
        assert(code / h == dropped + 1 && code % h == significand - h) by {
            lemma_fundamental_div_mod(code as int, h as int);
            lemma_fundamental_div_mod_converse(
                code as int,
                h as int,
                (dropped + 1) as int,
                (significand - h) as int,
            );
        }
        if significand + 1 < 2 * h {
            assert((code + 1) / h == dropped + 1 && (code + 1) % h == significand + 1 - h) by {
                lemma_fundamental_div_mod_converse(
                    (code + 1) as int,
                    h as int,
                    (dropped + 1) as int,
                    (significand + 1 - h) as int,
                );
            }
        } else {
            assert(code + 1 == (dropped + 2) * h) by (nonlinear_arith)
                requires
                    code == dropped * h + significand,
                    significand + 1 == 2 * h,
            ;
            assert((code + 1) / h == dropped + 2 && (code + 1) % h == 0) by {
                lemma_fundamental_div_mod_converse(
                    (code + 1) as int,
                    h as int,
                    (dropped + 2) as int,
                    0,
                );
            }
            assert(h * pow2(dropped + 1) == (significand + 1) * pow2(dropped)) by (nonlinear_arith)
                requires
                    pow2(dropped + 1) == 2 * pow2(dropped),
                    significand + 1 == 2 * h,
            ;
        }
    }
}

/// A quotient lies in the window that its numerator lies in, scaled by the denominator.
pub proof fn lemma_quotient_window(n: nat, d: nat, a: nat, b: nat)
    requires
        d > 0,
        a * d <= n < b * d,
    ensures
        a <= n / d < b,
{
    let q = n / d;
    lemma_fundamental_div_mod(n as int, d as int);
    assert(n == d * q + n % d);
    if q < a {
        assert((q + 1) * d <= a * d) by (nonlinear_arith)
            requires
                q + 1 <= a,
                d > 0,
        ;
        assert((q + 1) * d == d * q + d) by (nonlinear_arith);
    }
    if q >= b {
        assert(b * d <= q * d) by (nonlinear_arith)
            requires
                b <= q,
                d > 0,
        ;
        assert(q * d == d * q) by (nonlinear_arith);
    }
}

/// The floor code of any magnitude inside the window of a canonical pair.
pub proof fn lemma_floor_code_window(q: nat, dropped: nat, significand: nat)
    requires
        canonical(dropped, significand),
        significand * pow2(dropped) <= q < (significand + 1) * pow2(dropped),
    ensures
        dropped < 2046 ==> floor_code(q) == dropped * (HIDDEN_BIT as nat) + significand,
        dropped >= 2046 ==> floor_code(q) == INFINITY_CODE,
{
    let h = HIDDEN_BIT as nat;
    let p = pow2(dropped);
    lemma2_to64();
    lemma2_to64_rest();
    lemma_pow2_pos(dropped);
    if dropped == 0 {
        assert(significand * p == significand && (significand + 1) * p == significand + 1)
            by (nonlinear_arith)
            requires
                p == 1,
        ;
    } else {
        lemma_pow2_adds(52, dropped);
        lemma_pow2_adds(53, dropped);
        assert(pow2(52) == h);
        assert(pow2(53) == 2 * h);
        assert(h * p <= significand * p) by (nonlinear_arith)
            requires
                h <= significand,
        ;
        assert((significand + 1) * p <= (2 * h) * p) by (nonlinear_arith)
            requires
                significand + 1 <= 2 * h,
        ;
        lemma_pow2_monotonic(53, 52 + dropped);
        assert(q >= SIGNIFICAND_LIMIT);
        lemma_bit_length_unique(q, 53 + dropped);
        assert((bit_length(q) - 53) as nat == dropped);
        lemma_quotient_window(q, p, significand, significand + 1);
    }
}

/// The nearest code of any fraction inside the window of a canonical pair:
/// the pair's own code or its successor, by the side of the middle of the
/// window on which the fraction lies.
pub proof fn lemma_nearest_code_window(n: nat, d: nat, dropped: nat, significand: nat)
    requires
        d > 0,
        canonical(dropped, significand),
        significand * pow2(dropped) * d <= n < (significand + 1) * pow2(dropped) * d,
    ensures
        dropped >= 2046 ==> nearest_code(n, d) == INFINITY_CODE,
        dropped < 2046 ==> nearest_code(n, d) == ({
            let low = dropped * (HIDDEN_BIT as nat) + significand;
            let twice_middle = (2 * significand + 1) * pow2(dropped);
            if 2 * n < twice_middle * d || (2 * n == twice_middle * d && significand % 2 == 0) {
                low
            } else {
                low + 1
            }
        }),
{
    reveal(nearest_code);
    let h = HIDDEN_BIT as nat;
    let p = pow2(dropped);
    let q = n / d;
    lemma_quotient_window(n, d, significand * p, (significand + 1) * p);
    lemma_floor_code_window(q, dropped, significand);
    if dropped < 2046 {
        let low = dropped * h + significand;
        lemma_units_of_parts(dropped, significand);
        assert(low < INFINITY_CODE) by (nonlinear_arith)
            requires
                low == dropped * h + significand,
                dropped <= 2045,
                significand < 2 * h,
                h == 0x10_0000_0000_0000,
                INFINITY_CODE == 0x7FF0_0000_0000_0000,
        ;
        assert(significand * p + (significand + 1) * p == (2 * significand + 1) * p)
            by (nonlinear_arith);
        assert(low % 2 == significand % 2) by {
            assert(dropped * h == 2 * (dropped * 0x8_0000_0000_0000)) by (nonlinear_arith)
                requires
                    h == 0x10_0000_0000_0000,
            ;
        }
    }
}

/// `2^e` written as a fraction of two powers with natural exponents.
pub open spec fn scale_up(e: int) -> nat {
    if e >= 0 {
        pow2(e as nat)
    } else {
        1
    }
}

pub open spec fn scale_down(e: int) -> nat {
    if e < 0 {
        pow2((-e) as nat)
    } else {
        1
    }
}

/// `m * 2^e <= n / d < (m + 1) * 2^e`.
pub open spec fn in_window(m: nat, e: int, n: nat, d: nat) -> bool {
    m * scale_up(e) * d <= n * scale_down(e) < (m + 1) * scale_up(e) * d
}

/// `n / d == m * 2^e`.
pub open spec fn at_window_start(m: nat, e: int, n: nat, d: nat) -> bool {
    m * scale_up(e) * d == n * scale_down(e)
}

proof fn lemma_narrowing_algebra(
    c: nat,
    w: nat,
    u: nat,
    big_n: nat,
    n: nat,
    m: nat,
    mant: nat,
    rem: nat,
    half: nat,
)
    requires
        c > 0,
        w > 0,
        big_n == n * c,
        m == mant * (2 * half) + rem,
        rem < 2 * half,
        m * w <= big_n < (m + 1) * w,
        c * u == (2 * half) * w,
    ensures
        mant * u <= n < (mant + 1) * u,
        rem < half ==> 2 * n < (2 * mant + 1) * u,
        rem > half ==> 2 * n > (2 * mant + 1) * u,
        rem == half ==> 2 * n >= (2 * mant + 1) * u,
        rem == half ==> (2 * n == (2 * mant + 1) * u <==> m * w == big_n),
{
    let x = mant * u;
    let hw = half * w;
    let rw = rem * w;
    let cx = c * x;
    let cu = c * u;
    assert(cu == 2 * hw) by (nonlinear_arith)
        requires
            cu == (2 * half) * w,
            hw == half * w,
    ;
    assert(mant * (2 * half) * w == cx) by (nonlinear_arith)
        requires
            c * u == (2 * half) * w,
            cx == c * (mant * u),
    ;
    assert(m * w == cx + rw) by (nonlinear_arith)
        requires
            m == mant * (2 * half) + rem,
            mant * (2 * half) * w == cx,
            rw == rem * w,
    ;
    assert((m + 1) * w == cx + rw + w) by (nonlinear_arith)
        requires
            m * w == cx + rw,
    ;
    let cn = c * n;
    assert(cn == big_n) by (nonlinear_arith)
        requires
            big_n == n * c,
            cn == c * n,
    ;
    // cx + rw <= cn < cx + rw + w, and rw + w <= 2 * hw
    assert(rw + w <= 2 * hw) by (nonlinear_arith)
        requires
            rw == rem * w,
            hw == half * w,
            rem + 1 <= 2 * half,
    ;
    assert(n >= x) by (nonlinear_arith)
        requires
            c * n >= c * x,
            c > 0,
    ;
    assert(c * (x + u) == cx + cu) by (nonlinear_arith)
        requires
            cx == c * x,
            cu == c * u,
    ;
    assert(n < x + u) by (nonlinear_arith)
        requires
            c * n < c * (x + u),
            c > 0,
    ;
    assert((mant + 1) * u == x + u) by (nonlinear_arith)
        requires
            x == mant * u,
    ;
    assert((2 * mant + 1) * u == 2 * x + u) by (nonlinear_arith)
        requires
            x == mant * u,
    ;
    assert(c * (2 * x + u) == 2 * cx + cu) by (nonlinear_arith)
        requires
            cx == c * x,
            cu == c * u,
    ;
    assert(c * (2 * n) == 2 * cn) by (nonlinear_arith)
        requires
            cn == c * n,
    ;
    if rem < half {
        assert(rw + w <= hw) by (nonlinear_arith)
            requires
                rw == rem * w,
                hw == half * w,
                rem + 1 <= half,
        ;
        assert(2 * n < 2 * x + u) by (nonlinear_arith)
            requires
                c * (2 * n) < c * (2 * x + u),
                c > 0,
        ;
    }
    if rem > half {
        assert(rw >= hw + w) by (nonlinear_arith)
            requires
                rw == rem * w,
                hw == half * w,
                rem >= half + 1,
        ;
        assert(2 * n > 2 * x + u) by (nonlinear_arith)
            requires
                c * (2 * n) > c * (2 * x + u),
                c > 0,
        ;
    }
    if rem == half {
        assert(rw == hw);
        assert(2 * n >= 2 * x + u) by (nonlinear_arith)
            requires
                c * (2 * n) >= c * (2 * x + u),
                c > 0,
        ;
        if 2 * n == 2 * x + u {
            assert(c * (2 * n) == c * (2 * x + u));
        }
        if m * w == big_n {
            assert(2 * n == 2 * x + u) by (nonlinear_arith)
                requires
                    c * (2 * n) == c * (2 * x + u),
                    c > 0,
            ;
        }
    }
}

/// Dropping the `s` low digits of `m` widens the window of `(m, e)` to that
/// of `(m / 2^s, e + s)`; the digits dropped tell on which side of the
/// middle of the wider window the fraction lies.
pub proof fn lemma_window_narrowing(m: nat, e: int, n: nat, d: nat, s: nat)
    requires
        d > 0,
        s >= 1,
        e + s >= 0,
        in_window(m, e, n, d),
    ensures
        ({
            let mant = m / pow2(s);
            let rem = m % pow2(s);
            let half = pow2((s - 1) as nat);
            let u = pow2((e + s) as nat) * d;
            &&& mant * pow2((e + s) as nat) * d <= n < (mant + 1) * pow2((e + s) as nat) * d
            &&& rem < half ==> 2 * n < (2 * mant + 1) * pow2((e + s) as nat) * d
            &&& rem > half ==> 2 * n > (2 * mant + 1) * pow2((e + s) as nat) * d
            &&& rem == half ==> 2 * n >= (2 * mant + 1) * pow2((e + s) as nat) * d
            &&& rem == half ==> (2 * n == (2 * mant + 1) * pow2((e + s) as nat) * d
                <==> at_window_start(m, e, n, d))
        }),
{
    let big_p = pow2(s);
    let mant = m / big_p;
    let rem = m % big_p;
    let half = pow2((s - 1) as nat);
    let k = (e + s) as nat;
    let c = scale_down(e);
    let up = scale_up(e);
    let w = up * d;
    let u = pow2(k) * d;
    lemma_pow2_pos(s);
    lemma_pow2_pos(k);
    lemma_pow2_unfold(s);
    lemma2_to64();
    lemma_fundamental_div_mod(m as int, big_p as int);
    assert(m == mant * (2 * half) + rem) by (nonlinear_arith)
        requires
            m == big_p * mant + rem,
            big_p == 2 * half,
    ;
    if e >= 0 {
        lemma_pow2_pos(e as nat);
        lemma_pow2_adds(s, e as nat);
        assert(c == 1);
        assert(pow2(k) == big_p * up);
    } else {
        lemma_pow2_pos((-e) as nat);
        lemma_pow2_adds(k, (-e) as nat);
        assert(up == 1);
        assert(big_p == pow2(k) * c);
    }
    assert(c * u == (2 * half) * w) by (nonlinear_arith)
        requires
            u == pow2(k) * d,
            w == up * d,
            pow2(k) * c == big_p * up,
            big_p == 2 * half,
    ;
    assert(w > 0) by (nonlinear_arith)
        requires
            w == up * d,
            up > 0,
            d > 0,
    ;
    assert(m * up * d == m * w && (m + 1) * up * d == (m + 1) * w) by (nonlinear_arith)
        requires
            w == up * d,
    ;
    lemma_narrowing_algebra(c, w, u, n * c, n, m, mant, rem, half);
    assert(mant * pow2(k) * d == mant * u && (mant + 1) * pow2(k) * d == (mant + 1) * u && (2 * mant
        + 1) * pow2(k) * d == (2 * mant + 1) * u) by (nonlinear_arith)
        requires
            u == pow2(k) * d,
    ;
}

/// A window stated with two natural exponents, `m * 2^a / 2^b`, is the
/// window of `(m, a - b)`.
pub proof fn lemma_window_from_powers(m: nat, a: nat, b: nat, n: nat, d: nat)
    requires
        d > 0,
        m * pow2(a) * d <= n * pow2(b) < (m + 1) * pow2(a) * d,
    ensures
        in_window(m, a - b, n, d),
        at_window_start(m, a - b, n, d) <==> m * pow2(a) * d == n * pow2(b),
{
    let e = a - b;
    let pa = pow2(a);
    let pb = pow2(b);
    lemma_pow2_pos(a);
    lemma_pow2_pos(b);
    if e >= 0 {
        let pe = pow2(e as nat);
        lemma_pow2_adds(e as nat, b);
        assert(pa == pe * pb);
        let lo = m * pe * d;
        let hi = (m + 1) * pe * d;
        assert(m * pa * d == lo * pb && (m + 1) * pa * d == hi * pb) by (nonlinear_arith)
            requires
                pa == pe * pb,
                lo == m * pe * d,
                hi == (m + 1) * pe * d,
        ;
        assert(lo <= n) by (nonlinear_arith)
            requires
                lo * pb <= n * pb,
                pb > 0,
        ;
        assert(n < hi) by (nonlinear_arith)
            requires
                n * pb < hi * pb,
                pb > 0,
        ;
        assert(n * 1 == n && m * 1 == m) by (nonlinear_arith);
        if lo == n {
            assert(lo * pb == n * pb);
        }
        if m * pa * d == n * pb {
            assert(lo == n) by (nonlinear_arith)
                requires
                    lo * pb == n * pb,
                    pb > 0,
            ;
        }
    } else {
        let pe = pow2((-e) as nat);
        lemma_pow2_adds((-e) as nat, a);
        assert(pb == pe * pa);
        let x = n * pe;
        assert(n * pb == x * pa) by (nonlinear_arith)
            requires
                pb == pe * pa,
                x == n * pe,
        ;
        let lo = m * d;
        let hi = (m + 1) * d;
        assert(m * pa * d == lo * pa && (m + 1) * pa * d == hi * pa) by (nonlinear_arith)
            requires
                lo == m * d,
                hi == (m + 1) * d,
        ;
        assert(lo <= x) by (nonlinear_arith)
            requires
                lo * pa <= x * pa,
                pa > 0,
        ;
        assert(x < hi) by (nonlinear_arith)
            requires
                x * pa < hi * pa,
                pa > 0,
        ;
        assert(m * 1 * d == lo && (m + 1) * 1 * d == hi) by (nonlinear_arith)
            requires
                lo == m * d,
                hi == (m + 1) * d,
        ;
        if lo == x {
            assert(lo * pa == x * pa);
        }
        if m * pa * d == n * pb {
            assert(lo == x) by (nonlinear_arith)
                requires
                    lo * pa == x * pa,
                    pa > 0,
            ;
        }
    }
}

/// Rounding leaves a magnitude that a code can hold as it is.
pub proof fn lemma_rounded_exact(negative: bool, significand: nat, exponent: nat)
    requires
        significand < SIGNIFICAND_LIMIT,
        exponent <= 2045,
    ensures
        rounded(negative, significand * pow2(exponent), 1) == (Value::Finite {
            negative,
            units: significand * pow2(exponent),
        }),
        nearest_code(significand * pow2(exponent), 1) < INFINITY_CODE,
{
    let n = significand * pow2(exponent);
    lemma2_to64();
    lemma2_to64_rest();
    lemma_pow2_pos(exponent);
    let len = bit_length(significand);
    if significand > 0 {
        lemma_bit_length_bounds(significand);
        if len > 53 {
            lemma_pow2_monotonic(53, (len - 1) as nat);
        }
    }
    let room = (53 - len) as nat;
    let lift: nat = if significand == 0 || exponent < room {
        exponent
    } else {
        room
    };
    let k = (exponent - lift) as nat;
    let sig = significand * pow2(lift);
    lemma_pow2_pos(lift);
    lemma_pow2_pos(k);
    lemma_pow2_adds(lift, k);
    assert(sig * pow2(k) == n) by (nonlinear_arith)
        requires
            sig == significand * pow2(lift),
            n == significand * pow2(exponent),
            pow2(exponent) == pow2(lift) * pow2(k),
    ;
    if significand == 0 {
        assert(sig == 0) by (nonlinear_arith)
            requires
                sig == significand * pow2(lift),
                significand == 0,
        ;
    } else {
        lemma_pow2_adds(len, lift);
        lemma_pow2_monotonic(len + lift, 53);
        assert(sig < pow2(len) * pow2(lift)) by (nonlinear_arith)
            requires
                sig == significand * pow2(lift),
                significand < pow2(len),
                pow2(lift) > 0,
        ;
        if k > 0 {
            lemma_pow2_adds((len - 1) as nat, lift);
            assert(sig >= pow2((len - 1) as nat) * pow2(lift)) by (nonlinear_arith)
                requires
                    sig == significand * pow2(lift),
                    significand >= pow2((len - 1) as nat),
                    pow2(lift) > 0,
            ;
        }
    }
    assert(canonical(k, sig));
    let pk = pow2(k);
    assert(sig * pk * 1 == n && (sig + 1) * pk * 1 > n && (2 * sig + 1) * pk * 1 > 2 * n)
        by (nonlinear_arith)
        requires
            sig * pk == n,
            pk > 0,
    ;
    lemma_nearest_code_window(n, 1, k, sig);
    lemma_units_of_parts(k, sig);
    let low = k * (HIDDEN_BIT as nat) + sig;
    assert(low < INFINITY_CODE) by (nonlinear_arith)
        requires
            low == k * (HIDDEN_BIT as nat) + sig,
            k <= 2045,
            sig < 0x20_0000_0000_0000,
            HIDDEN_BIT == 0x10_0000_0000_0000,
            INFINITY_CODE == 0x7FF0_0000_0000_0000,
    ;
}

/// The canonical pair of a magnitude code.
pub proof fn lemma_code_parts(code: nat)
    requires
        code <= INFINITY_CODE,
    ensures
        ({
            let field = code / (HIDDEN_BIT as nat);
            let dropped: nat = if field == 0 {
                0
            } else {
                (field - 1) as nat
            };
            let significand = (code - dropped * HIDDEN_BIT) as nat;
            &&& dropped <= 2046
            &&& code == dropped * HIDDEN_BIT + significand
            &&& canonical(dropped, significand)
            &&& units_of_code(code) == significand * pow2(dropped)
        }),
{
    let h = HIDDEN_BIT as nat;
    let field = code / h;
    let fraction = code % h;
    let dropped: nat = if field == 0 {
        0
    } else {
        (field - 1) as nat
    };
    let significand = (code - dropped * h) as nat;
    lemma_fundamental_div_mod(code as int, h as int);
    assert(h * field == field * h) by (nonlinear_arith);
    if field == 0 {
        assert(significand == fraction);
    } else {
        assert((field - 1) * h + h == field * h) by (nonlinear_arith);
        assert(significand == h + fraction);
    }
    lemma_units_of_parts(dropped, significand);
}

/// A larger code stands for a larger magnitude, infinity counting as `2^1024`.
pub proof fn lemma_units_increase(c1: nat, c2: nat)
    requires
        c1 < c2 <= INFINITY_CODE,
    ensures
        units_of_code(c1) < units_of_code(c2),
{
    let h = HIDDEN_BIT as nat;
    lemma_code_parts(c1);
    lemma_code_parts(c2);
    let f1 = c1 / h;
    let f2 = c2 / h;
    let k1: nat = if f1 == 0 { 0 } else { (f1 - 1) as nat };
    let k2: nat = if f2 == 0 { 0 } else { (f2 - 1) as nat };
    let s1 = (c1 - k1 * h) as nat;
    let s2 = (c2 - k2 * h) as nat;
    lemma2_to64();
    lemma2_to64_rest();
    lemma_pow2_pos(k1);
    lemma_pow2_pos(k2);
    assert(f1 <= f2) by {
        lemma_div_is_ordered(c1 as int, c2 as int, h as int);
    }
    if k1 == k2 {
        assert(s1 < s2);
        assert(s1 * pow2(k1) < s2 * pow2(k1)) by (nonlinear_arith)
            requires
                s1 < s2,
                pow2(k1) > 0,
        ;
    } else {
        assert(k1 < k2);
        lemma_pow2_adds(53, k1);
        lemma_pow2_adds(52, k2);
        lemma_pow2_monotonic(53 + k1, 52 + k2);
        assert(s1 * pow2(k1) < pow2(53) * pow2(k1)) by (nonlinear_arith)
            requires
                s1 < pow2(53),
                pow2(k1) > 0,
        ;
        assert(s2 * pow2(k2) >= pow2(52) * pow2(k2)) by (nonlinear_arith)
            requires
                s2 >= pow2(52),
                pow2(k2) > 0,
        ;
    }
}

/// Zero rounds to zero.
pub proof fn lemma_nearest_of_zero(d: nat)
    requires
        d > 0,
    ensures
        nearest_code(0, d) == 0,
        units_of_code(0) == 0,
{
    lemma2_to64();
    assert(0 * pow2(0) * d == 0 && (0 + 1) * pow2(0) * d == d && (2 * 0 + 1) * pow2(0) * d == d)
        by (nonlinear_arith)
        requires
            pow2(0) == 1,
    ;
    lemma_nearest_code_window(0, d, 0, 0);
    lemma_units_of_parts(0, 0);
    assert(0 * pow2(0) == 0) by (nonlinear_arith);
}

} // verus!
