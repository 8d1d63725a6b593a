//! Laws of the arithmetic: rounding gives a nearest number and keeps
//! the order of what it rounds, and whole numbers compute exactly.

use crate::binary64::power::{bit_length, lemma_bit_length_bounds, lemma_pow2_monotonic};
use crate::binary64::rounding::{
    canonical, floor_code, lemma_code_parts, lemma_floor_code_window, lemma_nearest_code_window,
    lemma_quotient_window, lemma_rounded_exact, lemma_units_increase, lemma_units_of_parts,
    nearest_code, rounded,
};
use crate::binary64::value::{
    units_of_code, Binary64, Value, HIDDEN_BIT, INFINITY_CODE, SIGNIFICAND_LIMIT, SIGN_BIT,
};
use vstd::arithmetic::div_mod::{
    lemma_div_by_multiple, lemma_div_multiples_vanish_quotient, lemma_fundamental_div_mod,
    lemma_truncate_middle,
};
use vstd::arithmetic::power2::{
    lemma2_to64, lemma2_to64_rest, lemma_pow2_adds, lemma_pow2_pos, pow2,
};
use vstd::prelude::*;

verus! {

/// The distance between two whole numbers.
pub open spec fn distance(a: nat, b: nat) -> nat {
    if a <= b {
        (b - a) as nat
    } else {
        (a - b) as nat
    }
}

/// Infinity stands for `2^1024`, that is `2^2098` units.
pub proof fn lemma_units_of_infinity()
    ensures
        units_of_code(INFINITY_CODE as nat) == pow2(2098),
{
    lemma2_to64();
    lemma2_to64_rest();
    lemma_pow2_adds(52, 2046);
    let code = INFINITY_CODE as nat;
    assert(code / (HIDDEN_BIT as nat) == 2047 && code % (HIDDEN_BIT as nat) == 0);
}

/// Codes and magnitudes are ordered alike.
pub proof fn lemma_units_ordered(c1: nat, c2: nat)
    requires
        c1 <= c2 <= INFINITY_CODE,
    ensures
        units_of_code(c1) <= units_of_code(c2),
{
    if c1 < c2 {
        lemma_units_increase(c1, c2);
    }
}

/// The floor code brackets its argument: its magnitude does not exceed
/// `q`, and unless it is infinity the magnitude of the next code does.
pub proof fn lemma_floor_code_brackets(q: nat)
    ensures
        floor_code(q) <= INFINITY_CODE,
        units_of_code(floor_code(q)) <= q,
        floor_code(q) < INFINITY_CODE ==> q < units_of_code(floor_code(q) + 1),
{
    let h = HIDDEN_BIT as nat;
    lemma2_to64();
    lemma2_to64_rest();
    if q < SIGNIFICAND_LIMIT {
        lemma_units_of_parts(0, q);
        assert(q * pow2(0) == q && (q + 1) * pow2(0) == q + 1) by (nonlinear_arith)
            requires
                pow2(0) == 1,
        ;
    } else {
        let len = bit_length(q);
        lemma_bit_length_bounds(q);
        if len < 54 {
            lemma_pow2_monotonic(len, 53);
        }
        let k = (len - 53) as nat;
        let pk = pow2(k);
        let sig = q / pk;
        lemma_pow2_pos(k);
        lemma_pow2_adds(52, k);
        lemma_pow2_adds(53, k);
        lemma_quotient_window(q, pk, pow2(52), pow2(53));
        lemma_fundamental_div_mod(q as int, pk as int);
        assert(sig * pk <= q < (sig + 1) * pk) by (nonlinear_arith)
            requires
                q == pk * sig + q % pk,
                0 <= q % pk < pk,
        ;
        assert(canonical(k, sig));
        lemma_floor_code_window(q, k, sig);
        if k < 2046 {
            lemma_units_of_parts(k, sig);
            assert(k * h + sig < INFINITY_CODE) by (nonlinear_arith)
                requires
                    k <= 2045,
                    sig < 0x20_0000_0000_0000,
                    h == 0x10_0000_0000_0000,
                    INFINITY_CODE == 0x7FF0_0000_0000_0000,
            ;
        } else {
            lemma_units_of_infinity();
            lemma_pow2_monotonic(2098, 52 + k);
            assert(sig * pk >= pow2(52) * pk) by (nonlinear_arith)
                requires
                    sig >= pow2(52),
                    pk > 0,
            ;
        }
    }
}

/// The floor code never decreases as its argument grows.
pub proof fn lemma_floor_code_monotonic(q1: nat, q2: nat)
    requires
        q1 <= q2,
    ensures
        floor_code(q1) <= floor_code(q2),
{
    let l1 = floor_code(q1);
    let l2 = floor_code(q2);
    lemma_floor_code_brackets(q1);
    lemma_floor_code_brackets(q2);
    if l2 < l1 {
        lemma_units_ordered(l2 + 1, l1);
    }
}

/// Rounding picks a nearest code: no code stands for a magnitude closer to
/// `n / d` than the one that `nearest_code` gives. Of two codes at the same
/// distance it gives the even one.
pub proof fn lemma_nearest_code_is_nearest(n: nat, d: nat, other: nat)
    requires
        d > 0,
        other <= INFINITY_CODE,
    ensures
        nearest_code(n, d) <= INFINITY_CODE,
        distance(units_of_code(nearest_code(n, d)) * d, n) <= distance(
            units_of_code(other) * d,
            n,
        ),
        other != nearest_code(n, d) && distance(units_of_code(nearest_code(n, d)) * d, n)
            == distance(units_of_code(other) * d, n) ==> nearest_code(n, d) % 2 == 0,
{
    reveal(nearest_code);
    let q = n / d;
    let low = floor_code(q);
    let uo = units_of_code(other);
    lemma_floor_code_brackets(q);
    lemma_fundamental_div_mod(n as int, d as int);
    assert(q * d <= n < (q + 1) * d) by (nonlinear_arith)
        requires
            n == d * q + n % d,
            0 <= n % d < d,
    ;
    if low >= INFINITY_CODE {
        let top = units_of_code(INFINITY_CODE as nat);
        lemma_units_ordered(other, INFINITY_CODE as nat);
        if other < INFINITY_CODE {
            lemma_units_increase(other, INFINITY_CODE as nat);
        }
        assert(top * d <= n) by (nonlinear_arith)
            requires
                top <= q,
                q * d <= n,
        ;
        assert(uo * d <= top * d) by (nonlinear_arith)
            requires
                uo <= top,
        ;
        if uo < top {
            assert(uo * d < top * d) by (nonlinear_arith)
                requires
                    uo < top,
                    d > 0,
            ;
        }
    } else {
        let a = units_of_code(low);
        let b = units_of_code(low + 1);
        assert(a * d <= n) by (nonlinear_arith)
            requires
                a <= q,
                q * d <= n,
        ;
        assert(n < b * d) by (nonlinear_arith)
            requires
                q + 1 <= b,
                n < (q + 1) * d,
        ;
        assert((a + b) * d == a * d + b * d) by (nonlinear_arith);
        if other <= low {
            lemma_units_ordered(other, low);
            if other < low {
                lemma_units_increase(other, low);
                assert(uo * d < a * d) by (nonlinear_arith)
                    requires
                        uo < a,
                        d > 0,
                ;
            }
            assert(uo * d <= a * d) by (nonlinear_arith)
                requires
                    uo <= a,
            ;
        } else {
            lemma_units_ordered(low + 1, other);
            if other > low + 1 {
                lemma_units_increase(low + 1, other);
                assert(uo * d > b * d) by (nonlinear_arith)
                    requires
                        uo > b,
                        d > 0,
                ;
            }
            assert(uo * d >= b * d) by (nonlinear_arith)
                requires
                    uo >= b,
            ;
        }
    }
}

/// Rounding keeps the order: the larger of two fractions does not round
/// to the smaller code.
pub proof fn lemma_nearest_code_monotonic(n1: nat, d1: nat, n2: nat, d2: nat)
    requires
        d1 > 0,
        d2 > 0,
        n1 * d2 <= n2 * d1,
    ensures
        nearest_code(n1, d1) <= nearest_code(n2, d2),
        nearest_code(n2, d2) <= INFINITY_CODE,
{
    reveal(nearest_code);
    let q1 = n1 / d1;
    let q2 = n2 / d2;
    lemma_fundamental_div_mod(n1 as int, d1 as int);
    lemma_fundamental_div_mod(n2 as int, d2 as int);
    assert(q1 <= q2) by (nonlinear_arith)
        requires
            n1 == d1 * q1 + n1 % d1,
            n2 == d2 * q2 + n2 % d2,
            0 <= n1 % d1 < d1,
            0 <= n2 % d2 < d2,
            n1 * d2 <= n2 * d1,
            d1 > 0,
            d2 > 0,
    ;
    lemma_floor_code_monotonic(q1, q2);
    lemma_floor_code_brackets(q1);
    lemma_floor_code_brackets(q2);
    let l1 = floor_code(q1);
    let l2 = floor_code(q2);
    if l1 == l2 && l1 < INFINITY_CODE {
        let t = units_of_code(l1) + units_of_code(l1 + 1);
        let x1 = 2 * n1;
        let x2 = 2 * n2;
        let y1 = t * d1;
        let y2 = t * d2;
        assert(x1 * d2 <= x2 * d1 && y1 * d2 == y2 * d1) by (nonlinear_arith)
            requires
                n1 * d2 <= n2 * d1,
                x1 == 2 * n1,
                x2 == 2 * n2,
                y1 == t * d1,
                y2 == t * d2,
        ;
        if x1 >= y1 {
            assert(x2 >= y2) by (nonlinear_arith)
                requires
                    x1 >= y1,
                    x1 * d2 <= x2 * d1,
                    y1 * d2 == y2 * d1,
                    d1 > 0,
                    d2 > 0,
            ;
        }
        if x1 > y1 {
            assert(x2 > y2) by (nonlinear_arith)
                requires
                    x1 > y1,
                    x1 * d2 <= x2 * d1,
                    y1 * d2 == y2 * d1,
                    d1 > 0,
                    d2 > 0,
            ;
        }
    }
}

/// Rounding sees a fraction, not the pair that writes it: scaling both by
/// the same factor changes nothing.
pub proof fn lemma_nearest_code_of_scaled(n: nat, d: nat, c: nat)
    requires
        d > 0,
        c > 0,
    ensures
        nearest_code(n * c, d * c) == nearest_code(n, d),
        rounded(true, n * c, d * c) == rounded(true, n, d),
        rounded(false, n * c, d * c) == rounded(false, n, d),
{
    reveal(nearest_code);
    lemma_div_multiples_vanish_quotient(c as int, n as int, d as int);
    assert(c * n == n * c && c * d == d * c) by (nonlinear_arith);
    let low = floor_code(n / d);
    if low < INFINITY_CODE {
        let t = units_of_code(low) + units_of_code(low + 1);
        assert(2 * (n * c) == (2 * n) * c && t * (d * c) == (t * d) * c) by (nonlinear_arith);
        let x = 2 * n;
        let y = t * d;
        assert((x < y <==> x * c < y * c) && (x == y <==> x * c == y * c)) by (nonlinear_arith)
            requires
                c > 0,
        ;
    }
}

/// Rounding the magnitude of a code gives the code back.
pub proof fn lemma_nearest_code_of_units(code: nat)
    requires
        code <= INFINITY_CODE,
    ensures
        nearest_code(units_of_code(code), 1) == code,
{
    let h = HIDDEN_BIT as nat;
    lemma_code_parts(code);
    let field = code / h;
    let dropped: nat = if field == 0 {
        0
    } else {
        (field - 1) as nat
    };
    let sig = (code - dropped * h) as nat;
    let n = units_of_code(code);
    let pk = pow2(dropped);
    lemma_pow2_pos(dropped);
    assert(sig * pk * 1 == n && (sig + 1) * pk * 1 > n && (2 * sig + 1) * pk * 1 > 2 * n)
        by (nonlinear_arith)
        requires
            sig * pk == n,
            pk > 0,
    ;
    lemma_nearest_code_window(n, 1, dropped, sig);
}

/// Where a rounded whole magnitude stands on the number line.
pub proof fn lemma_position_of_rounded(negative: bool, n: nat)
    ensures
        nearest_code(n, 1) <= INFINITY_CODE,
        rounded(negative, n, 1).position() == (if negative {
            -(units_of_code(nearest_code(n, 1)) as int)
        } else {
            units_of_code(nearest_code(n, 1)) as int
        }),
{
    lemma_nearest_code_monotonic(n, 1, n, 1);
    lemma_units_of_infinity();
}

/// The ratio of two whole numbers is the number nearest to their fraction.
pub proof fn lemma_ratio_is_nearest(numerator: nat, denominator: nat)
    requires
        denominator > 0,
    ensures
        Value::ratio(numerator, denominator) == rounded(
            false,
            numerator * pow2(1074),
            denominator,
        ),
{
    let p = pow2(1074);
    lemma_pow2_pos(1074);
    assert(denominator * p > 0) by (nonlinear_arith)
        requires
            denominator > 0,
            p > 0,
    ;
    lemma_nearest_code_of_scaled(numerator * p, denominator, p);
}

/// A whole number below `2^53` times a power of two that a code can hold
/// is a magnitude that rounding leaves alone, whatever denominator it is
/// written over.
pub proof fn lemma_rounded_exact_fraction(
    negative: bool,
    significand: nat,
    exponent: nat,
    d: nat,
)
    requires
        significand < SIGNIFICAND_LIMIT,
        exponent <= 2045,
        d > 0,
    ensures
        rounded(negative, significand * pow2(exponent) * d, d) == (Value::Finite {
            negative,
            units: significand * pow2(exponent),
        }),
{
    let u = significand * pow2(exponent);
    lemma_rounded_exact(negative, significand, exponent);
    lemma_nearest_code_of_scaled(u, 1, d);
    assert(1 * d == d) by (nonlinear_arith);
}

/// A fraction that does not exceed a magnitude that a code can hold rounds
/// to a finite number that does not exceed it either.
pub proof fn lemma_rounded_at_most(
    negative: bool,
    n: nat,
    d: nat,
    significand: nat,
    exponent: nat,
)
    requires
        d > 0,
        significand < SIGNIFICAND_LIMIT,
        exponent <= 2045,
        n <= significand * pow2(exponent) * d,
    ensures
        rounded(negative, n, d) is Finite,
        rounded(negative, n, d)->units <= significand * pow2(exponent),
        rounded(negative, n, d).is_negative() == negative,
        rounded(negative, n, d)->units == units_of_code(nearest_code(n, d)),
        nearest_code(n, d) < INFINITY_CODE,
{
    let bound = significand * pow2(exponent);
    lemma_rounded_exact(negative, significand, exponent);
    assert(n * 1 <= bound * d) by (nonlinear_arith)
        requires
            n <= bound * d,
    ;
    lemma_nearest_code_monotonic(n, d, bound, 1);
    lemma_units_ordered(nearest_code(n, d), nearest_code(bound, 1));
}

/// A whole number over its double is one half.
pub proof fn lemma_half(count: nat)
    requires
        count > 0,
    ensures
        Value::ratio(count, 2 * count) == (Value::Finite { negative: false, units: pow2(1073) }),
{
    let h = pow2(1073);
    let p = pow2(1074);
    lemma_pow2_pos(1073);
    vstd::arithmetic::power2::lemma_pow2_unfold(1074);
    let d = 4 * count * h;
    assert(d > 0) by (nonlinear_arith)
        requires
            d == 4 * count * h,
            count > 0,
            h > 0,
    ;
    assert((count * p) * p == 1 * h * d && (2 * count) * p == d && 1 * h == h) by (nonlinear_arith)
        requires
            p == 2 * h,
            d == 4 * count * h,
    ;
    lemma_rounded_exact_fraction(false, 1, 1073, d);
}

/// Adding a number that is not negative never moves a finite number to the
/// left, and adding one that is not positive never moves it to the right,
/// rounding included.
pub proof fn lemma_sum_keeps_side(a: Binary64, b: Value)
    requires
        a@ is Finite,
        !b.is_nan(),
    ensures
        b.position() >= 0 ==> a@.at_most(a@.plus(b)),
        b.position() <= 0 ==> a@.plus(b).at_most(a@),
{
    let code = (a.bits % SIGN_BIT) as nat;
    let x = units_of_code(code);
    lemma_units_of_infinity();
    lemma_units_increase(code, INFINITY_CODE as nat);
    lemma_nearest_code_of_units(code);
    let pa = a@.position();
    if b is Finite {
        let y = b->units;
        let exact = pa + b.position();
        if exact > 0 {
            let n = exact as nat;
            lemma_position_of_rounded(false, n);
            if n <= x {
                assert(n * 1 <= x * 1) by (nonlinear_arith)
                    requires
                        n <= x,
                ;
                lemma_nearest_code_monotonic(n, 1, x, 1);
                lemma_units_ordered(nearest_code(n, 1), code);
            }
            if x <= n {
                assert(x * 1 <= n * 1) by (nonlinear_arith)
                    requires
                        x <= n,
                ;
                lemma_nearest_code_monotonic(x, 1, n, 1);
                lemma_units_ordered(code, nearest_code(n, 1));
            }
        } else if exact < 0 {
            let n = (-exact) as nat;
            lemma_position_of_rounded(true, n);
            if n <= x {
                assert(n * 1 <= x * 1) by (nonlinear_arith)
                    requires
                        n <= x,
                ;
                lemma_nearest_code_monotonic(n, 1, x, 1);
                lemma_units_ordered(nearest_code(n, 1), code);
            }
            if x <= n {
                assert(x * 1 <= n * 1) by (nonlinear_arith)
                    requires
                        x <= n,
                ;
                lemma_nearest_code_monotonic(x, 1, n, 1);
                lemma_units_ordered(code, nearest_code(n, 1));
            }
        }
    }
}

/// Whole numbers below `2^53` can be held exactly: rounding leaves them as
/// they are.
pub proof fn lemma_whole_number(count: nat)
    requires
        count < SIGNIFICAND_LIMIT,
    ensures
        rounded(false, count * pow2(1074), 1) == Value::from_count(count),
        rounded(true, count * pow2(1074), 1) == Value::from_count(count).negated(),
        Value::from_count(count).position() == count * pow2(1074),
        count > 0 ==> count * pow2(1074) > 0,
{
    lemma_rounded_exact(false, count, 1074);
    lemma_rounded_exact(true, count, 1074);
    lemma_pow2_pos(1074);
    assert(count > 0 ==> count * pow2(1074) > 0) by (nonlinear_arith)
        requires
            pow2(1074) > 0,
    ;
}

/// Whole numbers add exactly while the sum stays below `2^53`.
pub proof fn lemma_whole_sum(a: nat, b: nat)
    requires
        a + b < SIGNIFICAND_LIMIT,
    ensures
        Value::from_count(a).plus(Value::from_count(b)) == Value::from_count(a + b),
{
    let p = pow2(1074);
    lemma_whole_number(a + b);
    assert(a * p + b * p == (a + b) * p) by (nonlinear_arith);
    if a + b == 0 {
        assert((a + b) * p == 0) by (nonlinear_arith)
            requires
                a + b == 0,
        ;
    }
}

/// Whole numbers below `2^53` subtract exactly; a difference of zero is
/// positive zero.
pub proof fn lemma_whole_difference(a: nat, b: nat)
    requires
        a < SIGNIFICAND_LIMIT,
        b < SIGNIFICAND_LIMIT,
    ensures
        a >= b ==> Value::from_count(a).minus(Value::from_count(b)) == Value::from_count(
            (a - b) as nat,
        ),
        a < b ==> Value::from_count(a).minus(Value::from_count(b)) == Value::from_count(
            (b - a) as nat,
        ).negated(),
{
    let p = pow2(1074);
    lemma_pow2_pos(1074);
    if a >= b {
        let c = (a - b) as nat;
        lemma_whole_number(c);
        assert(a * p - b * p == c * p) by (nonlinear_arith)
            requires
                c == a - b,
        ;
        if c == 0 {
            assert(c * p == 0) by (nonlinear_arith)
                requires
                    c == 0,
            ;
        }
    } else {
        let c = (b - a) as nat;
        lemma_whole_number(c);
        assert(a * p - b * p == -(c * p)) by (nonlinear_arith)
            requires
                c == b - a,
        ;
    }
}

/// Whole numbers multiply exactly while the product stays below `2^53`.
pub proof fn lemma_whole_product(a: nat, b: nat)
    requires
        a * b < SIGNIFICAND_LIMIT,
    ensures
        Value::from_count(a).times(Value::from_count(b)) == Value::from_count(a * b),
{
    let p = pow2(1074);
    lemma_pow2_pos(1074);
    lemma_rounded_exact_fraction(false, a * b, 1074, p);
    assert((a * p) * (b * p) == (a * b) * p * p) by (nonlinear_arith);
}

/// A whole number below `2^53` times a divisor, over that divisor, is the
/// whole number again.
pub proof fn lemma_whole_quotient(a: nat, b: nat)
    requires
        a < SIGNIFICAND_LIMIT,
        b > 0,
    ensures
        Value::from_count(a * b).over(Value::from_count(b)) == Value::from_count(a),
{
    let p = pow2(1074);
    lemma_pow2_pos(1074);
    let d = b * p;
    assert(d > 0) by (nonlinear_arith)
        requires
            d == b * p,
            b > 0,
            p > 0,
    ;
    lemma_rounded_exact_fraction(false, a, 1074, d);
    assert(((a * b) * p) * p == a * p * d) by (nonlinear_arith)
        requires
            d == b * p,
    ;
}

/// The remainder of whole numbers is the whole-number remainder.
pub proof fn lemma_whole_remainder(a: nat, b: nat)
    requires
        b > 0,
    ensures
        Value::from_count(a).modulo(Value::from_count(b)) == Value::from_count(a % b),
{
    let p = pow2(1074);
    lemma_pow2_pos(1074);
    lemma_truncate_middle(a as int, p as int, b as int);
    assert(p * a == a * p && p * b == b * p && p * (a % b) == (a % b) * p) by (nonlinear_arith);
    assert(b * p > 0) by (nonlinear_arith)
        requires
            b > 0,
            p > 0,
    ;
}

/// Whole numbers are ordered as their counts are.
pub proof fn lemma_whole_order(a: nat, b: nat)
    ensures
        Value::from_count(a).below(Value::from_count(b)) <==> a < b,
        Value::from_count(a).at_most(Value::from_count(b)) <==> a <= b,
{
    let p = pow2(1074);
    lemma_pow2_pos(1074);
    assert((a < b <==> a * p < b * p) && (a <= b <==> a * p <= b * p)) by (nonlinear_arith)
        requires
            p > 0,
    ;
}

/// A whole number becomes the byte of the same count, or 255 if it is larger.
pub proof fn lemma_whole_to_byte(a: nat)
    ensures
        Value::from_count(a).to_byte() == (if a >= 255 {
            255u8
        } else {
            a as u8
        }),
{
    lemma_pow2_pos(1074);
    lemma_div_by_multiple(a as int, pow2(1074) as int);
}

} // verus!
