//! The escape-time iteration.

use crate::binary64::laws::{lemma_nearest_code_of_units, lemma_rounded_at_most};
use crate::binary64::rounding::{lemma_nearest_of_zero, nearest_code, rounded};
use crate::binary64::value::{Binary64, Value};
use crate::complex::{Complex, ComplexValue};
use vstd::arithmetic::power2::{lemma_pow2_pos, lemma_pow2_unfold, pow2};
use vstd::prelude::*;

verus! {

/// The `k`-th term of the sequence that starts at zero and goes from `z` to `z^2 + c`.
pub open spec fn orbit(c: ComplexValue, k: nat) -> ComplexValue
    decreases k,
{
    if k == 0 {
        ComplexValue::origin()
    } else {
        let z = orbit(c, (k - 1) as nat);
        z.times(z).plus(c)
    }
}

/// Whether a point has left the disc of radius 2: its squared distance from
/// the origin exceeds 4.
pub open spec fn escaped(z: ComplexValue) -> bool {
    Value::from_count(4).below(z.norm_sqr())
}

/// The first index from `k` on, below `cap`, at which the orbit of `c` has
/// escaped; `cap` if there is none.
pub open spec fn first_escape(c: ComplexValue, k: nat, cap: nat) -> nat
    decreases cap - k,
{
    if k >= cap || escaped(orbit(c, k)) {
        k
    } else {
        first_escape(c, k + 1, cap)
    }
}

/// The escape time of `c` under a budget of `cap` iterations: the index of
/// the first term of its orbit outside the disc of radius 2, or `cap` when
/// every term before the `cap`-th stays inside.
pub open spec fn escape_time_of(c: ComplexValue, cap: nat) -> nat {
    first_escape(c, 0, cap)
}

/// The escape time is the least index at which the orbit has escaped.
pub proof fn lemma_escape_time_is_first(c: ComplexValue, cap: nat)
    ensures
        escape_time_of(c, cap) <= cap,
        escape_time_of(c, cap) < cap ==> escaped(orbit(c, escape_time_of(c, cap))),
        forall|j: nat| j < escape_time_of(c, cap) ==> !escaped(#[trigger] orbit(c, j)),
{
    lemma_first_escape_from(c, 0, cap);
}

proof fn lemma_first_escape_from(c: ComplexValue, k: nat, cap: nat)
    ensures
        k <= cap ==> k <= first_escape(c, k, cap) <= cap,
        first_escape(c, k, cap) < cap ==> escaped(orbit(c, first_escape(c, k, cap))),
        forall|j: nat| k <= j < first_escape(c, k, cap) ==> !escaped(#[trigger] orbit(c, j)),
    decreases cap - k,
{
    if !(k >= cap || escaped(orbit(c, k))) {
        lemma_first_escape_from(c, k + 1, cap);
    }
}

/// The orbit of the origin never moves.
pub proof fn lemma_orbit_of_origin(k: nat)
    ensures
        orbit(ComplexValue::origin(), k) == ComplexValue::origin(),
        !escaped(ComplexValue::origin()),
    decreases k,
{
    let zero = Value::Finite { negative: false, units: 0 };
    lemma_pow2_pos(1074);
    lemma_nearest_of_zero(pow2(1074));
    assert(0 * pow2(1074) == 0 && 4 * pow2(1074) > 0 && 0nat * 0nat == 0) by (nonlinear_arith)
        requires
            pow2(1074) > 0,
    ;
    assert(Value::from_count(0) == zero);
    assert(zero.times(zero) == zero);
    assert(zero.minus(zero) == zero);
    assert(zero.plus(zero) == zero);
    let o = ComplexValue::origin();
    assert(o.times(o).plus(o) == o);
    assert(o.norm_sqr() == zero);
    if k > 0 {
        lemma_orbit_of_origin((k - 1) as nat);
    }
}

/// The origin belongs to the set: whatever the budget, it uses it up.
pub proof fn lemma_origin_never_escapes(cap: nat)
    ensures
        escape_time_of(ComplexValue::origin(), cap) == cap,
{
    lemma_origin_stays_from(0, cap);
}

proof fn lemma_origin_stays_from(k: nat, cap: nat)
    requires
        k <= cap,
    ensures
        first_escape(ComplexValue::origin(), k, cap) == cap,
    decreases cap - k,
{
    lemma_orbit_of_origin(k);
    if k < cap {
        lemma_origin_stays_from(k + 1, cap);
    }
}

/// The point -0.5 + 0i.
pub open spec fn minus_half() -> ComplexValue {
    ComplexValue {
        re: Value::Finite { negative: true, units: pow2(1073) },
        im: Value::Finite { negative: false, units: 0 },
    }
}

/// On the real axis and no farther than 0.5 from the origin.
pub open spec fn near_origin_on_axis(z: ComplexValue) -> bool {
    &&& z.re is Finite
    &&& z.re->units <= pow2(1073)
    &&& z.im is Finite
    &&& z.im->units == 0
}

/// A step of the iteration for -0.5 keeps a point that is on the real axis
/// within 0.5 of the origin where it is, and such a point has not escaped.
proof fn lemma_step_near_origin(z: ComplexValue)
    requires
        near_origin_on_axis(z),
    ensures
        near_origin_on_axis(z.times(z).plus(minus_half())),
        !escaped(z),
{
    let h = pow2(1073);
    let q = pow2(1072);
    let p = pow2(1074);
    let u = z.re->units;
    lemma_pow2_pos(1072);
    lemma_pow2_unfold(1073);
    lemma_pow2_unfold(1074);
    lemma_nearest_of_zero(p);
    // The square of the real part is at most 0.25.
    assert(u * u <= 1 * q * p && 1 * q == q && u * 0 == 0 && 0 * u == 0 && 0nat * 0nat == 0 && 4
        * p > q) by (nonlinear_arith)
        requires
            u <= h,
            h == 2 * q,
            p == 2 * h,
            q > 0,
    ;
    lemma_rounded_at_most(false, u * u, p, 1, 1072);
    let square = z.re.times(z.re);
    let v = square->units;
    assert(square is Finite && !square.is_negative() && v <= q);
    assert(z.im.times(z.im) == Value::Finite { negative: false, units: 0 });
    lemma_nearest_code_of_units(nearest_code(u * u, p));
    assert(rounded(false, v, 1) == square);
    assert(z.re.times(z.re).minus(z.im.times(z.im)) == square);
    assert(z.norm_sqr() == square);
    // Less one half it lies between -0.5 and -0.25.
    assert((h - v) as nat <= 1 * h * 1 && 1 * h == h) by (nonlinear_arith)
        requires
            v <= q,
            h == 2 * q,
    ;
    lemma_rounded_at_most(true, (h - v) as nat, 1, 1, 1073);
    // The imaginary part stays zero.
    let cross = z.re.times(z.im);
    assert(cross is Finite && cross->units == 0);
    assert(z.im.times(z.re) is Finite && z.im.times(z.re)->units == 0);
}

/// The orbit of -0.5 stays on the real axis within 0.5 of the origin.
pub proof fn lemma_orbit_of_minus_half(k: nat)
    ensures
        near_origin_on_axis(orbit(minus_half(), k)),
        !escaped(orbit(minus_half(), k)),
    decreases k,
{
    lemma_pow2_pos(1074);
    assert(0 * pow2(1074) == 0) by (nonlinear_arith);
    if k > 0 {
        lemma_orbit_of_minus_half((k - 1) as nat);
        lemma_step_near_origin(orbit(minus_half(), (k - 1) as nat));
    }
    lemma_step_near_origin(orbit(minus_half(), k));
}

/// The point -0.5 belongs to the set: whatever the budget, it uses it up.
pub proof fn lemma_minus_half_never_escapes(cap: nat)
    ensures
        escape_time_of(minus_half(), cap) == cap,
{
    lemma_minus_half_stays_from(0, cap);
}

proof fn lemma_minus_half_stays_from(k: nat, cap: nat)
    requires
        k <= cap,
    ensures
        first_escape(minus_half(), k, cap) == cap,
    decreases cap - k,
{
    lemma_orbit_of_minus_half(k);
    if k < cap {
        lemma_minus_half_stays_from(k + 1, cap);
    }
}

/// Runs the iteration from `z` to `z^2 + c` from the origin and counts the steps
/// until the point leaves the disc of radius 2, stopping at `max_iter`.
pub fn escape_time(c: Complex, max_iter: u32) -> (n: u32)
    ensures
        n == escape_time_of(c@, max_iter as nat),
        n <= max_iter,
{
    let four = Binary64::from_u32(4);
    let mut z = Complex::origin();
    let mut i: u32 = 0;
    let mut inside: bool = !z.norm_sqr().gt(four);
    while i < max_iter && inside
        invariant
            i <= max_iter,
            four@ == Value::from_count(4),
            z@ == orbit(c@, i as nat),
            inside == !escaped(z@),
            first_escape(c@, 0, max_iter as nat) == first_escape(c@, i as nat, max_iter as nat),
        decreases max_iter - i,
    {
        z = z.mul(z).add(c);
        i = i + 1;
        inside = !z.norm_sqr().gt(four);
    }
    i
}

} // verus!
