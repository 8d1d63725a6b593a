//! The part of the plane that an image shows.

use crate::binary64::laws::{
    lemma_half, lemma_ratio_is_nearest, lemma_rounded_exact_fraction, lemma_sum_keeps_side,
    lemma_whole_difference, lemma_whole_quotient, lemma_whole_sum,
};
use crate::binary64::rounding::lemma_rounded_exact;
use crate::binary64::value::{Binary64, Value};
use crate::complex::{Complex, ComplexValue};
use vstd::arithmetic::power2::{lemma_pow2_pos, lemma_pow2_unfold, pow2};
use vstd::prelude::*;

verus! {

/// The value of a viewport: the four bounds of a rectangle of the plane.
pub struct ViewportValue {
    pub x_min: Value,
    pub x_max: Value,
    pub y_min: Value,
    pub y_max: Value,
}

impl ViewportValue {
    /// The window around a centre at a zoom: from `2 / zoom` left of the
    /// centre to `1 / zoom` right of it, and `1.5 / zoom` below and above.
    pub open spec fn around(zoom: Value, center_x: Value, center_y: Value) -> ViewportValue {
        ViewportValue {
            x_min: center_x.minus(Value::from_count(2).over(zoom)),
            x_max: center_x.plus(Value::from_count(1).over(zoom)),
            y_min: center_y.minus(Value::ratio(3, 2).over(zoom)),
            y_max: center_y.plus(Value::ratio(3, 2).over(zoom)),
        }
    }

    /// The point of the plane under a pixel: each coordinate goes linearly
    /// from the lower bound at pixel 0 toward the upper bound at the pixel
    /// count, with no correction for the shape of the image.
    pub open spec fn point(self, pixel_x: nat, pixel_y: nat, width: nat, height: nat)
        -> ComplexValue {
        ComplexValue {
            re: self.x_min.plus(
                Value::from_count(pixel_x).over(Value::from_count(width)).times(
                    self.x_max.minus(self.x_min),
                ),
            ),
            im: self.y_min.plus(
                Value::from_count(pixel_y).over(Value::from_count(height)).times(
                    self.y_max.minus(self.y_min),
                ),
            ),
        }
    }
}

/// Three halves, held exactly.
proof fn lemma_three_halves()
    ensures
        Value::ratio(3, 2) == (Value::Finite { negative: false, units: 3 * pow2(1073) }),
        pow2(1074) == 2 * pow2(1073),
        pow2(1073) > 0,
{
    let h = pow2(1073);
    lemma_pow2_pos(1073);
    lemma_pow2_unfold(1074);
    lemma_ratio_is_nearest(3, 2);
    lemma_rounded_exact_fraction(false, 3, 1073, 2);
    assert(3 * pow2(1074) == 3 * h * 2) by (nonlinear_arith)
        requires
            pow2(1074) == 2 * h,
    ;
}

/// The default view, zoom 1 around the origin, reaches from -2 to 1 and
/// from -1.5 to 1.5.
pub proof fn lemma_default_viewport()
    ensures
        ViewportValue::around(Value::from_count(1), Value::from_count(0), Value::from_count(0))
            == (ViewportValue {
            x_min: Value::from_count(2).negated(),
            x_max: Value::from_count(1),
            y_min: Value::ratio(3, 2).negated(),
            y_max: Value::ratio(3, 2),
        }),
{
    let h = pow2(1073);
    let p = pow2(1074);
    let zero = Value::from_count(0);
    let one = Value::from_count(1);
    lemma_three_halves();
    assert(0 * p == 0 && 1 * p == p && 2 * 1 == 2 && 1 * 1 == 1) by (nonlinear_arith);
    lemma_whole_quotient(2, 1);
    lemma_whole_quotient(1, 1);
    lemma_whole_difference(0, 2);
    lemma_whole_sum(0, 1);
    lemma_rounded_exact_fraction(false, 3, 1073, p);
    assert((3 * h) * p == 3 * h * p) by (nonlinear_arith);
    assert(Value::ratio(3, 2).over(one) == Value::ratio(3, 2));
    lemma_rounded_exact(true, 3, 1073);
    lemma_rounded_exact(false, 3, 1073);
    assert(zero.minus(Value::ratio(3, 2)) == Value::ratio(3, 2).negated());
    assert(zero.plus(Value::ratio(3, 2)) == Value::ratio(3, 2));
}

/// In the default view the middle pixel of an image of even width and
/// height lies over the point -0.5 + 0i.
pub proof fn lemma_middle_of_default_viewport(width: nat, height: nat)
    requires
        width > 0,
        height > 0,
        width % 2 == 0,
        height % 2 == 0,
    ensures
        ViewportValue::around(
            Value::from_count(1),
            Value::from_count(0),
            Value::from_count(0),
        ).point(width / 2, height / 2, width, height) == (ComplexValue {
            re: Value::Finite { negative: true, units: pow2(1073) },
            im: Value::Finite { negative: false, units: 0 },
        }),
{
    let h = pow2(1073);
    let p = pow2(1074);
    let three = Value::from_count(3);
    let half = Value::Finite { negative: false, units: h };
    let r32 = Value::ratio(3, 2);
    lemma_default_viewport();
    lemma_three_halves();
    lemma_half(width / 2);
    lemma_half(height / 2);
    assert(2 * (width / 2) == width && 2 * (height / 2) == height);
    // The window is 3 wide and 3 high.
    assert(Value::from_count(2).negated().negated() == Value::from_count(2));
    lemma_whole_sum(1, 2);
    lemma_rounded_exact(false, 3, 1074);
    assert(3 * h + 3 * h == 3 * p && 2 * p == 4 * h);
    assert(r32.negated().negated() == r32);
    assert(r32.minus(r32.negated()) == three);
    // Half of 3 is 1.5.
    lemma_rounded_exact_fraction(false, 3, 1073, p);
    assert(h * (3 * p) == 3 * h * p) by (nonlinear_arith);
    assert(half.times(three) == r32);
    // -2 + 1.5 = -0.5 and -1.5 + 1.5 = 0.
    lemma_rounded_exact(true, 1, 1073);
    assert(1 * h == h) by (nonlinear_arith);
    assert(Value::from_count(2).negated().plus(r32) == Value::Finite { negative: true, units: h });
    assert(r32.negated().plus(r32) == Value::Finite { negative: false, units: 0 });
}

/// A whole number or the fraction three halves, over a zoom above zero, is
/// a number that is not negative.
proof fn lemma_half_widths(zoom: Value)
    requires
        Value::from_count(0).below(zoom),
    ensures
        !Value::from_count(2).over(zoom).is_nan(),
        Value::from_count(2).over(zoom).position() >= 0,
        !Value::from_count(1).over(zoom).is_nan(),
        Value::from_count(1).over(zoom).position() >= 0,
        !Value::ratio(3, 2).over(zoom).is_nan(),
        Value::ratio(3, 2).over(zoom).position() >= 0,
{
    let h = pow2(1073);
    lemma_pow2_pos(1074);
    lemma_pow2_unfold(1074);
    assert(0 * pow2(1074) == 0) by (nonlinear_arith);
    lemma_ratio_is_nearest(3, 2);
    lemma_rounded_exact_fraction(false, 3, 1073, 2);
    assert(3 * pow2(1074) == 3 * h * 2) by (nonlinear_arith)
        requires
            pow2(1074) == 2 * h,
    ;
    assert(Value::ratio(3, 2) == Value::Finite { negative: false, units: 3 * h });
}

/// The bounds of a viewport come in order, left before right and bottom
/// before top, when the zoom is above zero and the centre is finite. They
/// need not differ: far from the origin, or at a zoom beyond every finite
/// number, the window is narrower than the spacing of the numbers there.
pub proof fn lemma_viewport_is_ordered(zoom: Binary64, center_x: Binary64, center_y: Binary64)
    requires
        Value::from_count(0).below(zoom@),
        center_x@ is Finite,
        center_y@ is Finite,
    ensures
        ({
            let v = ViewportValue::around(zoom@, center_x@, center_y@);
            &&& v.x_min.at_most(center_x@)
            &&& center_x@.at_most(v.x_max)
            &&& v.x_min.at_most(v.x_max)
            &&& v.y_min.at_most(center_y@)
            &&& center_y@.at_most(v.y_max)
            &&& v.y_min.at_most(v.y_max)
        }),
{
    lemma_half_widths(zoom@);
    lemma_sum_keeps_side(center_x, Value::from_count(2).over(zoom@).negated());
    lemma_sum_keeps_side(center_x, Value::from_count(1).over(zoom@));
    lemma_sum_keeps_side(center_y, Value::ratio(3, 2).over(zoom@).negated());
    lemma_sum_keeps_side(center_y, Value::ratio(3, 2).over(zoom@));
}

/// The rectangle of the complex plane that an image shows.
#[derive(Clone, Copy, Debug)]
pub struct Viewport {
    pub x_min: Binary64,
    pub x_max: Binary64,
    pub y_min: Binary64,
    pub y_max: Binary64,
}

impl View for Viewport {
    type V = ViewportValue;

    open spec fn view(&self) -> ViewportValue {
        ViewportValue {
            x_min: self.x_min@,
            x_max: self.x_max@,
            y_min: self.y_min@,
            y_max: self.y_max@,
        }
    }
}

impl Viewport {
    /// The window around a centre at a zoom.
    pub fn around(zoom: Binary64, center_x: Binary64, center_y: Binary64) -> (v: Viewport)
        ensures
            v@ == ViewportValue::around(zoom@, center_x@, center_y@),
    {
        let two = Binary64::from_u32(2);
        let one = Binary64::from_u32(1);
        let three_halves = Binary64::from_ratio(3, 2);
        Viewport {
            x_min: center_x.sub(two.div(zoom)),
            x_max: center_x.add(one.div(zoom)),
            y_min: center_y.sub(three_halves.div(zoom)),
            y_max: center_y.add(three_halves.div(zoom)),
        }
    }

    /// The point of the plane under a pixel.
    pub fn point(&self, pixel_x: u32, pixel_y: u32, width: u32, height: u32) -> (c: Complex)
        ensures
            c@ == self@.point(pixel_x as nat, pixel_y as nat, width as nat, height as nat),
    {
        let fx = Binary64::from_u32(pixel_x).div(Binary64::from_u32(width));
        let fy = Binary64::from_u32(pixel_y).div(Binary64::from_u32(height));
        let re = self.x_min.add(fx.mul(self.x_max.sub(self.x_min)));
        let im = self.y_min.add(fy.mul(self.y_max.sub(self.y_min)));
        Complex::new(re, im)
    }
}

} // verus!
