//! Complex numbers with binary64 parts.

use crate::binary64::value::{Binary64, Value};
use vstd::prelude::*;

verus! {

/// The value of a complex number: its two parts.
pub struct ComplexValue {
    pub re: Value,
    pub im: Value,
}

impl ComplexValue {
    /// The origin, both parts positive zero.
    pub open spec fn origin() -> ComplexValue {
        ComplexValue { re: Value::from_count(0), im: Value::from_count(0) }
    }

    /// The squared distance from the origin, `re^2 + im^2`.
    pub open spec fn norm_sqr(self) -> Value {
        self.re.times(self.re).plus(self.im.times(self.im))
    }

    /// The product `(a + bi)(c + di) = (ac - bd) + (ad + bc)i`, each
    /// operation rounded in turn.
    pub open spec fn times(self, other: ComplexValue) -> ComplexValue {
        ComplexValue {
            re: self.re.times(other.re).minus(self.im.times(other.im)),
            im: self.re.times(other.im).plus(self.im.times(other.re)),
        }
    }

    /// The sum, part by part.
    pub open spec fn plus(self, other: ComplexValue) -> ComplexValue {
        ComplexValue { re: self.re.plus(other.re), im: self.im.plus(other.im) }
    }
}

/// A complex number with binary64 parts.
#[derive(Clone, Copy, Debug)]
pub struct Complex {
    pub re: Binary64,
    pub im: Binary64,
}

impl View for Complex {
    type V = ComplexValue;

    open spec fn view(&self) -> ComplexValue {
        ComplexValue { re: self.re@, im: self.im@ }
    }
}

impl Complex {
    /// The number `re + im i`.
    pub fn new(re: Binary64, im: Binary64) -> (z: Complex)
        ensures
            z.re == re,
            z.im == im,
    {
        Complex { re, im }
    }

    /// The origin.
    pub fn origin() -> (z: Complex)
        ensures
            z@ == ComplexValue::origin(),
    {
        Complex { re: Binary64::from_u32(0), im: Binary64::from_u32(0) }
    }

    /// The squared distance from the origin.
    pub fn norm_sqr(&self) -> (r: Binary64)
        ensures
            r@ == self@.norm_sqr(),
    {
        self.re.mul(self.re).add(self.im.mul(self.im))
    }

    /// The product.
    pub fn mul(self, other: Complex) -> (z: Complex)
        ensures
            z@ == self@.times(other@),
    {
        let re = self.re.mul(other.re).sub(self.im.mul(other.im));
        let im = self.re.mul(other.im).add(self.im.mul(other.re));
        Complex { re, im }
    }

    /// The sum.
    pub fn add(self, other: Complex) -> (z: Complex)
        ensures
            z@ == self@.plus(other@),
    {
        Complex { re: self.re.add(other.re), im: self.im.add(other.im) }
    }
}

} // verus!
