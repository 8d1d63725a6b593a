//! What the operations mean on values.

use crate::binary64::rounding::rounded;
use crate::binary64::value::Value;
use vstd::arithmetic::power2::pow2;
use vstd::prelude::*;

verus! {

impl Value {
    /// The whole number `count`.
    pub open spec fn from_count(count: nat) -> Value {
        Value::Finite { negative: false, units: count * pow2(1074) }
    }

    /// The number nearest to the fraction `numerator / denominator`.
    pub open spec fn ratio(numerator: nat, denominator: nat) -> Value {
        Value::from_count(numerator).over(Value::from_count(denominator))
    }

    /// The same number with the opposite sign.
    pub open spec fn negated(self) -> Value {
        match self {
            Value::Nan => Value::Nan,
            Value::Infinite { negative } => Value::Infinite { negative: !negative },
            Value::Finite { negative, units } => Value::Finite { negative: !negative, units },
        }
    }

    /// The absolute value.
    pub open spec fn magnitude(self) -> Value {
        match self {
            Value::Nan => Value::Nan,
            Value::Infinite { .. } => Value::Infinite { negative: false },
            Value::Finite { units, .. } => Value::Finite { negative: false, units },
        }
    }

    /// The sum, rounded to nearest. Infinities of opposite sign have no sum;
    /// an exact sum of zero is negative only when both terms are.
    pub open spec fn plus(self, other: Value) -> Value {
        match (self, other) {
            (Value::Nan, _) => Value::Nan,
            (_, Value::Nan) => Value::Nan,
            (Value::Infinite { negative: s }, Value::Infinite { negative: t }) => if s == t {
                self
            } else {
                Value::Nan
            },
            (Value::Infinite { .. }, Value::Finite { .. }) => self,
            (Value::Finite { .. }, Value::Infinite { .. }) => other,
            (Value::Finite { negative: s, .. }, Value::Finite { negative: t, .. }) => {
                let exact = self.position() + other.position();
                if exact == 0 {
                    Value::Finite { negative: s && t, units: 0 }
                } else if exact < 0 {
                    rounded(true, (-exact) as nat, 1)
                } else {
                    rounded(false, exact as nat, 1)
                }
            },
        }
    }

    /// The difference, rounded to nearest.
    pub open spec fn minus(self, other: Value) -> Value {
        self.plus(other.negated())
    }

    /// The product, rounded to nearest. Zero times infinity is no number.
    pub open spec fn times(self, other: Value) -> Value {
        match (self, other) {
            (Value::Nan, _) => Value::Nan,
            (_, Value::Nan) => Value::Nan,
            (Value::Infinite { negative: s }, Value::Infinite { negative: t }) => Value::Infinite {
                negative: s != t,
            },
            (Value::Infinite { negative: s }, Value::Finite { negative: t, units }) => if units
                == 0 {
                Value::Nan
            } else {
                Value::Infinite { negative: s != t }
            },
            (Value::Finite { negative: s, units }, Value::Infinite { negative: t }) => if units
                == 0 {
                Value::Nan
            } else {
                Value::Infinite { negative: s != t }
            },
            (Value::Finite { negative: s, units: x }, Value::Finite { negative: t, units: y }) => {
                rounded(s != t, x * y, pow2(1074))
            },
        }
    }

    /// The quotient, rounded to nearest. Zero over zero and infinity over
    /// infinity are no numbers; any other number over zero is infinite.
    pub open spec fn over(self, other: Value) -> Value {
        match (self, other) {
            (Value::Nan, _) => Value::Nan,
            (_, Value::Nan) => Value::Nan,
            (Value::Infinite { .. }, Value::Infinite { .. }) => Value::Nan,
            (Value::Infinite { negative: s }, Value::Finite { negative: t, .. }) => {
                Value::Infinite { negative: s != t }
            },
            (Value::Finite { negative: s, .. }, Value::Infinite { negative: t }) => Value::Finite {
                negative: s != t,
                units: 0,
            },
            (Value::Finite { negative: s, units: x }, Value::Finite { negative: t, units: y }) => {
                if y == 0 {
                    if x == 0 {
                        Value::Nan
                    } else {
                        Value::Infinite { negative: s != t }
                    }
                } else {
                    rounded(s != t, x * pow2(1074), y)
                }
            },
        }
    }

    /// The remainder of division with the quotient truncated toward zero.
    /// It is exact and takes the sign of the dividend.
    pub open spec fn modulo(self, other: Value) -> Value {
        match (self, other) {
            (Value::Nan, _) => Value::Nan,
            (_, Value::Nan) => Value::Nan,
            (Value::Infinite { .. }, _) => Value::Nan,
            (Value::Finite { .. }, Value::Infinite { .. }) => self,
            (Value::Finite { negative, units: x }, Value::Finite { units: y, .. }) => {
                if y == 0 {
                    Value::Nan
                } else {
                    Value::Finite { negative, units: x % y }
                }
            },
        }
    }

    /// Strictly less; false whenever a NaN takes part.
    pub open spec fn below(self, other: Value) -> bool {
        !self.is_nan() && !other.is_nan() && self.position() < other.position()
    }

    /// Less or equal; false whenever a NaN takes part.
    pub open spec fn at_most(self, other: Value) -> bool {
        !self.is_nan() && !other.is_nan() && self.position() <= other.position()
    }

    /// The whole part as a byte, saturating: 0 for a NaN and for anything
    /// negative, 255 for anything from 255 up.
    pub open spec fn to_byte(self) -> u8 {
        match self {
            Value::Nan => 0,
            Value::Infinite { negative } => if negative {
                0
            } else {
                255
            },
            Value::Finite { negative, units } => {
                let whole = units / pow2(1074);
                if negative {
                    0
                } else if whole >= 255 {
                    255
                } else {
                    whole as u8
                }
            },
        }
    }
}

} // verus!
