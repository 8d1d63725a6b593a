//! The format: bit patterns and the values they stand for.

use vstd::arithmetic::power2::pow2;
use vstd::prelude::*;

verus! {

/// Weight of the implicit leading digit of a normal significand, `2^52`.
pub const HIDDEN_BIT: u64 = 0x10_0000_0000_0000;

/// Significands lie below this bound, `2^53`.
pub const SIGNIFICAND_LIMIT: u64 = 0x20_0000_0000_0000;

/// Magnitude code of infinity: exponent field all ones, fraction zero.
pub const INFINITY_CODE: u64 = 0x7FF0_0000_0000_0000;

/// Weight of the sign digit, `2^63`.
pub const SIGN_BIT: u64 = 0x8000_0000_0000_0000;

/// The number that a bit pattern stands for.
pub enum Value {
    /// Not a number; every payload is the same value.
    Nan,
    /// An infinity of the given sign.
    Infinite { negative: bool },
    /// A finite number: `units * 2^-1074`, negated if `negative`. Every
    /// finite binary64 number is a whole multiple of `2^-1074`, and
    /// magnitudes are counted in that unit throughout. Zero keeps its sign.
    Finite { negative: bool, units: nat },
}

/// Magnitude, in units, of the finite number with magnitude code `code`
/// (the pattern without its sign digit): subnormal when the exponent field
/// is zero, normal with an implicit leading digit otherwise.
pub open spec fn units_of_code(code: nat) -> nat {
    let field = code / (HIDDEN_BIT as nat);
    let fraction = code % (HIDDEN_BIT as nat);
    if field == 0 {
        fraction
    } else {
        (HIDDEN_BIT as nat + fraction) * pow2((field - 1) as nat)
    }
}

/// The value of a 64-bit pattern.
pub open spec fn value_of_bits(bits: u64) -> Value {
    let negative = bits >= SIGN_BIT;
    let code = (bits % SIGN_BIT) as nat;
    if code > INFINITY_CODE {
        Value::Nan
    } else if code == INFINITY_CODE {
        Value::Infinite { negative }
    } else {
        Value::Finite { negative, units: units_of_code(code) }
    }
}

impl Value {
    pub open spec fn is_nan(self) -> bool {
        self is Nan
    }

    /// The sign, false for a NaN.
    pub open spec fn is_negative(self) -> bool {
        match self {
            Value::Nan => false,
            Value::Infinite { negative } => negative,
            Value::Finite { negative, .. } => negative,
        }
    }

    /// Position on the number line in units, with the infinities placed at
    /// `2^1024`, the first power of two past every finite magnitude.
    /// Both zeros sit at 0. Meaningless for a NaN.
    pub open spec fn position(self) -> int {
        match self {
            Value::Nan => 0,
            Value::Infinite { negative } => if negative {
                -(pow2(2098) as int)
            } else {
                pow2(2098) as int
            },
            Value::Finite { negative, units } => if negative {
                -(units as int)
            } else {
                units as int
            },
        }
    }
}

/// A binary64 floating-point number, held as its bit pattern.
#[derive(Clone, Copy, Debug)]
pub struct Binary64 {
    pub bits: u64,
}

impl View for Binary64 {
    type V = Value;

    open spec fn view(&self) -> Value {
        value_of_bits(self.bits)
    }
}

impl Binary64 {
    /// The number with the given bit pattern.
    pub fn from_bits(bits: u64) -> (r: Binary64)
        ensures
            r.bits == bits,
    {
        Binary64 { bits }
    }

    /// The bit pattern.
    pub fn to_bits(self) -> (bits: u64)
        ensures
            bits == self.bits,
    {
        self.bits
    }

    /// Whether this is a NaN.
    pub fn is_nan(self) -> (r: bool)
        ensures
            r == self@.is_nan(),
    {
        self.bits % SIGN_BIT > INFINITY_CODE
    }

    /// Whether this is an infinity.
    pub fn is_infinite(self) -> (r: bool)
        ensures
            r == (self@ is Infinite),
    {
        self.bits % SIGN_BIT == INFINITY_CODE
    }

    /// Whether the sign digit is set.
    pub fn sign(self) -> (r: bool)
        ensures
            r == (self.bits >= SIGN_BIT),
            !self@.is_nan() ==> r == self@.is_negative(),
    {
        self.bits >= SIGN_BIT
    }
}

} // verus!
