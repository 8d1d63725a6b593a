//! Binary64 floating-point arithmetic on bit patterns.
//!
//! A [`value::Binary64`] holds the 64 bits of a number; its view is the
//! [`value::Value`] that the bits stand for. Each operation states its result
//! as the exact outcome on values, rounded to the nearest representable
//! number with ties going to the even neighbour ([`rounding::rounded`]).

pub mod add;
pub mod convert;
pub mod divide;
pub mod encode;
pub mod laws;
pub mod multiply;
pub mod order;
pub mod power;
pub mod rounding;
pub mod semantics;
pub mod value;
