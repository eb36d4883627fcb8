//! Software IEEE-754 binary32/binary64 arithmetic built from integer and
//! bitwise operations only, with round-to-nearest, ties-to-even.

pub mod policy;
pub mod bits;
pub mod rounding;
pub mod pack;
pub mod arith;
pub mod laws;
pub mod sf32;
pub mod sf64;
