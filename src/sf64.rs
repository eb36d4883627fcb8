use vstd::prelude::*;
use crate::policy::{WidthPolicy, binary64_spec};
use crate::bits::{compose, compose_spec, decompose, exp_field, sign_field, Decomposed};
use crate::arith::{add_spec, div_spec, fadd, fdiv, fmul, fsub, mul_spec, sig};

verus! {

/// A binary64 value held as its raw bit pattern; arithmetic on it is done
/// in software.
#[allow(non_camel_case_types)]
#[derive(Clone, Copy, Debug, PartialEq, Eq, Structural)]
pub struct sf64 {
    pub value: u64,
}

/// The sign-bit mask of binary64.
pub const SIGN_MASK_64: u64 = 0x8000_0000_0000_0000;

impl sf64 {
    /// The raw pattern as the kernel sees it.
    pub open spec fn bits(self) -> u64 {
        self.value
    }

    fn policy() -> (p: WidthPolicy)
        ensures
            p == binary64_spec(),
            p.wf(),
    {
        WidthPolicy::binary64()
    }

    /// Wraps a raw bit pattern; every pattern is a legal value.
    pub fn from_bits(raw: u64) -> (r: sf64)
        ensures
            r.value == raw,
    {
        sf64 { value: raw }
    }

    /// The raw bit pattern.
    pub fn to_bits(&self) -> (r: u64)
        ensures
            r == self.value,
    {
        self.value
    }

    /// `1` for a clear sign bit, `-1` for a set one.
    pub fn sign(&self) -> (r: i8)
        ensures
            r == if sign_field(binary64_spec(), self.bits()) { -1i8 } else { 1i8 },
    {
        if self.value >> 63 == 0 {
            proof {
                let v = self.value;
                assert(v >> 63u64 == 0 ==> v & 0x8000_0000_0000_0000u64 == 0) by (bit_vector);
            }
            1
        } else {
            proof {
                let v = self.value;
                assert(v >> 63u64 != 0 ==> v & 0x8000_0000_0000_0000u64 != 0) by (bit_vector);
            }
            -1
        }
    }

    /// The significand: the stored mantissa with the implicit leading bit,
    /// which is set for Normal values only.
    pub fn mantissa(&self) -> (r: u64)
        ensures
            r == sig(binary64_spec(), self.bits()),
    {
        let p = Self::policy();
        let d = decompose(p, self.value);
        let hidden: u64 = if d.biased_exponent == 0 { 0 } else { p.implicit_bit() };
        d.stored_mantissa + hidden
    }

    /// The biased exponent field minus the bias.
    pub fn exponent(&self) -> (r: i16)
        ensures
            r == exp_field(binary64_spec(), self.bits()) - 1023,
    {
        let d = decompose(Self::policy(), self.value);
        d.biased_exponent as i16 - 1023
    }

    /// Significand, unbiased exponent and sign.
    pub fn parts(&self) -> (r: (u64, i16, i8))
        ensures
            r.0 == sig(binary64_spec(), self.bits()),
            r.1 == exp_field(binary64_spec(), self.bits()) - 1023,
            r.2 == if sign_field(binary64_spec(), self.bits()) { -1i8 } else { 1i8 },
    {
        (self.mantissa(), self.exponent(), self.sign())
    }

    /// Packs a mantissa (its implicit bit dropped), an unbiased exponent and a
    /// sign (negative when below zero).
    pub fn from_parts(mantissa: u64, exponent: i16, sign: i8) -> (r: sf64)
        requires
            -127 <= exponent <= 128,
        ensures
            r.bits() == compose_spec(
                binary64_spec(),
                sign < 0,
                (exponent + 1023) as u64,
                mantissa as u64,
            ),
    {
        let d = Decomposed {
            negative: sign < 0,
            biased_exponent: (exponent + 1023) as u64,
            stored_mantissa: mantissa as u64,
        };
        let r = compose(Self::policy(), d);
        sf64 { value: r }
    }

    /// IEEE-754 addition.
    pub fn add(self, rhs: sf64) -> (r: sf64)
        ensures
            r.bits() == add_spec(binary64_spec(), self.bits(), rhs.bits()),
    {
        let r = fadd(Self::policy(), self.value, rhs.value);
        sf64 { value: r }
    }

    /// IEEE-754 subtraction: `self` plus `rhs` with its sign bit flipped.
    pub fn sub(self, rhs: sf64) -> (r: sf64)
        ensures
            r.bits() == add_spec(binary64_spec(), self.bits(), rhs.value ^ SIGN_MASK_64),
            r.bits() == add_spec(binary64_spec(), self.bits(), rhs.bits() ^ 0x8000_0000_0000_0000u64),
    {
        let inverted = rhs.bitxor(sf64 { value: SIGN_MASK_64 });
        self.add(inverted)
    }

    /// IEEE-754 multiplication.
    pub fn mul(self, rhs: sf64) -> (r: sf64)
        ensures
            r.bits() == mul_spec(binary64_spec(), self.bits(), rhs.bits()),
    {
        let r = fmul(Self::policy(), self.value, rhs.value);
        sf64 { value: r }
    }

    /// IEEE-754 division.
    pub fn div(self, rhs: sf64) -> (r: sf64)
        ensures
            r.bits() == div_spec(binary64_spec(), self.bits(), rhs.bits()),
    {
        let r = fdiv(Self::policy(), self.value, rhs.value);
        sf64 { value: r }
    }

    /// Bitwise exclusive or of the raw patterns.
    pub fn bitxor(self, rhs: sf64) -> (r: sf64)
        ensures
            r.value == self.value ^ rhs.value,
    {
        sf64 { value: self.value ^ rhs.value }
    }

    /// Bitwise and of the raw patterns.
    pub fn bitand(self, rhs: sf64) -> (r: sf64)
        ensures
            r.value == self.value & rhs.value,
    {
        sf64 { value: self.value & rhs.value }
    }
}

} // verus!
