use vstd::prelude::*;
use crate::policy::{WidthPolicy, binary32_spec};
use crate::bits::{compose, compose_spec, decompose, exp_field, sign_field, Decomposed};
use crate::rounding::{rne, round_shift};
use crate::arith::{add_spec, div_spec, fadd, fdiv, fmul, fsub, mul_spec, sig};

verus! {

/// A binary32 value held as its raw bit pattern; arithmetic on it is done
/// in software.
#[allow(non_camel_case_types)]
#[derive(Clone, Copy, Debug, PartialEq, Eq, Structural)]
pub struct sf32 {
    pub value: u32,
}

/// The sign-bit mask of binary32.
pub const SIGN_MASK_32: u32 = 0x8000_0000;

/// Shifts a binary32 mantissa right by `n` bits, rounding to nearest, ties
/// to even.
pub fn ieee_rounding_shift(mantissa: u32, n: i16) -> (r: u32)
    requires
        0 <= n <= 24,
    ensures
        r == rne(mantissa as nat, n as nat),
{
    proof {
        if n > 0 {
            vstd::arithmetic::power2::lemma2_to64();
            crate::rounding::lemma_rne_bound(mantissa as nat, n as nat, (32 - n) as nat);
            vstd::arithmetic::power2::lemma_pow2_strictly_increases((32 - n) as nat, 32);
        }
    }
    let (q, _) = round_shift(mantissa as u128, n as u32);
    q as u32
}

impl sf32 {
    /// The raw pattern widened to the kernel word.
    pub open spec fn bits(self) -> u64 {
        self.value as u64
    }

    fn policy() -> (p: WidthPolicy)
        ensures
            p == binary32_spec(),
            p.wf(),
    {
        WidthPolicy::binary32()
    }

    /// Wraps a raw bit pattern; every pattern is a legal value.
    pub fn from_bits(raw: u32) -> (r: sf32)
        ensures
            r.value == raw,
    {
        sf32 { value: raw }
    }

    /// The raw bit pattern.
    pub fn to_bits(&self) -> (r: u32)
        ensures
            r == self.value,
    {
        self.value
    }

    /// `1` for a clear sign bit, `-1` for a set one.
    pub fn sign(&self) -> (r: i8)
        ensures
            r == if sign_field(binary32_spec(), self.bits()) { -1i8 } else { 1i8 },
    {
        if self.value >> 31 == 0 {
            proof {
                let v = self.value;
                assert(v >> 31u32 == 0 ==> (v as u64) & 0x8000_0000u64 == 0) by (bit_vector);
            }
            1
        } else {
            proof {
                let v = self.value;
                assert(v >> 31u32 != 0 ==> (v as u64) & 0x8000_0000u64 != 0) by (bit_vector);
            }
            -1
        }
    }

    /// The significand: the stored mantissa with the implicit leading bit,
    /// which is set for Normal values only.
    pub fn mantissa(&self) -> (r: u32)
        ensures
            r == sig(binary32_spec(), self.bits()),
    {
        let p = Self::policy();
        let d = decompose(p, self.value as u64);
        let hidden: u64 = if d.biased_exponent == 0 { 0 } else { p.implicit_bit() };
        (d.stored_mantissa + hidden) as u32
    }

    /// The biased exponent field minus the bias.
    pub fn exponent(&self) -> (r: i16)
        ensures
            r == exp_field(binary32_spec(), self.bits()) - 127,
    {
        let d = decompose(Self::policy(), self.value as u64);
        d.biased_exponent as i16 - 127
    }

    /// Significand, unbiased exponent and sign.
    pub fn parts(&self) -> (r: (u32, i16, i8))
        ensures
            r.0 == sig(binary32_spec(), self.bits()),
            r.1 == exp_field(binary32_spec(), self.bits()) - 127,
            r.2 == if sign_field(binary32_spec(), self.bits()) { -1i8 } else { 1i8 },
    {
        (self.mantissa(), self.exponent(), self.sign())
    }

    /// Packs a mantissa (its implicit bit dropped), an unbiased exponent and a
    /// sign (negative when below zero).
    pub fn from_parts(mantissa: u32, exponent: i16, sign: i8) -> (r: sf32)
        requires
            -127 <= exponent <= 128,
        ensures
            r.bits() == compose_spec(
                binary32_spec(),
                sign < 0,
                (exponent + 127) as u64,
                mantissa as u64,
            ),
    {
        let d = Decomposed {
            negative: sign < 0,
            biased_exponent: (exponent + 127) as u64,
            stored_mantissa: mantissa as u64,
        };
        let r = compose(Self::policy(), d);
        sf32 { value: r as u32 }
    }

    /// IEEE-754 addition.
    pub fn add(self, rhs: sf32) -> (r: sf32)
        ensures
            r.bits() == add_spec(binary32_spec(), self.bits(), rhs.bits()),
    {
        let r = fadd(Self::policy(), self.value as u64, rhs.value as u64);
        sf32 { value: r as u32 }
    }

    /// IEEE-754 subtraction: `self` plus `rhs` with its sign bit flipped.
    pub fn sub(self, rhs: sf32) -> (r: sf32)
        ensures
            r.bits() == add_spec(binary32_spec(), self.bits(), (rhs.value ^ SIGN_MASK_32) as u64),
            r.bits() == add_spec(binary32_spec(), self.bits(), rhs.bits() ^ 0x8000_0000u64),
    {
        let inverted = rhs.bitxor(sf32 { value: SIGN_MASK_32 });
        proof {
            let v = rhs.value;
            assert((v ^ 0x8000_0000u32) as u64 == (v as u64) ^ 0x8000_0000u64) by (bit_vector);
        }
        self.add(inverted)
    }

    /// IEEE-754 multiplication.
    pub fn mul(self, rhs: sf32) -> (r: sf32)
        ensures
            r.bits() == mul_spec(binary32_spec(), self.bits(), rhs.bits()),
    {
        let r = fmul(Self::policy(), self.value as u64, rhs.value as u64);
        sf32 { value: r as u32 }
    }

    /// IEEE-754 division.
    pub fn div(self, rhs: sf32) -> (r: sf32)
        ensures
            r.bits() == div_spec(binary32_spec(), self.bits(), rhs.bits()),
    {
        let r = fdiv(Self::policy(), self.value as u64, rhs.value as u64);
        sf32 { value: r as u32 }
    }

    /// Bitwise exclusive or of the raw patterns.
    pub fn bitxor(self, rhs: sf32) -> (r: sf32)
        ensures
            r.value == self.value ^ rhs.value,
    {
        sf32 { value: self.value ^ rhs.value }
    }

    /// Bitwise and of the raw patterns.
    pub fn bitand(self, rhs: sf32) -> (r: sf32)
        ensures
            r.value == self.value & rhs.value,
    {
        sf32 { value: self.value & rhs.value }
    }
}

} // verus!
