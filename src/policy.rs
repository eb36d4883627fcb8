use vstd::prelude::*;

verus! {

/// The constants that fix one binary interchange format.
#[derive(Clone, Copy, Debug, PartialEq, Eq, Structural)]
pub struct WidthPolicy {
    pub total_bits: u32,
    pub exponent_bits: u32,
    pub mantissa_bits: u32,
}

pub open spec fn binary32_spec() -> WidthPolicy {
    WidthPolicy { total_bits: 32, exponent_bits: 8, mantissa_bits: 23 }
}

pub open spec fn binary64_spec() -> WidthPolicy {
    WidthPolicy { total_bits: 64, exponent_bits: 11, mantissa_bits: 52 }
}

impl WidthPolicy {
    /// The two supported formats: binary32 (1/8/23) and binary64 (1/11/52).
    pub open spec fn wf(self) -> bool {
        (self.total_bits == 32 && self.exponent_bits == 8 && self.mantissa_bits == 23) || (
        self.total_bits == 64 && self.exponent_bits == 11 && self.mantissa_bits == 52)
    }

    pub open spec fn is32(self) -> bool {
        self.total_bits == 32
    }

    /// `2^(exponent_bits-1) - 1`
    pub open spec fn bias_spec(self) -> int {
        if self.is32() { 127 } else { 1023 }
    }

    /// `2^exponent_bits - 1`
    pub open spec fn max_exp_spec(self) -> u64 {
        if self.is32() { 0xff } else { 0x7ff }
    }

    /// Mask of the stored mantissa field, `2^mantissa_bits - 1`.
    pub open spec fn man_mask_spec(self) -> u64 {
        if self.is32() { 0x7f_ffff } else { 0xf_ffff_ffff_ffff }
    }

    /// The implicit leading bit, `2^mantissa_bits`.
    pub open spec fn implicit_spec(self) -> u64 {
        if self.is32() { 0x80_0000 } else { 0x10_0000_0000_0000 }
    }

    /// The sign bit of the raw pattern, `2^(total_bits-1)`.
    pub open spec fn sign_mask_spec(self) -> u64 {
        if self.is32() { 0x8000_0000 } else { 0x8000_0000_0000_0000 }
    }

    /// A raw pattern of exactly `total_bits` bits.
    pub open spec fn fits(self, r: u64) -> bool {
        !self.is32() || r <= 0xffff_ffff
    }

    /// Precision in bits, implicit bit included.
    pub open spec fn prec(self) -> nat {
        (self.mantissa_bits + 1) as nat
    }

    /// Exponent of the last mantissa bit of the smallest normal (and of every
    /// subnormal): `1 - bias - mantissa_bits`.
    pub open spec fn emin(self) -> int {
        1 - self.bias_spec() - self.mantissa_bits
    }

    pub fn binary32() -> (r: WidthPolicy)
        ensures
            r.wf() && r.is32() && r == binary32_spec(),
    {
        WidthPolicy { total_bits: 32, exponent_bits: 8, mantissa_bits: 23 }
    }

    pub fn binary64() -> (r: WidthPolicy)
        ensures
            r.wf() && !r.is32() && r == binary64_spec(),
    {
        WidthPolicy { total_bits: 64, exponent_bits: 11, mantissa_bits: 52 }
    }

    pub fn bias(&self) -> (r: i64)
        requires
            self.wf(),
        ensures
            r == self.bias_spec(),
    {
        if self.total_bits == 32 { 127 } else { 1023 }
    }

    pub fn max_biased_exponent(&self) -> (r: u64)
        requires
            self.wf(),
        ensures
            r == self.max_exp_spec(),
    {
        if self.total_bits == 32 { 0xff } else { 0x7ff }
    }

    pub fn mantissa_mask(&self) -> (r: u64)
        requires
            self.wf(),
        ensures
            r == self.man_mask_spec(),
    {
        if self.total_bits == 32 { 0x7f_ffff } else { 0xf_ffff_ffff_ffff }
    }

    pub fn implicit_bit(&self) -> (r: u64)
        requires
            self.wf(),
        ensures
            r == self.implicit_spec(),
    {
        if self.total_bits == 32 { 0x80_0000 } else { 0x10_0000_0000_0000 }
    }

    pub fn sign_mask(&self) -> (r: u64)
        requires
            self.wf(),
        ensures
            r == self.sign_mask_spec(),
    {
        if self.total_bits == 32 { 0x8000_0000 } else { 0x8000_0000_0000_0000 }
    }
}

} // verus!
