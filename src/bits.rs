use vstd::prelude::*;
use crate::policy::WidthPolicy;

verus! {

/// A raw pattern split into its three fields.
#[derive(Clone, Copy, Debug, PartialEq, Eq, Structural)]
pub struct Decomposed {
    /// The sign bit is set (the value is negative, or a negative zero).
    pub negative: bool,
    pub biased_exponent: u64,
    pub stored_mantissa: u64,
}

/// The five classes of an IEEE-754 bit pattern.
#[derive(Clone, Copy, Debug, PartialEq, Eq, Structural)]
pub enum Kind {
    Zero,
    Subnormal,
    Normal,
    Infinity,
    NaN,
}

pub open spec fn sign_field(p: WidthPolicy, r: u64) -> bool {
    r & p.sign_mask_spec() != 0
}

pub open spec fn exp_field(p: WidthPolicy, r: u64) -> u64 {
    (r >> (p.mantissa_bits as u64)) & p.max_exp_spec()
}

pub open spec fn man_field(p: WidthPolicy, r: u64) -> u64 {
    r & p.man_mask_spec()
}

pub open spec fn decompose_spec(p: WidthPolicy, r: u64) -> Decomposed {
    Decomposed {
        negative: sign_field(p, r),
        biased_exponent: exp_field(p, r),
        stored_mantissa: man_field(p, r),
    }
}

/// Packs the fields; the exponent and the mantissa are masked to their widths.
pub open spec fn compose_spec(p: WidthPolicy, negative: bool, e: u64, m: u64) -> u64 {
    (if negative { p.sign_mask_spec() } else { 0u64 }) | (((e & p.max_exp_spec()) << (
    p.mantissa_bits as u64)) | (m & p.man_mask_spec()))
}

/// Fields that a pattern of the format can hold.
pub open spec fn legal(p: WidthPolicy, d: Decomposed) -> bool {
    d.biased_exponent <= p.max_exp_spec() && d.stored_mantissa <= p.man_mask_spec()
}

pub open spec fn is_zero_fields(d: Decomposed) -> bool {
    d.biased_exponent == 0 && d.stored_mantissa == 0
}

pub open spec fn is_subnormal_fields(d: Decomposed) -> bool {
    d.biased_exponent == 0 && d.stored_mantissa != 0
}

pub open spec fn is_normal_fields(p: WidthPolicy, d: Decomposed) -> bool {
    0 < d.biased_exponent < p.max_exp_spec()
}

pub open spec fn is_infinity_fields(p: WidthPolicy, d: Decomposed) -> bool {
    d.biased_exponent == p.max_exp_spec() && d.stored_mantissa == 0
}

pub open spec fn is_nan_fields(p: WidthPolicy, d: Decomposed) -> bool {
    d.biased_exponent == p.max_exp_spec() && d.stored_mantissa != 0
}

pub open spec fn kind_spec(p: WidthPolicy, d: Decomposed) -> Kind {
    if d.biased_exponent == 0 {
        if d.stored_mantissa == 0 {
            Kind::Zero
        } else {
            Kind::Subnormal
        }
    } else if d.biased_exponent < p.max_exp_spec() {
        Kind::Normal
    } else if d.stored_mantissa == 0 {
        Kind::Infinity
    } else {
        Kind::NaN
    }
}

/// The class of a raw pattern.
pub open spec fn kind_of(p: WidthPolicy, r: u64) -> Kind {
    kind_spec(p, decompose_spec(p, r))
}

pub open spec fn is_nan(p: WidthPolicy, r: u64) -> bool {
    kind_of(p, r) == Kind::NaN
}

pub open spec fn is_inf(p: WidthPolicy, r: u64) -> bool {
    kind_of(p, r) == Kind::Infinity
}

pub open spec fn is_zero(p: WidthPolicy, r: u64) -> bool {
    kind_of(p, r) == Kind::Zero
}

/// Zero, Subnormal or Normal.
pub open spec fn is_finite(p: WidthPolicy, r: u64) -> bool {
    !is_nan(p, r) && !is_inf(p, r)
}

/// The quiet NaN that invalid operations produce.
pub open spec fn canonical_nan(p: WidthPolicy) -> u64 {
    if p.is32() { 0x7fc0_0000 } else { 0x7ff8_0000_0000_0000 }
}

pub open spec fn infinity(p: WidthPolicy, negative: bool) -> u64 {
    compose_spec(p, negative, p.max_exp_spec(), 0)
}

pub open spec fn signed_zero(p: WidthPolicy, negative: bool) -> u64 {
    compose_spec(p, negative, 0, 0)
}

/// Splits a raw pattern into sign, biased exponent and stored mantissa.
pub fn decompose(p: WidthPolicy, raw: u64) -> (d: Decomposed)
    requires
        p.wf(),
    ensures
        d == decompose_spec(p, raw),
        legal(p, d),
{
    let e = (raw >> (p.mantissa_bits as u64)) & p.max_biased_exponent();
    let m = raw & p.mantissa_mask();
    proof {
        let mb = p.mantissa_bits as u64;
        let em = p.max_exp_spec();
        let mm = p.man_mask_spec();
        assert((raw >> mb) & em <= em) by (bit_vector);
        assert(raw & mm <= mm) by (bit_vector);
    }
    Decomposed { negative: raw & p.sign_mask() != 0, biased_exponent: e, stored_mantissa: m }
}

/// Packs sign, biased exponent and stored mantissa into a raw pattern,
/// masking the exponent and the mantissa to their widths.
pub fn compose(p: WidthPolicy, d: Decomposed) -> (r: u64)
    requires
        p.wf(),
    ensures
        r == compose_spec(p, d.negative, d.biased_exponent, d.stored_mantissa),
        p.fits(r),
{
    let s: u64 = if d.negative { p.sign_mask() } else { 0 };
    let r = s | (((d.biased_exponent & p.max_biased_exponent()) << (p.mantissa_bits as u64)) | (
    d.stored_mantissa & p.mantissa_mask()));
    proof {
        lemma_compose_fits(p, d.negative, d.biased_exponent, d.stored_mantissa);
    }
    r
}

/// Classifies decomposed fields.
pub fn classify(p: WidthPolicy, d: Decomposed) -> (k: Kind)
    requires
        p.wf(),
    ensures
        k == kind_spec(p, d),
{
    if d.biased_exponent == 0 {
        if d.stored_mantissa == 0 {
            Kind::Zero
        } else {
            Kind::Subnormal
        }
    } else if d.biased_exponent < p.max_biased_exponent() {
        Kind::Normal
    } else if d.stored_mantissa == 0 {
        Kind::Infinity
    } else {
        Kind::NaN
    }
}

/// The fields of any pattern are legal.
pub proof fn lemma_fields_legal(p: WidthPolicy, r: u64)
    requires
        p.wf(),
    ensures
        legal(p, decompose_spec(p, r)),
{
    let mb = p.mantissa_bits as u64;
    let em = p.max_exp_spec();
    let mm = p.man_mask_spec();
    assert((r >> mb) & em <= em) by (bit_vector);
    assert(r & mm <= mm) by (bit_vector);
}

/// A packed pattern has the format's width.
pub proof fn lemma_compose_fits(p: WidthPolicy, negative: bool, e: u64, m: u64)
    requires
        p.wf(),
    ensures
        p.fits(compose_spec(p, negative, e, m)),
{
    if p.is32() {
        let s: u64 = if negative { 0x8000_0000u64 } else { 0u64 };
        assert(s <= 0x8000_0000u64);
        assert(s <= 0x8000_0000u64 ==> s | (((e & 0xffu64) << 23u64) | (m & 0x7f_ffffu64))
            <= 0xffff_ffffu64) by (bit_vector);
    }
}

/// Decomposing a pattern and packing its fields again gives the pattern back.
pub proof fn lemma_decompose_compose(p: WidthPolicy, r: u64)
    requires
        p.wf(),
        p.fits(r),
    ensures
        compose_spec(
            p,
            decompose_spec(p, r).negative,
            decompose_spec(p, r).biased_exponent,
            decompose_spec(p, r).stored_mantissa,
        ) == r,
{
    let d = decompose_spec(p, r);
    let x = compose_spec(p, d.negative, d.biased_exponent, d.stored_mantissa);
    if p.is32() {
        let s: u64 = if d.negative { 0x8000_0000u64 } else { 0u64 };
        assert(p.mantissa_bits as u64 == 23u64);
        assert(p.max_exp_spec() == 0xffu64);
        assert(d.biased_exponent == (r >> 23u64) & 0xffu64);
        assert(d.stored_mantissa == r & 0x7f_ffffu64);
        assert(x == s | ((((((r >> 23u64) & 0xffu64) & 0xffu64) << 23u64) | ((r & 0x7f_ffffu64) & 0x7f_ffffu64))));
        assert(r <= 0xffff_ffffu64 && s == r & 0x8000_0000u64 ==> s | (((((r >> 23u64)
            & 0xffu64) & 0xffu64) << 23u64) | ((r & 0x7f_ffffu64) & 0x7f_ffffu64)) == r) by (bit_vector);
        if d.negative {
            assert(r & 0x8000_0000u64 != 0 ==> r & 0x8000_0000u64 == 0x8000_0000u64)
                by (bit_vector);
        }
    } else {
        let s: u64 = if d.negative { 0x8000_0000_0000_0000u64 } else { 0u64 };
        assert(x == s | ((((((r >> 52u64) & 0x7ffu64) & 0x7ffu64) << 52u64) | ((r
            & 0xf_ffff_ffff_ffffu64) & 0xf_ffff_ffff_ffffu64))));
        assert(s == r & 0x8000_0000_0000_0000u64 ==> s | (((((r >> 52u64) & 0x7ffu64)
            & 0x7ffu64) << 52u64) | ((r & 0xf_ffff_ffff_ffffu64) & 0xf_ffff_ffff_ffffu64)) == r) by (bit_vector);
        if d.negative {
            assert(r & 0x8000_0000_0000_0000u64 != 0 ==> r & 0x8000_0000_0000_0000u64
                == 0x8000_0000_0000_0000u64) by (bit_vector);
        }
    }
}

/// Packing legal fields and decomposing the result gives the fields back.
pub proof fn lemma_compose_decompose(p: WidthPolicy, d: Decomposed)
    requires
        p.wf(),
        legal(p, d),
    ensures
        decompose_spec(p, compose_spec(p, d.negative, d.biased_exponent, d.stored_mantissa))
            == d,
{
    let e = d.biased_exponent;
    let m = d.stored_mantissa;
    let r = compose_spec(p, d.negative, e, m);
    if p.is32() {
        let s: u64 = if d.negative { 0x8000_0000u64 } else { 0u64 };
        assert(r == s | (((e & 0xffu64) << 23u64) | (m & 0x7f_ffffu64)));
        assert((s == 0 || s == 0x8000_0000u64) && e <= 0xff && m <= 0x7f_ffff ==> {
            let x = s | (((e & 0xffu64) << 23u64) | (m & 0x7f_ffffu64));
            &&& (x & 0x8000_0000u64 != 0) == (s != 0)
            &&& (x >> 23u64) & 0xffu64 == e
            &&& x & 0x7f_ffffu64 == m
        }) by (bit_vector);
    } else {
        let s: u64 = if d.negative { 0x8000_0000_0000_0000u64 } else { 0u64 };
        assert(r == s | (((e & 0x7ffu64) << 52u64) | (m & 0xf_ffff_ffff_ffffu64)));
        assert((s == 0 || s == 0x8000_0000_0000_0000u64) && e <= 0x7ff && m
            <= 0xf_ffff_ffff_ffff ==> {
            let x = s | (((e & 0x7ffu64) << 52u64) | (m & 0xf_ffff_ffff_ffffu64));
            &&& (x & 0x8000_0000_0000_0000u64 != 0) == (s != 0)
            &&& (x >> 52u64) & 0x7ffu64 == e
            &&& x & 0xf_ffff_ffff_ffffu64 == m
        }) by (bit_vector);
    }
}

/// Every raw pattern falls in exactly one class, and the class predicates
/// are mutually exclusive and together exhaustive.
pub proof fn lemma_classification_total(p: WidthPolicy, r: u64)
    requires
        p.wf(),
    ensures
        ({
            let d = decompose_spec(p, r);
            &&& (kind_of(p, r) == Kind::Zero) == is_zero_fields(d)
            &&& (kind_of(p, r) == Kind::Subnormal) == is_subnormal_fields(d)
            &&& (kind_of(p, r) == Kind::Normal) == is_normal_fields(p, d)
            &&& (kind_of(p, r) == Kind::Infinity) == is_infinity_fields(p, d)
            &&& (kind_of(p, r) == Kind::NaN) == is_nan_fields(p, d)
            &&& is_zero_fields(d) as int + is_subnormal_fields(d) as int + is_normal_fields(p, d)
                as int + is_infinity_fields(p, d) as int + is_nan_fields(p, d) as int == 1
        }),
{
    let mb = p.mantissa_bits as u64;
    let em = p.max_exp_spec();
    assert((r >> mb) & em <= em) by (bit_vector);
}

} // verus!
