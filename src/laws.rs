use vstd::prelude::*;
use vstd::arithmetic::power2::*;
use vstd::arithmetic::mul::*;
use crate::policy::WidthPolicy;
use crate::bits::{
    compose_spec, decompose_spec, exp_field, is_nan, is_finite, lemma_decompose_compose, lemma_fields_legal,
    man_field, sign_field, signed_zero,
};
use crate::rounding::{bit_len, lemma_bit_len_bounds, lemma_bit_len_exact, lemma_rne_exact};
use crate::pack::{lemma_policy_pow2, pack_rounded};
use crate::arith::{add_finite, add_spec, lemma_compose_sig, div_spec, mul_spec, scale, sig};

verus! {

/// Flipping the sign bit keeps the exponent and mantissa fields and the width.
pub proof fn lemma_flip_sign(p: WidthPolicy, x: u64)
    requires
        p.wf(),
        p.fits(x),
    ensures
        sign_field(p, x ^ p.sign_mask_spec()) == !sign_field(p, x),
        exp_field(p, x ^ p.sign_mask_spec()) == exp_field(p, x),
        man_field(p, x ^ p.sign_mask_spec()) == man_field(p, x),
        p.fits(x ^ p.sign_mask_spec()),
{
    if p.is32() {
        assert(x <= 0xffff_ffffu64 ==> {
            let y = x ^ 0x8000_0000u64;
            &&& (y & 0x8000_0000u64 != 0) == !(x & 0x8000_0000u64 != 0)
            &&& (y >> 23u64) & 0xffu64 == (x >> 23u64) & 0xffu64
            &&& y & 0x7f_ffffu64 == x & 0x7f_ffffu64
            &&& y <= 0xffff_ffffu64
        }) by (bit_vector);
    } else {
        assert({
            let y = x ^ 0x8000_0000_0000_0000u64;
            &&& (y & 0x8000_0000_0000_0000u64 != 0) == !(x & 0x8000_0000_0000_0000u64 != 0)
            &&& (y >> 52u64) & 0x7ffu64 == (x >> 52u64) & 0x7ffu64
            &&& y & 0xf_ffff_ffff_ffffu64 == x & 0xf_ffff_ffff_ffffu64
        }) by (bit_vector);
    }
}

/// Addition and multiplication of finite values are commutative, bit for bit.
pub proof fn lemma_commutative(p: WidthPolicy, a: u64, b: u64)
    requires
        p.wf(),
        is_finite(p, a),
        is_finite(p, b),
    ensures
        add_spec(p, a, b) == add_spec(p, b, a),
        mul_spec(p, a, b) == mul_spec(p, b, a),
{
    lemma_fields_legal(p, a);
    lemma_fields_legal(p, b);
    assert(add_finite(p, a, b) == add_finite(p, b, a));
    assert(sig(p, a) * sig(p, b) == sig(p, b) * sig(p, a)) by (nonlinear_arith);
}

/// Adding a positive zero to a finite value gives the value back, except
/// for a negative zero, which IEEE-754 turns into a positive zero.
pub proof fn lemma_add_positive_zero(p: WidthPolicy, x: u64)
    requires
        p.wf(),
        p.fits(x),
        is_finite(p, x),
        x != signed_zero(p, true),
    ensures
        add_spec(p, x, 0) == x,
{
    lemma_policy_pow2(p);
    lemma2_to64();
    lemma_fields_legal(p, x);
    let z: u64 = 0;
    assert(exp_field(p, z) == 0 && man_field(p, z) == 0 && !sign_field(p, z)) by {
        assert((0u64 >> 23u64) & 0xffu64 == 0 && (0u64 >> 52u64) & 0x7ffu64 == 0 && 0u64
            & 0x7f_ffffu64 == 0 && 0u64 & 0xf_ffff_ffff_ffffu64 == 0 && 0u64 & 0x8000_0000u64
            == 0 && 0u64 & 0x8000_0000_0000_0000u64 == 0) by (bit_vector);
    }
    lemma_decompose_compose(p, x);
    let d = decompose_spec(p, x);
    let neg = d.negative;
    let be = d.biased_exponent;
    let man = d.stored_mantissa;
    assert(man <= p.man_mask_spec()) by {
        let mm = p.man_mask_spec();
        assert(x & mm <= mm) by (bit_vector);
    }
    let ea = scale(p, x);
    let k = ea - p.emin();
    assert(scale(p, z) == p.emin());
    assert(sig(p, z) == 0);
    assert(is_finite(p, z));
    assert(add_spec(p, x, z) == add_finite(p, x, z));
    assert(0 * pow2(0) == 0);
    let m = sig(p, x) * pow2(k as nat);
    assert(sig(p, z) * pow2((ea - p.emin()) as nat) == 0);
    assert(add_finite(p, x, z) == if m == 0 {
        signed_zero(p, false)
    } else {
        pack_rounded(p, neg, m, p.emin())
    });
    if m == 0 {
        lemma_pow2_pos(k as nat);
        assert(sig(p, x) == 0) by (nonlinear_arith)
            requires
                sig(p, x) * pow2(k as nat) == 0,
                pow2(k as nat) > 0,
        ;
        assert(be == 0 && man == 0);
        assert(!neg);
        assert(x == compose_spec(p, false, 0, 0));
    } else if be == 0 {
        assert(k == 0);
        assert(sig(p, x) * 1 == sig(p, x));
        assert(m == man);
        lemma_bit_len_bounds(m);
        if bit_len(m) >= p.prec() {
            lemma_pow2_strictly_increases(p.mantissa_bits as nat, (bit_len(m) - 1) as nat);
        }
        assert(pack_rounded(p, neg, m, p.emin()) == compose_spec(p, neg, 0, man));
    } else {
        let s = sig(p, x);
        assert(s == man + p.implicit_spec());
        lemma_pow2_unfold(p.prec());
        lemma_pow2_adds(p.mantissa_bits as nat, k as nat);
        lemma_pow2_adds(p.prec(), k as nat);
        lemma_pow2_pos(k as nat);
        lemma_mul_inequality(pow2(p.mantissa_bits as nat) as int, s as int, pow2(k as nat) as int);
        lemma_mul_strict_inequality(s as int, pow2(p.prec()) as int, pow2(k as nat) as int);
        assert(p.prec() + k - 1 == p.mantissa_bits + k);
        lemma_bit_len_exact(m, (p.prec() + k) as nat);
        lemma_rne_exact(s, k as nat);
        if k == 0 {
            assert(m == s);
        }
        lemma_compose_sig(p, x);
        assert(pack_rounded(p, neg, m, p.emin()) == compose_spec(p, neg, be, s as u64));
    }
}

/// A finite value plus its negation is a positive zero.
pub proof fn lemma_add_negation(p: WidthPolicy, x: u64)
    requires
        p.wf(),
        p.fits(x),
        is_finite(p, x),
    ensures
        add_spec(p, x, x ^ p.sign_mask_spec()) == signed_zero(p, false),
{
    lemma_flip_sign(p, x);
    lemma_fields_legal(p, x);
}

/// Every operator returns a NaN when either operand is a NaN.
pub proof fn lemma_nan_propagation(p: WidthPolicy, a: u64, b: u64)
    requires
        p.wf(),
        p.fits(b),
        is_nan(p, a) || is_nan(p, b),
    ensures
        is_nan(p, add_spec(p, a, b)),
        is_nan(p, add_spec(p, a, b ^ p.sign_mask_spec())),
        is_nan(p, mul_spec(p, a, b)),
        is_nan(p, div_spec(p, a, b)),
{
    lemma_flip_sign(p, b);
    lemma_fields_legal(p, a);
    lemma_fields_legal(p, b);
}

} // verus!
