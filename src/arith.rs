use vstd::prelude::*;
use vstd::arithmetic::power2::*;
use vstd::arithmetic::mul::*;
use crate::policy::WidthPolicy;
use crate::bits::{
    Decomposed, canonical_nan, compose, compose_spec, decompose, exp_field, infinity, is_inf, is_nan,
    is_zero, man_field, sign_field, signed_zero,
};
use crate::rounding::{bit_len, bit_length, lemma_bit_len_bounds, lemma_bit_len_le, pow2_u128};
use crate::pack::{lemma_pack_dominant, lemma_policy_pow2, pack_rounded, round_pack};

verus! {

/// Exponent differences past this bound leave the smaller addend below a
/// quarter of the larger one's last place, so the sum rounds to the larger.
pub const ALIGN_LIMIT: i64 = 64;

/// The significand of a finite pattern: the stored mantissa with the implicit
/// bit, which is 1 for Normal and 0 for Zero and Subnormal.
pub open spec fn sig(p: WidthPolicy, r: u64) -> nat {
    man_field(p, r) as nat + if exp_field(p, r) == 0 { 0nat } else { p.implicit_spec() as nat }
}

/// The exponent of the significand's last bit: a finite pattern is worth
/// `(-1)^sign * sig * 2^scale`.
pub open spec fn scale(p: WidthPolicy, r: u64) -> int {
    (if exp_field(p, r) == 0 { 1 } else { exp_field(p, r) as int }) - p.bias_spec()
        - p.mantissa_bits
}

/// The sum of two finite patterns: the exact sum, rounded once.
pub open spec fn add_finite(p: WidthPolicy, a: u64, b: u64) -> u64 {
    let ea = scale(p, a);
    let eb = scale(p, b);
    let e = if ea < eb { ea } else { eb };
    let ua = sig(p, a) * pow2((ea - e) as nat);
    let ub = sig(p, b) * pow2((eb - e) as nat);
    let s: int = (if sign_field(p, a) { -ua } else { ua as int }) + (if sign_field(p, b) {
        -ub
    } else {
        ub as int
    });
    if s == 0 {
        signed_zero(p, sign_field(p, a) && sign_field(p, b))
    } else {
        pack_rounded(p, s < 0, (if s < 0 { -s } else { s }) as nat, e)
    }
}

/// A finite pattern is the packing of its sign, exponent and significand.
pub proof fn lemma_compose_sig(p: WidthPolicy, x: u64)
    requires
        p.wf(),
        p.fits(x),
    ensures
        compose_spec(p, sign_field(p, x), exp_field(p, x), sig(p, x) as u64) == x,
{
    crate::bits::lemma_decompose_compose(p, x);
    crate::bits::lemma_fields_legal(p, x);
    let man = man_field(p, x);
    if p.is32() {
        assert(man <= 0x7f_ffffu64 ==> ((man + 0x80_0000u64) as u64) & 0x7f_ffffu64 == man
            & 0x7f_ffffu64) by (bit_vector);
    } else {
        assert(man <= 0xf_ffff_ffff_ffffu64 ==> ((man + 0x10_0000_0000_0000u64) as u64)
            & 0xf_ffff_ffff_ffffu64 == man & 0xf_ffff_ffff_ffffu64) by (bit_vector);
    }
}

/// Beyond `ALIGN_LIMIT` the exactly rounded sum is the operand with the
/// larger exponent.
proof fn lemma_add_far(p: WidthPolicy, a: u64, b: u64)
    requires
        p.wf(),
        p.fits(a),
        exp_field(p, a) < p.max_exp_spec(),
        exp_field(p, b) < p.max_exp_spec(),
        scale(p, a) > scale(p, b) + ALIGN_LIMIT,
    ensures
        add_finite(p, a, b) == a,
        add_finite(p, b, a) == a,
{
    lemma_policy_pow2(p);
    crate::bits::lemma_fields_legal(p, a);
    crate::bits::lemma_fields_legal(p, b);
    let ea = scale(p, a);
    let eb = scale(p, b);
    let d = (ea - eb) as nat;
    lemma2_to64();
    assert(sig(p, b) * 1 == sig(p, b));
    let sa = sig(p, a);
    let sb = sig(p, b);
    let ua = sa * pow2(d);
    assert(ua >= pow2(d)) by (nonlinear_arith)
        requires
            ua == sa * pow2(d),
            sa >= 1,
    ;
    if p.prec() < d {
        lemma_pow2_strictly_increases(p.prec(), d);
    }
    lemma_pack_dominant(p, sign_field(p, a), sa, exp_field(p, a) as int, d, sb,
        sign_field(p, a) == sign_field(p, b));
    lemma_compose_sig(p, a);
}

pub open spec fn add_spec(p: WidthPolicy, a: u64, b: u64) -> u64 {
    if is_nan(p, a) {
        a
    } else if is_nan(p, b) {
        b
    } else if is_inf(p, a) && is_inf(p, b) {
        if sign_field(p, a) == sign_field(p, b) {
            a
        } else {
            canonical_nan(p)
        }
    } else if is_inf(p, a) {
        a
    } else if is_inf(p, b) {
        b
    } else {
        add_finite(p, a, b)
    }
}

pub open spec fn mul_spec(p: WidthPolicy, a: u64, b: u64) -> u64 {
    let neg = sign_field(p, a) != sign_field(p, b);
    if is_nan(p, a) {
        a
    } else if is_nan(p, b) {
        b
    } else if is_inf(p, a) || is_inf(p, b) {
        if is_zero(p, a) || is_zero(p, b) {
            canonical_nan(p)
        } else {
            infinity(p, neg)
        }
    } else {
        pack_rounded(p, neg, sig(p, a) * sig(p, b), scale(p, a) + scale(p, b))
    }
}

/// Shift that brings a nonzero significand's leading bit to the implicit bit.
pub open spec fn norm_shift(p: WidthPolicy, m: nat) -> nat {
    (p.prec() - bit_len(m)) as nat
}

/// Extra quotient bits beyond the precision: guard and round.
pub open spec fn div_extra(p: WidthPolicy) -> nat {
    p.prec() + 2
}

/// The quotient of two finite nonzero patterns: the normalized significands
/// are divided to `div_extra` more bits, a sticky bit records a nonzero
/// remainder, and the result is rounded once.
pub open spec fn div_finite(p: WidthPolicy, a: u64, b: u64) -> u64 {
    let sa = sig(p, a);
    let sb = sig(p, b);
    let na = sa * pow2(norm_shift(p, sa));
    let nb = sb * pow2(norm_shift(p, sb));
    let num = na * pow2(div_extra(p));
    let q = num / nb;
    let sticky: nat = if num % nb != 0 { 1 } else { 0 };
    let e = (scale(p, a) - norm_shift(p, sa)) - (scale(p, b) - norm_shift(p, sb)) - div_extra(p) - 1;
    pack_rounded(p, sign_field(p, a) != sign_field(p, b), 2 * q + sticky, e)
}

pub open spec fn div_spec(p: WidthPolicy, a: u64, b: u64) -> u64 {
    let neg = sign_field(p, a) != sign_field(p, b);
    if is_nan(p, a) {
        a
    } else if is_nan(p, b) {
        b
    } else if is_inf(p, a) {
        if is_inf(p, b) {
            canonical_nan(p)
        } else {
            infinity(p, neg)
        }
    } else if is_inf(p, b) {
        signed_zero(p, neg)
    } else if is_zero(p, a) {
        if is_zero(p, b) {
            canonical_nan(p)
        } else {
            signed_zero(p, neg)
        }
    } else if is_zero(p, b) {
        infinity(p, neg)
    } else {
        div_finite(p, a, b)
    }
}

fn nan_of(p: WidthPolicy) -> (r: u64)
    requires
        p.wf(),
    ensures
        r == canonical_nan(p),
{
    if p.total_bits == 32 { 0x7fc0_0000 } else { 0x7ff8_0000_0000_0000 }
}

/// Significand and scale of a decomposed finite pattern.
fn unpack(p: WidthPolicy, d: Decomposed, Ghost(r): Ghost<u64>) -> (res: (u128, i64))
    requires
        p.wf(),
        d == crate::bits::decompose_spec(p, r),
        d.stored_mantissa <= p.man_mask_spec(),
        d.biased_exponent < p.max_exp_spec(),
    ensures
        res.0 == sig(p, r),
        res.1 == scale(p, r),
        res.0 < pow2(p.prec()),
        p.emin() <= res.1 <= 1023 - 52,
{
    proof {
        lemma_policy_pow2(p);
    }
    let hidden: u64 = if d.biased_exponent == 0 { 0 } else { p.implicit_bit() };
    let e: i64 = if d.biased_exponent == 0 { 1 } else { d.biased_exponent as i64 };
    ((d.stored_mantissa + hidden) as u128, e - p.bias() - p.mantissa_bits as i64)
}

fn classify_raw(p: WidthPolicy, d: Decomposed) -> (res: (bool, bool))
    requires
        p.wf(),
    ensures
        res.0 == (d.biased_exponent == p.max_exp_spec() && d.stored_mantissa != 0),
        res.1 == (d.biased_exponent == p.max_exp_spec() && d.stored_mantissa == 0),
{
    let top = d.biased_exponent == p.max_biased_exponent();
    (top && d.stored_mantissa != 0, top && d.stored_mantissa == 0)
}

proof fn lemma_align_bound(p: WidthPolicy, m: nat, k: nat)
    requires
        p.wf(),
        m < pow2(p.prec()),
        k <= 64,
    ensures
        m * pow2(k) < pow2(117),
        2 * pow2(117) < pow2(120),
        pow2(120) <= u128::MAX,
{
    lemma_policy_pow2(p);
    if p.prec() < 53 {
        lemma_pow2_strictly_increases(p.prec(), 53);
    }
    lemma_pow2_adds(53, 64);
    if k < 64 {
        lemma_pow2_strictly_increases(k, 64);
    }
    lemma_pow2_pos(k);
    lemma_mul_strict_inequality(m as int, pow2(53) as int, pow2(k) as int);
    lemma_mul_inequality(pow2(k) as int, pow2(64) as int, pow2(53) as int);
    lemma_pow2_unfold(118);
    lemma_pow2_strictly_increases(118, 120);
    lemma_pow2_strictly_increases(120, 128);
    crate::rounding::lemma_pow2_128();
}

/// Sum of two finite patterns.
fn add_finite_exec(p: WidthPolicy, a: u64, b: u64, da: Decomposed, db: Decomposed) -> (r: u64)
    requires
        p.wf(),
        p.fits(a),
        p.fits(b),
        da == crate::bits::decompose_spec(p, a),
        db == crate::bits::decompose_spec(p, b),
        crate::bits::legal(p, da),
        crate::bits::legal(p, db),
        da.biased_exponent < p.max_exp_spec(),
        db.biased_exponent < p.max_exp_spec(),
    ensures
        r == add_finite(p, a, b),
        p.fits(r),
{
    let (ma, ea) = unpack(p, da, Ghost(a));
    let (mb, eb) = unpack(p, db, Ghost(b));
    if ea > eb + ALIGN_LIMIT {
        proof {
            lemma_add_far(p, a, b);
        }
        return a;
    } else if eb > ea + ALIGN_LIMIT {
        proof {
            lemma_add_far(p, b, a);
        }
        return b;
    }
    let e = if ea < eb { ea } else { eb };
    let ka = (ea - e) as u32;
    let kb = (eb - e) as u32;
    proof {
        lemma_align_bound(p, ma as nat, ka as nat);
        lemma_align_bound(p, mb as nat, kb as nat);
    }
    let ua = ma * pow2_u128(ka);
    let ub = mb * pow2_u128(kb);
    if da.negative == db.negative {
        let s = ua + ub;
        if s == 0 {
            compose(p, Decomposed { negative: da.negative, biased_exponent: 0, stored_mantissa: 0 })
        } else {
            round_pack(p, da.negative, s, e)
        }
    } else if ua > ub {
        round_pack(p, da.negative, ua - ub, e)
    } else if ub > ua {
        round_pack(p, db.negative, ub - ua, e)
    } else {
        compose(p, Decomposed { negative: false, biased_exponent: 0, stored_mantissa: 0 })
    }
}

/// IEEE-754 addition of two raw patterns of the format.
pub fn fadd(p: WidthPolicy, a: u64, b: u64) -> (r: u64)
    requires
        p.wf(),
        p.fits(a),
        p.fits(b),
    ensures
        r == add_spec(p, a, b),
        p.fits(r),
{
    let da = decompose(p, a);
    let db = decompose(p, b);
    let (a_nan, a_inf) = classify_raw(p, da);
    let (b_nan, b_inf) = classify_raw(p, db);
    if a_nan {
        a
    } else if b_nan {
        b
    } else if a_inf && b_inf {
        if da.negative == db.negative {
            a
        } else {
            nan_of(p)
        }
    } else if a_inf {
        a
    } else if b_inf {
        b
    } else {
        add_finite_exec(p, a, b, da, db)
    }
}

/// IEEE-754 subtraction: addition of `b` with its sign bit flipped.
pub fn fsub(p: WidthPolicy, a: u64, b: u64) -> (r: u64)
    requires
        p.wf(),
        p.fits(a),
        p.fits(b),
    ensures
        r == add_spec(p, a, b ^ p.sign_mask_spec()),
        p.fits(r),
{
    proof {
        crate::laws::lemma_flip_sign(p, b);
    }
    fadd(p, a, b ^ p.sign_mask())
}

proof fn lemma_lt_mul(a: nat, b: nat, x: nat, y: nat)
    requires
        a < x,
        b < y,
    ensures
        a * b < x * y,
{
    assert(a * b < x * y) by (nonlinear_arith)
        requires
            a < x,
            b < y,
    ;
}

proof fn lemma_product_bound(p: WidthPolicy, ma: nat, mb: nat)
    requires
        p.wf(),
        ma < pow2(p.prec()),
        mb < pow2(p.prec()),
    ensures
        ma * mb < pow2(120),
        pow2(120) <= u128::MAX,
{
    lemma_policy_pow2(p);
    if p.prec() < 53 {
        lemma_pow2_strictly_increases(p.prec(), 53);
    }
    lemma_lt_mul(ma, mb, pow2(53), pow2(53));
    lemma_pow2_adds(53, 53);
    lemma_pow2_strictly_increases(106, 120);
    lemma_pow2_strictly_increases(120, 128);
    crate::rounding::lemma_pow2_128();
}

proof fn lemma_quotient_bound(p: WidthPolicy, na: nat, nb: nat)
    requires
        p.wf(),
        0 < na < pow2(p.prec()),
        0 < nb,
    ensures
        na * pow2((p.mantissa_bits + 3) as nat) < pow2(109) < pow2(120),
        2 * ((na * pow2((p.mantissa_bits + 3) as nat)) / nb) + 1 < pow2(120),
        pow2(120) <= u128::MAX,
{
    let extra = (p.mantissa_bits + 3) as nat;
    lemma_policy_pow2(p);
    if p.prec() < 53 {
        lemma_pow2_strictly_increases(p.prec(), 53);
    }
    if extra < 56 {
        lemma_pow2_strictly_increases(extra, 56);
    }
    lemma_pow2_adds(53, 56);
    assert(na < pow2(53));
    lemma_pow2_pos(extra);
    lemma_lt_mul(na, pow2(extra), pow2(53), pow2(56));
    let num = na * pow2(extra);
    vstd::arithmetic::div_mod::lemma_div_is_ordered_by_denominator(num as int, 1, nb as int);
    lemma_pow2_unfold(110);
    lemma_pow2_strictly_increases(109, 120);
    lemma_pow2_strictly_increases(110, 120);
    lemma_pow2_strictly_increases(120, 128);
    crate::rounding::lemma_pow2_128();
}

/// IEEE-754 multiplication of two raw patterns of the format.
pub fn fmul(p: WidthPolicy, a: u64, b: u64) -> (r: u64)
    requires
        p.wf(),
        p.fits(a),
        p.fits(b),
    ensures
        r == mul_spec(p, a, b),
        p.fits(r),
{
    let da = decompose(p, a);
    let db = decompose(p, b);
    let (a_nan, a_inf) = classify_raw(p, da);
    let (b_nan, b_inf) = classify_raw(p, db);
    let neg = da.negative != db.negative;
    if a_nan {
        a
    } else if b_nan {
        b
    } else if a_inf || b_inf {
        let a_zero = da.biased_exponent == 0 && da.stored_mantissa == 0;
        let b_zero = db.biased_exponent == 0 && db.stored_mantissa == 0;
        if a_zero || b_zero {
            nan_of(p)
        } else {
            compose(p, Decomposed { negative: neg, biased_exponent: p.max_biased_exponent(), stored_mantissa: 0 })
        }
    } else {
        let (ma, ea) = unpack(p, da, Ghost(a));
        let (mb, eb) = unpack(p, db, Ghost(b));
        proof {
            lemma_product_bound(p, ma as nat, mb as nat);
        }
        round_pack(p, neg, ma * mb, ea + eb)
    }
}

/// Shifts a nonzero significand up until its leading bit is the implicit bit.
fn normalize(p: WidthPolicy, m: u128) -> (res: (u128, u32))
    requires
        p.wf(),
        0 < m < pow2(p.prec()),
    ensures
        res.1 == norm_shift(p, m as nat),
        res.0 == m * pow2(res.1 as nat),
        res.1 < p.prec(),
        pow2(p.mantissa_bits as nat) <= res.0 < pow2(p.prec()),
{
    proof {
        lemma_policy_pow2(p);
        lemma_bit_len_le(m as nat, p.prec());
        lemma_bit_len_bounds(m as nat);
    }
    let l = bit_length(m);
    let k = p.mantissa_bits + 1 - l;
    proof {
        lemma_pow2_pos(k as nat);
        lemma_pow2_adds((l - 1) as nat, k as nat);
        lemma_pow2_adds(l as nat, k as nat);
        lemma_mul_inequality(pow2((l - 1) as nat) as int, m as int, pow2(k as nat) as int);
        lemma_mul_strict_inequality(m as int, pow2(l as nat) as int, pow2(k as nat) as int);
        lemma_pow2_strictly_increases(p.prec(), 120);
        crate::rounding::lemma_pow2_128();
        lemma_pow2_strictly_increases(120, 128);
    }
    (m * pow2_u128(k), k)
}

/// IEEE-754 division of two raw patterns of the format.
pub fn fdiv(p: WidthPolicy, a: u64, b: u64) -> (r: u64)
    requires
        p.wf(),
        p.fits(a),
        p.fits(b),
    ensures
        r == div_spec(p, a, b),
        p.fits(r),
{
    let da = decompose(p, a);
    let db = decompose(p, b);
    let (a_nan, a_inf) = classify_raw(p, da);
    let (b_nan, b_inf) = classify_raw(p, db);
    let neg = da.negative != db.negative;
    let a_zero = da.biased_exponent == 0 && da.stored_mantissa == 0;
    let b_zero = db.biased_exponent == 0 && db.stored_mantissa == 0;
    let inf = Decomposed { negative: neg, biased_exponent: p.max_biased_exponent(), stored_mantissa: 0 };
    let zero = Decomposed { negative: neg, biased_exponent: 0, stored_mantissa: 0 };
    if a_nan {
        a
    } else if b_nan {
        b
    } else if a_inf {
        if b_inf {
            nan_of(p)
        } else {
            compose(p, inf)
        }
    } else if b_inf {
        compose(p, zero)
    } else if a_zero {
        if b_zero {
            nan_of(p)
        } else {
            compose(p, zero)
        }
    } else if b_zero {
        compose(p, inf)
    } else {
        let (ma, ea) = unpack(p, da, Ghost(a));
        let (mb, eb) = unpack(p, db, Ghost(b));
        let (na, ka) = normalize(p, ma);
        let (nb, kb) = normalize(p, mb);
        let extra = p.mantissa_bits + 3;
        proof {
            lemma_pow2_pos(p.mantissa_bits as nat);
            lemma_quotient_bound(p, na as nat, nb as nat);
        }
        let num = na * pow2_u128(extra);
        let q = num / nb;
        let sticky: u128 = if num % nb != 0 { 1 } else { 0 };
        let e = (ea - ka as i64) - (eb - kb as i64) - extra as i64 - 1;
        round_pack(p, neg, 2 * q + sticky, e)
    }
}

} // verus!
