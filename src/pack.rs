use vstd::prelude::*;
use vstd::arithmetic::power2::*;
use vstd::arithmetic::mul::*;
use vstd::arithmetic::div_mod::*;
use crate::policy::WidthPolicy;
use crate::bits::{Decomposed, compose, compose_spec, infinity, signed_zero};
use crate::rounding::{bit_len, bit_length, lemma_bit_len_bounds, lemma_bit_len_exact, lemma_bit_len_le, lemma_rne_bound, lemma_rne_small, pow2_u128, rne, round_shift};

verus! {

/// The format's encoding of `(-1)^negative * m * 2^e`, rounded to nearest,
/// ties to even: the last kept bit sits at exponent `t`, which leaves
/// `mantissa_bits + 1` significant bits but never goes below the subnormal
/// step; a carry into a new leading bit raises the exponent, and a biased
/// exponent past the largest normal one gives Infinity.
pub open spec fn pack_rounded(p: WidthPolicy, negative: bool, m: nat, e: int) -> u64 {
    if m == 0 {
        signed_zero(p, negative)
    } else {
        let l = bit_len(m) as int;
        let t0 = e + l - p.prec();
        let t = if t0 > p.emin() { t0 } else { p.emin() };
        let q: nat = if t <= e { m * pow2((e - t) as nat) } else { rne(m, (t - e) as nat) };
        let carry = q == pow2(p.prec());
        let q2: nat = if carry { pow2(p.mantissa_bits as nat) } else { q };
        let t2 = if carry { t + 1 } else { t };
        let be: int = if q2 < pow2(p.mantissa_bits as nat) { 0 } else { t2 + p.bias_spec() + p.mantissa_bits };
        if be >= p.max_exp_spec() {
            infinity(p, negative)
        } else {
            compose_spec(p, negative, be as u64, q2 as u64)
        }
    }
}

/// The format's constants as powers of two.
pub proof fn lemma_policy_pow2(p: WidthPolicy)
    requires
        p.wf(),
    ensures
        p.implicit_spec() == pow2(p.mantissa_bits as nat),
        2 * p.implicit_spec() == pow2(p.prec()),
        p.prec() <= 53,
{
    lemma2_to64();
    lemma2_to64_rest();
}

/// `m == q * 2^n + r` with `r` below `2^n` splits `m` at bit `n`.
proof fn lemma_split(m: nat, n: nat, q: nat, r: nat)
    requires
        m == q * pow2(n) + r,
        r < pow2(n),
    ensures
        m / pow2(n) == q,
        m % pow2(n) == r,
{
    lemma_pow2_pos(n);
    lemma_fundamental_div_mod_converse(m as int, pow2(n) as int, q as int, r as int);
}

/// A sum or difference whose smaller term lies more than the precision plus
/// two bits below the last bit of the larger term rounds to the larger term.
pub proof fn lemma_pack_dominant(
    p: WidthPolicy,
    negative: bool,
    sa: nat,
    be: int,
    d: nat,
    b: nat,
    same: bool,
)
    requires
        p.wf(),
        pow2(p.mantissa_bits as nat) <= sa < pow2(p.prec()),
        1 <= be < p.max_exp_spec(),
        d >= p.prec() + 2,
        b < pow2(p.prec()),
        be - p.bias_spec() - p.mantissa_bits - d >= p.emin(),
    ensures
        pack_rounded(
            p,
            negative,
            if same { sa * pow2(d) + b } else { (sa * pow2(d) - b) as nat },
            be - p.bias_spec() - p.mantissa_bits - d,
        ) == compose_spec(p, negative, be as u64, sa as u64),
{
    lemma_policy_pow2(p);
    let mb = p.mantissa_bits as nat;
    let prec = p.prec();
    let ea = be - p.bias_spec() - p.mantissa_bits;
    let e = ea - d;
    let pd = pow2(d);
    let h = pow2((d - 1) as nat);
    let hh = pow2((d - 2) as nat);
    lemma_pow2_unfold(d);
    lemma_pow2_unfold((d - 1) as nat);
    lemma_pow2_pos((d - 2) as nat);
    lemma_pow2_unfold(prec);
    if prec < (d - 2) as nat {
        lemma_pow2_strictly_increases(prec, (d - 2) as nat);
    }
    assert(b < hh);
    lemma_pow2_adds(mb, d);
    lemma_pow2_adds(prec, d);
    lemma_pow2_adds(prec, (d - 1) as nat);
    assert(prec + d - 1 == mb + d);
    let m: nat = if same { sa * pd + b } else { (sa * pd - b) as nat };
    assert(sa * pd >= pow2(mb) * pd) by (nonlinear_arith)
        requires
            sa >= pow2(mb),
    ;
    assert(pow2(mb) * pd >= pd) by (nonlinear_arith)
        requires
            pow2(mb) >= 1,
    ;
    if same || b == 0 {
        assert(m == sa * pd + b);
        assert(sa * pd + b < pow2(prec) * pd) by (nonlinear_arith)
            requires
                sa < pow2(prec),
                b < pd,
        ;
        lemma_bit_len_exact(m, prec + d);
        lemma_split(m, d, sa, b);
        assert(rne(m, d) == sa);
        assert(pack_rounded(p, negative, m, e) == compose_spec(p, negative, be as u64, sa as u64));
    } else if sa > pow2(mb) {
        let r = (pd - b) as nat;
        assert(m == (sa - 1) * pd + r) by (nonlinear_arith)
            requires
                m == sa * pd - b,
                r == pd - b,
                sa >= 1,
        ;
        assert((sa - 1) * pd >= pow2(mb) * pd) by (nonlinear_arith)
            requires
                sa - 1 >= pow2(mb),
        ;
        assert(sa * pd < pow2(prec) * pd) by (nonlinear_arith)
            requires
                sa < pow2(prec),
                pd > 0,
        ;
        lemma_bit_len_exact(m, prec + d);
        lemma_split(m, d, (sa - 1) as nat, r);
        assert(rne(m, d) == sa);
        assert(pack_rounded(p, negative, m, e) == compose_spec(p, negative, be as u64, sa as u64));
    } else {
        let r = (h - b) as nat;
        let q = (pow2(prec) - 1) as nat;
        assert(m == q * h + r) by (nonlinear_arith)
            requires
                m == sa * pd - b,
                sa == pow2(mb),
                pd == 2 * h,
                q == pow2(prec) - 1,
                pow2(prec) == 2 * pow2(mb),
                r == h - b,
        ;
        assert(pow2(prec) * hh <= pow2(mb) * pd - b) by (nonlinear_arith)
            requires
                pd == 2 * h,
                h == 2 * hh,
                pow2(prec) == 2 * pow2(mb),
                b < hh,
                pow2(mb) >= 1,
        ;
        lemma_pow2_adds(prec, (d - 2) as nat);
        assert(prec + (d - 2) == mb + d - 1);
        lemma_bit_len_exact(m, mb + d);
        lemma_split(m, (d - 1) as nat, q, r);
        assert(rne(m, (d - 1) as nat) == pow2(prec));
        assert(pack_rounded(p, negative, m, e) == compose_spec(p, negative, be as u64, sa as u64));
    }
}

/// Rounds `(-1)^negative * m * 2^e` to the format and packs it.
pub fn round_pack(p: WidthPolicy, negative: bool, m: u128, e: i64) -> (r: u64)
    requires
        p.wf(),
        m < pow2(120),
        -8192 <= e <= 8192,
    ensures
        r == pack_rounded(p, negative, m as nat, e as int),
        p.fits(r),
{
    if m == 0 {
        return compose(p, Decomposed { negative, biased_exponent: 0, stored_mantissa: 0 });
    }
    let l = bit_length(m);
    proof {
        lemma_bit_len_le(m as nat, 120);
        lemma_bit_len_bounds(m as nat);
        lemma_policy_pow2(p);
    }
    let prec: i64 = p.mantissa_bits as i64 + 1;
    let emin: i64 = 1 - p.bias() - p.mantissa_bits as i64;
    let t0 = e + l as i64 - prec;
    let t = if t0 > emin { t0 } else { emin };
    let q: u128 = if t <= e {
        let k = (e - t) as u32;
        proof {
            lemma_pow2_pos(k as nat);
            lemma_mul_strict_inequality(m as int, pow2(l as nat) as int, pow2(k as nat) as int);
            lemma_pow2_adds(l as nat, k as nat);
            if l + k < prec {
                lemma_pow2_strictly_increases((l + k) as nat, p.prec());
            }
        }
        m * pow2_u128(k)
    } else if t - e > 127 {
        proof {
            if l < 120 {
                lemma_pow2_strictly_increases(l as nat, 120);
            }
            lemma_pow2_strictly_increases(120, (t - e - 1) as nat);
            lemma_rne_small(m as nat, (t - e) as nat);
        }
        0
    } else {
        let n = (t - e) as u32;
        proof {
            if l < n + prec {
                lemma_pow2_strictly_increases(l as nat, (n + prec) as nat);
            }
            lemma_rne_bound(m as nat, n as nat, p.prec());
        }
        round_shift(m, n).0
    };
    let implicit = p.implicit_bit() as u128;
    let carry = q == 2 * implicit;
    let q2: u128 = if carry { implicit } else { q };
    let t2: i64 = if carry { t + 1 } else { t };
    let be: i64 = if q2 < implicit { 0 } else { t2 + p.bias() + p.mantissa_bits as i64 };
    if be >= p.max_biased_exponent() as i64 {
        compose(p, Decomposed { negative, biased_exponent: p.max_biased_exponent(), stored_mantissa: 0 })
    } else {
        compose(p, Decomposed { negative, biased_exponent: be as u64, stored_mantissa: q2 as u64 })
    }
}

} // verus!
