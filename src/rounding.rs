use vstd::prelude::*;
use vstd::arithmetic::power2::*;
use vstd::arithmetic::div_mod::*;
use vstd::arithmetic::mul::*;

verus! {

/// `m / 2^n` rounded to nearest, ties to even: the guard bit is the most
/// significant bit shifted out, the sticky part all the ones below it.
pub open spec fn rne(m: nat, n: nat) -> nat {
    if n == 0 {
        m
    } else {
        let q = m / pow2(n);
        let r = m % pow2(n);
        let half = pow2((n - 1) as nat);
        if r > half {
            q + 1
        } else if r == half {
            q + q % 2
        } else {
            q
        }
    }
}

/// Number of significant bits of `m`.
pub open spec fn bit_len(m: nat) -> nat
    decreases m,
{
    if m == 0 {
        0
    } else {
        1 + bit_len(m / 2)
    }
}

pub proof fn lemma_pow2_128()
    ensures
        pow2(64) == 0x1_0000_0000_0000_0000,
        pow2(128) == 0x1_0000_0000_0000_0000 * 0x1_0000_0000_0000_0000,
{
    lemma2_to64();
    lemma_pow2_adds(64, 64);
}

/// `2^(l-1) <= m < 2^l` where `l` is the bit length of a nonzero `m`.
pub proof fn lemma_bit_len_bounds(m: nat)
    requires
        m > 0,
    ensures
        bit_len(m) >= 1,
        pow2((bit_len(m) - 1) as nat) <= m < pow2(bit_len(m)),
    decreases m,
{
    lemma2_to64();
    assert(bit_len(m) == 1 + bit_len(m / 2));
    if m == 1 {
        assert(bit_len(0) == 0);
    } else {
        lemma_bit_len_bounds(m / 2);
        let l = bit_len(m / 2);
        lemma_pow2_unfold(l);
        lemma_pow2_unfold(l + 1);
        assert(pow2((l - 1) as nat) <= m / 2 < pow2(l));
        assert(m == 2 * (m / 2) + m % 2);
    }
}

/// A value in `[2^(l-1), 2^l)` has bit length `l`.
pub proof fn lemma_bit_len_exact(m: nat, l: nat)
    requires
        l >= 1,
        pow2((l - 1) as nat) <= m < pow2(l),
    ensures
        bit_len(m) == l,
{
    lemma_pow2_pos((l - 1) as nat);
    lemma_bit_len_bounds(m);
    let k = bit_len(m);
    if k > l {
        lemma_pow2_strictly_increases(l, (k - 1) as nat);
    } else if k < l {
        if k < (l - 1) as nat {
            lemma_pow2_strictly_increases(k, (l - 1) as nat);
        }
    }
}

/// A value below `2^k` has at most `k` bits.
pub proof fn lemma_bit_len_le(m: nat, k: nat)
    requires
        m < pow2(k),
    ensures
        bit_len(m) <= k,
{
    if m > 0 {
        lemma_bit_len_bounds(m);
        if bit_len(m) > k {
            if (bit_len(m) - 1) as nat > k {
                lemma_pow2_strictly_increases(k, (bit_len(m) - 1) as nat);
            }
        }
    }
}

/// A result that is rounded from below `2^(n+k)` is at most `2^k`.
pub proof fn lemma_rne_bound(m: nat, n: nat, k: nat)
    requires
        m < pow2(n + k),
    ensures
        rne(m, n) <= pow2(k),
{
    if n > 0 {
        lemma_pow2_adds(n, k);
        lemma_pow2_pos(n);
        lemma_multiply_divide_lt(m as int, pow2(n) as int, pow2(k) as int);
    }
}

/// Rounding a value below half the step gives zero.
pub proof fn lemma_rne_small(m: nat, n: nat)
    requires
        n >= 1,
        m < pow2((n - 1) as nat),
    ensures
        rne(m, n) == 0,
{
    lemma_pow2_unfold(n);
    lemma_basic_div(m as int, pow2(n) as int);
    lemma_small_mod(m, pow2(n));
}

/// Shifting out only zero bits is exact.
pub proof fn lemma_rne_exact(m: nat, k: nat)
    ensures
        rne(m * pow2(k), k) == m,
{
    lemma2_to64();
    if k == 0 {
        assert(m * pow2(0) == m);
    } else {
        lemma_pow2_pos(k);
        lemma_pow2_pos((k - 1) as nat);
        lemma_mod_multiples_basic(m as int, pow2(k) as int);
        lemma_div_multiples_vanish(m as int, pow2(k) as int);
        assert(pow2(k) * m == m * pow2(k)) by (nonlinear_arith);
        assert((m * pow2(k)) / pow2(k) == m);
        assert((m * pow2(k)) % pow2(k) == 0);
    }
}

pub open spec fn dist(x: int, y: int) -> int {
    if x >= y { x - y } else { y - x }
}

/// The rounded shift is a nearest multiple of the step: no integer `c`
/// puts `c * 2^n` closer to `m` than `rne(m, n) * 2^n`, and where two are
/// equally close the even one is taken.
pub proof fn lemma_rne_nearest(m: nat, n: nat, c: int)
    ensures
        dist(m as int, (rne(m, n) * pow2(n)) as int) <= dist(m as int, c * pow2(n)),
        2 * dist(m as int, (rne(m, n) * pow2(n)) as int) <= pow2(n),
        2 * dist(m as int, (rne(m, n) * pow2(n)) as int) == pow2(n) ==> rne(m, n) % 2 == 0,
{
    lemma2_to64();
    if n == 0 {
        assert(rne(m, n) * 1 == m);
        assert(dist(m as int, c * 1) >= 0);
    } else {
        let s = pow2(n) as int;
        let h = pow2((n - 1) as nat) as int;
        lemma_pow2_unfold(n);
        lemma_pow2_pos((n - 1) as nat);
        let q = (m / pow2(n)) as int;
        let r = (m % pow2(n)) as int;
        lemma_fundamental_div_mod(m as int, s);
        assert(m == q * s + r);
        assert(0 <= r < s);
        let k = rne(m, n) as int;
        assert(k == q || k == q + 1);
        assert(dist(m as int, k * s) <= dist(m as int, c * s) && 2 * dist(m as int, k * s) <= s)
            by (nonlinear_arith)
            requires
                m == q * s + r,
                0 <= r < s,
                s == 2 * h,
                h > 0,
                k == q || k == q + 1,
                r < h ==> k == q,
                r > h ==> k == q + 1,
                dist(m as int, k * s) == if m >= k * s { m - k * s } else { k * s - m },
                dist(m as int, c * s) == if m >= c * s { m - c * s } else { c * s - m },
        {
            if c <= q {
                assert(c * s <= q * s);
            } else {
                assert(c * s >= (q + 1) * s);
            }
        }
        if 2 * dist(m as int, k * s) == s {
            assert(r == h) by (nonlinear_arith)
                requires
                    m == q * s + r,
                    0 <= r < s,
                    s == 2 * h,
                    h > 0,
                    k == q || k == q + 1,
                    2 * (if m >= k * s { m - k * s } else { k * s - m }) == s,
            ;
        }
    }
}

/// `2^n`.
pub fn pow2_u128(n: u32) -> (r: u128)
    requires
        n <= 127,
    ensures
        r == pow2(n as nat),
{
    let mut r: u128 = 1;
    let mut i: u32 = 0;
    proof {
        lemma2_to64();
        lemma_pow2_128();
    }
    while i < n
        invariant
            i <= n <= 127,
            r == pow2(i as nat),
            pow2(128) == 0x1_0000_0000_0000_0000 * 0x1_0000_0000_0000_0000,
        decreases n - i,
    {
        proof {
            lemma_pow2_unfold((i + 1) as nat);
            lemma_pow2_strictly_increases((i + 1) as nat, 128);
        }
        r = r * 2;
        i = i + 1;
    }
    r
}

/// Number of significant bits of `m`.
pub fn bit_length(m: u128) -> (r: u32)
    ensures
        r == bit_len(m as nat),
        r <= 128,
{
    proof {
        lemma_pow2_128();
        lemma_bit_len_le(m as nat, 128);
    }
    let mut x = m;
    let mut c: u32 = 0;
    while x > 0
        invariant
            c + bit_len(x as nat) == bit_len(m as nat),
            bit_len(m as nat) <= 128,
        decreases x,
    {
        x = x / 2;
        c = c + 1;
    }
    c
}

/// Shifts `m` right by `n` bits, rounding to nearest, ties to even; the flag
/// tells whether no nonzero bit was shifted out. A carry into a new leading
/// bit is left for the caller to see.
pub fn round_shift(m: u128, n: u32) -> (res: (u128, bool))
    requires
        n <= 127,
    ensures
        res.0 == rne(m as nat, n as nat),
        res.1 == (m as nat % pow2(n as nat) == 0),
{
    if n == 0 {
        proof {
            lemma2_to64();
        }
        return (m, m % 1 == 0);
    }
    let pw = pow2_u128(n);
    proof {
        lemma_pow2_unfold(n as nat);
        lemma_pow2_pos(n as nat);
        lemma_div_is_ordered_by_denominator(m as int, 2, pw as int);
        lemma_div_plus_one(m as int, 2);
    }
    let q = m / pw;
    let r = m % pw;
    let half = pw / 2;
    let out = if r > half {
        q + 1
    } else if r == half {
        q + q % 2
    } else {
        q
    };
    (out, r == 0)
}

} // verus!
