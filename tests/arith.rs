use floating_pointless::sf32::{ieee_rounding_shift, sf32, SIGN_MASK_32};
use floating_pointless::sf64::sf64;
use floating_pointless::bits::{classify, decompose, Kind};
use floating_pointless::policy::WidthPolicy;

fn f(x: f32) -> sf32 {
    sf32::from_bits(x.to_bits())
}

fn g(x: f64) -> sf64 {
    sf64::from_bits(x.to_bits())
}

fn kind32(x: sf32) -> Kind {
    let p = WidthPolicy::binary32();
    classify(p, decompose(p, x.to_bits() as u64))
}

fn kind64(x: sf64) -> Kind {
    let p = WidthPolicy::binary64();
    classify(p, decompose(p, x.to_bits()))
}

fn samples32() -> Vec<f32> {
    let mut v = vec![
        0.0, -0.0, 1.0, -1.0, 2.0, 3.0, 0.5, 0.1, -0.1, 1.5, 1e-3, 7.25, -13.75, 1e10, -3e12,
        1e-40, -1e-40, 1.2e-38, -1.17549435e-38, 3.4e38, -3.4e38, f32::MAX, f32::MIN_POSITIVE,
        1.4e-45, 16777216.0, 16777217.0, 0.333333, 123456.789, 1.0000001, 0.99999994,
        f32::INFINITY, f32::NEG_INFINITY,
    ];
    let mut x: u32 = 0x1234_5678;
    for _ in 0..40 {
        x = x.wrapping_mul(1_664_525).wrapping_add(1_013_904_223);
        let y = f32::from_bits(x);
        if !y.is_nan() {
            v.push(y);
        }
    }
    v
}

fn samples64() -> Vec<f64> {
    let mut v = vec![
        0.0, -0.0, 1.0, -1.0, 2.0, 3.0, 0.5, 0.1, -0.1, 1.5, 1e-3, 7.25, -13.75, 1e100, -3e200,
        1e-310, -5e-324, 2.2250738585072014e-308, 1.7e308, -1.7e308, f64::MAX, f64::MIN_POSITIVE,
        9007199254740992.0, 9007199254740993.0, 0.3333333333333333, 1.0000000000000002,
        f64::INFINITY, f64::NEG_INFINITY,
    ];
    let mut x: u64 = 0x1234_5678_9abc_def0;
    for _ in 0..40 {
        x = x.wrapping_mul(6_364_136_223_846_793_005).wrapping_add(1_442_695_040_888_963_407);
        let y = f64::from_bits(x);
        if !y.is_nan() {
            v.push(y);
        }
    }
    v
}

fn same32(got: sf32, want: f32) -> bool {
    if want.is_nan() {
        kind32(got) == Kind::NaN
    } else {
        got.to_bits() == want.to_bits()
    }
}

fn same64(got: sf64, want: f64) -> bool {
    if want.is_nan() {
        kind64(got) == Kind::NaN
    } else {
        got.to_bits() == want.to_bits()
    }
}

#[test]
fn it_works() {
}

#[test]
fn single_precision_add() {
    let r = f(1.0).add(f(2.0));
    assert_eq!(r.to_bits(), 0x4040_0000);
    assert_eq!(r.to_bits(), (1.0f32 + 2.0f32).to_bits());
}

#[test]
fn rounding_tie_to_even() {
    // 1 + 2^-24 lies halfway between 1 and its successor: stays at the even 1.
    let half_ulp = f32::from_bits(0x3380_0000);
    assert_eq!(f(1.0).add(f(half_ulp)).to_bits(), 0x3f80_0000);
    // (1 + 2^-23) + 2^-24 is halfway again: goes up to the even 1 + 2^-22.
    let odd = f32::from_bits(0x3f80_0001);
    assert_eq!(f(odd).add(f(half_ulp)).to_bits(), 0x3f80_0002);
}

#[test]
fn subtract_via_sign_flip() {
    for &a in samples32().iter() {
        for &b in samples32().iter() {
            let flipped = f(b).bitxor(sf32::from_bits(SIGN_MASK_32));
            assert_eq!(f(a).sub(f(b)).to_bits(), f(a).add(flipped).to_bits());
        }
    }
    assert_eq!(f(1.0).sub(f(2.0)).to_bits(), (-1.0f32).to_bits());
}

#[test]
fn overflow_to_infinity() {
    assert_eq!(f(f32::MAX).mul(f(2.0)).to_bits(), 0x7f80_0000);
    assert_eq!(f(-f32::MAX).mul(f(2.0)).to_bits(), 0xff80_0000);
    assert_eq!(f(3e38).mul(f(-3e38)).to_bits(), 0xff80_0000);
    assert_eq!(g(1e300).mul(g(1e300)).to_bits(), f64::INFINITY.to_bits());
}

#[test]
fn division_by_zero() {
    assert_eq!(f(1.0).div(sf32::from_bits(0)).to_bits(), 0x7f80_0000);
    assert_eq!(f(-1.0).div(sf32::from_bits(0)).to_bits(), 0xff80_0000);
    assert_eq!(f(1.0).div(sf32::from_bits(0x8000_0000)).to_bits(), 0xff80_0000);
    // zero over zero is invalid
    assert_eq!(kind32(sf32::from_bits(0x8000_0000).div(sf32::from_bits(0))), Kind::NaN);
}

#[test]
fn rounding_shift_values() {
    assert_eq!(ieee_rounding_shift(0b1011, 1), 0b110);
    assert_eq!(ieee_rounding_shift(0b1010, 1), 0b101);
    assert_eq!(ieee_rounding_shift(0b1001, 2), 0b10);
    assert_eq!(ieee_rounding_shift(0b1011, 2), 0b11);
    assert_eq!(ieee_rounding_shift(0b0110, 2), 0b10);
    assert_eq!(ieee_rounding_shift(0b1010, 2), 0b10);
    assert_eq!(ieee_rounding_shift(12345, 0), 12345);
    assert_eq!(ieee_rounding_shift(0xffff_ffff, 24), 256);
}

#[test]
fn rounding_shift_exhaustive_small() {
    for m in 0u32..1024 {
        for n in 0i16..=12 {
            let q = m >> n;
            let r = m - (q << n);
            let half = if n == 0 { 0 } else { 1u32 << (n - 1) };
            let want = if n == 0 || r < half { q } else if r > half { q + 1 } else { q + (q & 1) };
            assert_eq!(ieee_rounding_shift(m, n), want);
        }
    }
}

#[test]
fn matches_native_binary32() {
    let v = samples32();
    for &a in v.iter() {
        for &b in v.iter() {
            assert!(same32(f(a).add(f(b)), a + b), "{:e} + {:e}", a, b);
            assert!(same32(f(a).sub(f(b)), a - b), "{:e} - {:e}", a, b);
            assert!(same32(f(a).mul(f(b)), a * b), "{:e} * {:e}", a, b);
            assert!(same32(f(a).div(f(b)), a / b), "{:e} / {:e}", a, b);
        }
    }
}

#[test]
fn matches_native_binary64() {
    let v = samples64();
    for &a in v.iter() {
        for &b in v.iter() {
            assert!(same64(g(a).add(g(b)), a + b), "{:e} + {:e}", a, b);
            assert!(same64(g(a).sub(g(b)), a - b), "{:e} - {:e}", a, b);
            assert!(same64(g(a).mul(g(b)), a * b), "{:e} * {:e}", a, b);
            assert!(same64(g(a).div(g(b)), a / b), "{:e} / {:e}", a, b);
        }
    }
}

#[test]
fn commutative_on_finite_values() {
    let v = samples32();
    for &a in v.iter() {
        for &b in v.iter() {
            if a.is_finite() && b.is_finite() {
                assert_eq!(f(a).add(f(b)).to_bits(), f(b).add(f(a)).to_bits());
                assert_eq!(f(a).mul(f(b)).to_bits(), f(b).mul(f(a)).to_bits());
            }
        }
    }
}

#[test]
fn positive_zero_is_additive_identity() {
    for &a in samples32().iter() {
        if a.is_finite() && a.to_bits() != 0x8000_0000 {
            assert_eq!(f(a).add(sf32::from_bits(0)).to_bits(), a.to_bits());
        }
    }
    assert_eq!(f(-0.0).add(sf32::from_bits(0)).to_bits(), 0);
    for &a in samples64().iter() {
        if a.is_finite() && a.to_bits() != 0x8000_0000_0000_0000 {
            assert_eq!(g(a).add(sf64::from_bits(0)).to_bits(), a.to_bits());
        }
    }
}

#[test]
fn value_minus_itself_is_positive_zero() {
    for &a in samples32().iter() {
        if a.is_finite() {
            assert_eq!(f(a).add(f(-a)).to_bits(), 0);
            assert_eq!(f(a).sub(f(a)).to_bits(), 0);
        }
    }
}

#[test]
fn nan_propagates() {
    let nan = sf32::from_bits(0x7fc0_1234);
    for &a in samples32().iter() {
        assert_eq!(kind32(nan.add(f(a))), Kind::NaN);
        assert_eq!(kind32(f(a).sub(nan)), Kind::NaN);
        assert_eq!(kind32(f(a).mul(nan)), Kind::NaN);
        assert_eq!(kind32(nan.div(f(a))), Kind::NaN);
    }
    // the left NaN's payload wins
    let other = sf32::from_bits(0xffc0_0001);
    assert_eq!(nan.add(other).to_bits(), 0x7fc0_1234);
    assert_eq!(other.add(nan).to_bits(), 0xffc0_0001);
}

#[test]
fn special_values() {
    let inf = f(f32::INFINITY);
    let ninf = f(f32::NEG_INFINITY);
    assert_eq!(inf.add(ninf).to_bits(), 0x7fc0_0000);
    assert_eq!(inf.add(inf).to_bits(), inf.to_bits());
    assert_eq!(inf.add(f(-5.0)).to_bits(), inf.to_bits());
    assert_eq!(inf.mul(sf32::from_bits(0)).to_bits(), 0x7fc0_0000);
    assert_eq!(ninf.mul(f(-2.0)).to_bits(), inf.to_bits());
    assert_eq!(inf.div(inf).to_bits(), 0x7fc0_0000);
    assert_eq!(f(3.0).div(ninf).to_bits(), 0x8000_0000);
    assert_eq!(sf32::from_bits(0).div(f(-3.0)).to_bits(), 0x8000_0000);
    assert_eq!(f(-0.0).mul(f(5.0)).to_bits(), 0x8000_0000);
    assert_eq!(f(-0.0).add(f(-0.0)).to_bits(), 0x8000_0000);
    assert_eq!(g(f64::INFINITY).add(g(f64::NEG_INFINITY)).to_bits(), 0x7ff8_0000_0000_0000);
}

#[test]
fn subnormal_results() {
    let tiny = f32::from_bits(1);
    assert_eq!(f(tiny).add(f(tiny)).to_bits(), 2);
    assert_eq!(f(f32::MIN_POSITIVE).mul(f(0.5)).to_bits(), (f32::MIN_POSITIVE * 0.5).to_bits());
    assert_eq!(f(tiny).mul(f(0.5)).to_bits(), 0);
    assert_eq!(f(tiny).mul(f(0.75)).to_bits(), 1);
    assert_eq!(f(tiny).div(f(2.0)).to_bits(), 0);
}

#[test]
fn fields_and_parts() {
    let x = f(-6.5);
    assert_eq!(x.sign(), -1);
    assert_eq!(x.exponent(), 2);
    assert_eq!(x.mantissa(), 0xd0_0000);
    assert_eq!(x.parts(), (0xd0_0000, 2, -1));
    assert_eq!(sf32::from_parts(0xd0_0000, 2, -1).to_bits(), x.to_bits());
    let sub = sf32::from_bits(0x0000_0003);
    assert_eq!(sub.mantissa(), 3);
    assert_eq!(sub.exponent(), -127);
    assert_eq!(f(1.0).sign(), 1);
    let y = g(-6.5);
    assert_eq!(y.sign(), -1);
    assert_eq!(y.mantissa(), 0x1a_0000_0000_0000);
    assert_eq!(y.exponent(), 2);
    assert_eq!(sf64::from_parts(0x1a_0000_0000_0000, 2, -1).to_bits(), y.to_bits());
    assert_eq!(f(3.0).bitand(f(-1.0)).to_bits(), 0x3f80_0000 & 0x4040_0000);
}

#[test]
fn classification() {
    assert_eq!(kind32(sf32::from_bits(0)), Kind::Zero);
    assert_eq!(kind32(sf32::from_bits(0x8000_0001)), Kind::Subnormal);
    assert_eq!(kind32(f(1.0)), Kind::Normal);
    assert_eq!(kind32(f(f32::NEG_INFINITY)), Kind::Infinity);
    assert_eq!(kind32(sf32::from_bits(0x7f80_0001)), Kind::NaN);
    assert_eq!(kind64(g(f64::NAN)), Kind::NaN);
    assert_eq!(kind64(g(5e-324)), Kind::Subnormal);
}
