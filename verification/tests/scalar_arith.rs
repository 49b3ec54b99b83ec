use raytracer::scalar::Scalar;

struct Gen(u64);

impl Gen {
    fn next(&mut self) -> u64 {
        let mut x = self.0;
        x ^= x << 13;
        x ^= x >> 7;
        x ^= x << 17;
        self.0 = x;
        x.wrapping_mul(0x2545_f491_4f6c_dd1d)
    }

    /// A pattern whose exponent field lies within `spread` of `center`.
    fn near(&mut self, center: u64, spread: u64) -> u64 {
        let r = self.next();
        let frac = r & 0x000f_ffff_ffff_ffff;
        let sign = r & 0x8000_0000_0000_0000;
        let delta = (self.next() % (2 * spread + 1)) as i64 - spread as i64;
        let e = (center as i64 + delta).clamp(0, 2047) as u64;
        sign | (e << 52) | frac
    }
}

fn same(got: u64, want: f64) -> bool {
    if want.is_nan() {
        f64::from_bits(got).is_nan()
    } else {
        got == want.to_bits()
    }
}

fn pairs(seed: u64, n: usize) -> Vec<(u64, u64)> {
    let mut g = Gen(seed);
    let mut v = Vec::new();
    let special = [
        0u64,
        0x8000_0000_0000_0000,
        1,
        0x8000_0000_0000_0001,
        0x000f_ffff_ffff_ffff,
        0x0010_0000_0000_0000,
        0x0010_0000_0000_0001,
        0x3ff0_0000_0000_0000,
        0xbff0_0000_0000_0000,
        0x3ff0_0000_0000_0001,
        0x3fef_ffff_ffff_ffff,
        0x4000_0000_0000_0000,
        0x7fef_ffff_ffff_ffff,
        0xffef_ffff_ffff_ffff,
        0x7fe0_0000_0000_0000,
        0x7ff0_0000_0000_0000,
        0xfff0_0000_0000_0000,
        0x7ff8_0000_0000_0000,
        0x7ff0_0000_0000_0001,
        0x4340_0000_0000_0000,
        0x4330_0000_0000_0001,
    ];
    for a in special {
        for b in special {
            v.push((a, b));
        }
    }
    for i in 0..n {
        let a = match i % 4 {
            0 => g.next(),
            1 => g.near(1023, 40),
            2 => g.near(2, 3),
            _ => g.near(2040, 8),
        };
        let center = (a >> 52) & 0x7ff;
        let b = match (i / 4) % 4 {
            0 => g.next(),
            1 => g.near(center, 2),
            2 => g.near(center, 70),
            _ => g.near(1023, 1100),
        };
        v.push((a, b));
        v.push((a, a ^ 0x8000_0000_0000_0000));
        v.push((a, a.wrapping_add(1)));
    }
    v
}

#[test]
fn add_matches_hardware() {
    for (a, b) in pairs(0x1234_5678_9abc_def1, 60_000) {
        let got = Scalar::from_bits(a).add(Scalar::from_bits(b)).to_bits();
        let want = f64::from_bits(a) + f64::from_bits(b);
        assert!(same(got, want), "{:#x} + {:#x}: got {:#x}, want {:#x}", a, b, got, want.to_bits());
    }
}

#[test]
fn sub_matches_hardware() {
    for (a, b) in pairs(0x0fed_cba9_8765_4321, 60_000) {
        let got = Scalar::from_bits(a).sub(Scalar::from_bits(b)).to_bits();
        let want = f64::from_bits(a) - f64::from_bits(b);
        assert!(same(got, want), "{:#x} - {:#x}: got {:#x}, want {:#x}", a, b, got, want.to_bits());
    }
}

#[test]
fn mul_matches_hardware() {
    for (a, b) in pairs(0x1111_2222_3333_4444, 60_000) {
        let got = Scalar::from_bits(a).mul(Scalar::from_bits(b)).to_bits();
        let want = f64::from_bits(a) * f64::from_bits(b);
        assert!(same(got, want), "{:#x} * {:#x}: got {:#x}, want {:#x}", a, b, got, want.to_bits());
    }
}

#[test]
fn div_matches_hardware() {
    for (a, b) in pairs(0x5555_6666_7777_8888, 60_000) {
        let got = Scalar::from_bits(a).div(Scalar::from_bits(b)).to_bits();
        let want = f64::from_bits(a) / f64::from_bits(b);
        assert!(same(got, want), "{:#x} / {:#x}: got {:#x}, want {:#x}", a, b, got, want.to_bits());
    }
}

#[test]
fn comparisons_match_hardware() {
    for (a, b) in pairs(0x9999_aaaa_bbbb_cccc, 60_000) {
        let (x, y) = (Scalar::from_bits(a), Scalar::from_bits(b));
        let (fx, fy) = (f64::from_bits(a), f64::from_bits(b));
        assert_eq!(x.lt(y), fx < fy);
        assert_eq!(x.le(y), fx <= fy);
        assert_eq!(x.gt(y), fx > fy);
        assert_eq!(x.ge(y), fx >= fy);
        assert_eq!(x == y, fx == fy);
        assert_eq!(x.neg().to_bits(), (-fx).to_bits());
        assert_eq!(x.abs().to_bits(), fx.abs().to_bits());
    }
}

#[test]
fn sqrt_matches_hardware() {
    for (a, b) in pairs(0x0123_4567_89ab_cdef, 60_000) {
        for x in [a, b] {
            let got = Scalar::from_bits(x).sqrt().to_bits();
            let want = f64::from_bits(x).sqrt();
            assert!(same(got, want), "sqrt {:#x}: got {:#x}, want {:#x}", x, got, want.to_bits());
        }
    }
    for k in 0..200_000u64 {
        let x = (k * k) as f64;
        assert_eq!(Scalar::from_bits(x.to_bits()).sqrt().to_bits(), (k as f64).to_bits());
    }
}

#[test]
fn whole_numbers_convert_exactly() {
    for n in 0..=255u8 {
        assert_eq!(Scalar::from_u8(n).to_bits(), (n as f64).to_bits());
    }
    let mut g = Gen(0x7777_1234_4321_7777);
    for i in 0..200_000 {
        let x = if i % 3 == 0 { g.next() >> (g.next() % 64) } else { g.next() };
        let want = (x >> 11) as f64 * (1.0 / ((1u64 << 53) as f64));
        assert_eq!(Scalar::unit_interval(x).to_bits(), want.to_bits());
        assert!(want < 1.0);
    }
    for (a, _) in pairs(0x4242_4242_4242_4242, 60_000) {
        let f = f64::from_bits(a);
        assert_eq!(Scalar::from_bits(a).floor_u8(), f.floor() as u8, "{:#x}", a);
    }
    for i in 0..=2600 {
        let f = i as f64 / 10.0 - 2.0;
        assert_eq!(Scalar::from_bits(f.to_bits()).floor_u8(), f.floor() as u8);
    }
}

#[test]
fn cube_root_is_close() {
    let mut g = Gen(0x1357_9bdf_0246_8ace);
    for i in 0..100_000 {
        let x = if i % 2 == 0 {
            (g.next() >> 11) as f64 * (1.0 / ((1u64 << 53) as f64))
        } else {
            f64::from_bits(g.near(1023, 900) & 0x7fff_ffff_ffff_ffff)
        };
        if !x.is_finite() {
            continue;
        }
        let got = f64::from_bits(Scalar::from_bits(x.to_bits()).cbrt().to_bits());
        let want = x.cbrt();
        assert!((got - want).abs() <= 2.0 * f64::EPSILON * want, "cbrt {}: {} vs {}", x, got, want);
        if x < 1.0 {
            assert!(got <= 1.0);
        }
    }
    for k in 0..100_000u64 {
        let x = (k * k * k) as f64;
        assert_eq!(Scalar::from_bits(x.to_bits()).cbrt().to_bits(), (k as f64).to_bits());
        // the neighbours of a cube have a root that is no cube root of a double
        if k > 0 {
            let above = f64::from_bits(x.to_bits() + 1);
            let got = f64::from_bits(Scalar::from_bits(above.to_bits()).cbrt().to_bits());
            assert!(got >= k as f64 && got <= f64::from_bits((k as f64).to_bits() + 1));
        }
    }
    // correctly rounded: the cube of the result and of its neighbours lie around x
    let mut h = Gen(0x0f1e_2d3c_4b5a_6978);
    for _ in 0..20_000 {
        let x = f64::from_bits(h.near(1023, 1000) & 0x7fff_ffff_ffff_ffff);
        if !x.is_finite() || x == 0.0 {
            continue;
        }
        let r = f64::from_bits(Scalar::from_bits(x.to_bits()).cbrt().to_bits());
        let below = f64::from_bits(r.to_bits() - 1);
        let above = f64::from_bits(r.to_bits() + 1);
        assert!(below * below * below < x * (1.0 + 1e-15) && above * above * above > x * (1.0 - 1e-15));
        assert_eq!(Scalar::from_bits((-x).to_bits()).cbrt().to_bits(), (-r).to_bits());
    }
    assert_eq!(Scalar::from_bits(0).cbrt().to_bits(), 0);
    assert_eq!(Scalar::from_bits(1).cbrt().to_bits(), (4.9e-324f64).cbrt().to_bits());
    assert_eq!(Scalar::from_bits(f64::INFINITY.to_bits()).cbrt().to_bits(), f64::INFINITY.to_bits());
    assert!(f64::from_bits(Scalar::from_bits(f64::NAN.to_bits()).cbrt().to_bits()).is_nan());
    assert_eq!(Scalar::from_bits(27.0f64.to_bits()).cbrt().to_bits(), 3.0f64.to_bits());
    assert_eq!(Scalar::from_bits((-8.0f64).to_bits()).cbrt().to_bits(), (-2.0f64).to_bits());
}

#[test]
fn turns_are_close_to_sine_and_cosine() {
    let mut g = Gen(0x2468_ace0_1357_9bdf);
    for i in 0..100_000u64 {
        let v = if i < 4096 {
            i as f64 / 4096.0
        } else {
            (g.next() >> 11) as f64 * (1.0 / ((1u64 << 53) as f64))
        };
        let angle = 2.0 * std::f64::consts::PI * v;
        let c = f64::from_bits(Scalar::from_bits(v.to_bits()).cos_turns().to_bits());
        let s = f64::from_bits(Scalar::from_bits(v.to_bits()).sin_turns().to_bits());
        assert!((c - angle.cos()).abs() < 2e-15, "cos of {} turns: {} vs {}", v, c, angle.cos());
        assert!((s - angle.sin()).abs() < 2e-15, "sin of {} turns: {} vs {}", v, s, angle.sin());
    }
    assert_eq!(Scalar::from_bits(0).cos_turns().to_bits(), 1.0f64.to_bits());
    assert_eq!(Scalar::from_bits(0).sin_turns().to_bits(), 0);
    assert_eq!(Scalar::from_bits(0.25f64.to_bits()).sin_turns().to_bits(), 1.0f64.to_bits());
    assert_eq!(Scalar::from_bits(0.5f64.to_bits()).cos_turns().to_bits(), (-1.0f64).to_bits());
}
