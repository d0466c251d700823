use array_round::arith::{divide, multiply, round_integral};
use array_round::format::Format;

/// A fixed sequence of 64-bit patterns that looks random.
struct Patterns(u64);

impl Patterns {
    fn next(&mut self) -> u64 {
        self.0 ^= self.0 << 13;
        self.0 ^= self.0 >> 7;
        self.0 ^= self.0 << 17;
        self.0
    }
}

fn finite64(x: f64) -> Option<u64> {
    if x.is_finite() {
        Some(x.to_bits())
    } else {
        None
    }
}

fn finite32(x: f32) -> Option<u64> {
    if x.is_finite() {
        Some(x.to_bits() as u64)
    } else {
        None
    }
}

const EDGES64: [f64; 24] = [
    0.0,
    -0.0,
    1.0,
    -1.0,
    10.0,
    0.1,
    0.5,
    1.5,
    2.5,
    -2.5,
    1.005,
    2.345,
    150.0,
    1e22,
    1e23,
    1e308,
    1e-308,
    f64::MAX,
    f64::MIN_POSITIVE,
    5e-324,
    1.5e-323,
    2.2250738585072009e-308,
    4503599627370496.5,
    9007199254740993.0,
];

const EDGES32: [f32; 20] = [
    0.0,
    -0.0,
    1.0,
    -1.0,
    10.0,
    0.1,
    0.5,
    1.5,
    2.5,
    -2.5,
    1.005,
    2.345,
    150.0,
    1e10,
    1e11,
    1e38,
    f32::MAX,
    f32::MIN_POSITIVE,
    1e-45,
    8388608.5,
];

#[test]
fn multiply_agrees_with_hardware_on_edges_binary64() {
    for &a in EDGES64.iter() {
        for &b in EDGES64.iter() {
            for (x, y) in [(a, b), (-a, b)] {
                assert_eq!(
                    multiply(Format::Binary64, x.to_bits(), y.to_bits()),
                    finite64(x * y),
                    "{x:e} * {y:e}"
                );
            }
        }
    }
}

#[test]
fn divide_agrees_with_hardware_on_edges_binary64() {
    for &a in EDGES64.iter() {
        for &b in EDGES64.iter() {
            if b == 0.0 {
                continue;
            }
            for (x, y) in [(a, b), (-a, b)] {
                assert_eq!(
                    divide(Format::Binary64, x.to_bits(), y.to_bits()),
                    finite64(x / y),
                    "{x:e} / {y:e}"
                );
            }
        }
    }
}

#[test]
fn multiply_agrees_with_hardware_on_edges_binary32() {
    for &a in EDGES32.iter() {
        for &b in EDGES32.iter() {
            for (x, y) in [(a, b), (-a, b)] {
                assert_eq!(
                    multiply(Format::Binary32, x.to_bits() as u64, y.to_bits() as u64),
                    finite32(x * y),
                    "{x:e} * {y:e}"
                );
            }
        }
    }
}

#[test]
fn divide_agrees_with_hardware_on_edges_binary32() {
    for &a in EDGES32.iter() {
        for &b in EDGES32.iter() {
            if b == 0.0 {
                continue;
            }
            for (x, y) in [(a, b), (-a, b)] {
                assert_eq!(
                    divide(Format::Binary32, x.to_bits() as u64, y.to_bits() as u64),
                    finite32(x / y),
                    "{x:e} / {y:e}"
                );
            }
        }
    }
}

#[test]
fn round_integral_agrees_with_hardware_on_edges() {
    for &a in EDGES64.iter() {
        for x in [a, -a, a * 0.37, a + 0.5, a - 0.5] {
            if x.is_finite() {
                assert_eq!(
                    round_integral(Format::Binary64, x.to_bits()),
                    x.round_ties_even().to_bits(),
                    "{x:e}"
                );
            }
        }
    }
    for &a in EDGES32.iter() {
        for x in [a, -a, a * 0.37, a + 0.5, a - 0.5] {
            if x.is_finite() {
                assert_eq!(
                    round_integral(Format::Binary32, x.to_bits() as u64),
                    x.round_ties_even().to_bits() as u64,
                    "{x:e}"
                );
            }
        }
    }
}

#[test]
fn operations_agree_with_hardware_on_many_patterns_binary64() {
    let mut gen = Patterns(0x9e3779b97f4a7c15);
    for _ in 0..20000 {
        let a = f64::from_bits(gen.next());
        let b = f64::from_bits(gen.next());
        assert_eq!(multiply(Format::Binary64, a.to_bits(), b.to_bits()), finite64(a * b));
        assert_eq!(divide(Format::Binary64, a.to_bits(), b.to_bits()), finite64(a / b));
        if !a.is_nan() {
            assert_eq!(round_integral(Format::Binary64, a.to_bits()), a.round_ties_even().to_bits());
        }
    }
}

#[test]
fn operations_agree_with_hardware_on_many_patterns_binary32() {
    let mut gen = Patterns(0x2545f4914f6cdd1d);
    for _ in 0..20000 {
        let a = f32::from_bits(gen.next() as u32);
        let b = f32::from_bits(gen.next() as u32);
        let (x, y) = (a.to_bits() as u64, b.to_bits() as u64);
        assert_eq!(multiply(Format::Binary32, x, y), finite32(a * b));
        assert_eq!(divide(Format::Binary32, x, y), finite32(a / b));
        if !a.is_nan() {
            assert_eq!(round_integral(Format::Binary32, x), a.round_ties_even().to_bits() as u64);
        }
    }
}

#[test]
fn operations_on_zeros_infinities_and_nans() {
    let specials = [0.0, -0.0, 1.0, -2.5, f64::INFINITY, f64::NEG_INFINITY, f64::NAN, f64::MAX];
    for &a in specials.iter() {
        for &b in specials.iter() {
            assert_eq!(multiply(Format::Binary64, a.to_bits(), b.to_bits()), finite64(a * b), "{a} * {b}");
            assert_eq!(divide(Format::Binary64, a.to_bits(), b.to_bits()), finite64(a / b), "{a} / {b}");
        }
        // A NaN or an infinity comes back bit for bit.
        let kept = if a.is_finite() { a.round_ties_even() } else { a };
        assert_eq!(round_integral(Format::Binary64, a.to_bits()), kept.to_bits());
    }
    let specials = [0.0f32, -0.0, 1.0, -2.5, f32::INFINITY, f32::NEG_INFINITY, f32::NAN, f32::MAX];
    for &a in specials.iter() {
        for &b in specials.iter() {
            let (x, y) = (a.to_bits() as u64, b.to_bits() as u64);
            assert_eq!(multiply(Format::Binary32, x, y), finite32(a * b), "{a} * {b}");
            assert_eq!(divide(Format::Binary32, x, y), finite32(a / b), "{a} / {b}");
        }
    }
    // Exact values: a product, a quotient that is rounded, a tie.
    assert_eq!(multiply(Format::Binary64, 3.0f64.to_bits(), 0.5f64.to_bits()), Some(1.5f64.to_bits()));
    assert_eq!(divide(Format::Binary64, 1.0f64.to_bits(), 3.0f64.to_bits()), Some(0x3fd5555555555555));
    assert_eq!(divide(Format::Binary32, 1.0f32.to_bits() as u64, 3.0f32.to_bits() as u64), Some(0x3eaaaaab));
    assert_eq!(round_integral(Format::Binary64, 0.5f64.to_bits()), 0.0f64.to_bits());
    assert_eq!(round_integral(Format::Binary64, 1.5f64.to_bits()), 2.0f64.to_bits());
    assert_eq!(round_integral(Format::Binary64, (-0.5f64).to_bits()), (-0.0f64).to_bits());
    assert_eq!(multiply(Format::Binary64, f64::MAX.to_bits(), 2.0f64.to_bits()), None);
    assert_eq!(divide(Format::Binary64, 1.0f64.to_bits(), 0), None);
}

#[test]
fn operations_agree_with_hardware_near_one_and_in_the_subnormal_range() {
    let mut gen = Patterns(0x0123456789abcdef);
    for _ in 0..20000 {
        // Exponents close to that of one, so that products and quotients stay in range
        // and the rounding to an integer has bits to cut.
        let ea = 1023 - 30 + gen.next() % 90;
        let eb = 1023 - 30 + gen.next() % 90;
        let a = f64::from_bits((gen.next() & 0x800f_ffff_ffff_ffff) | (ea << 52));
        let b = f64::from_bits((gen.next() & 0x800f_ffff_ffff_ffff) | (eb << 52));
        assert_eq!(multiply(Format::Binary64, a.to_bits(), b.to_bits()), finite64(a * b));
        assert_eq!(divide(Format::Binary64, a.to_bits(), b.to_bits()), finite64(a / b));
        assert_eq!(round_integral(Format::Binary64, a.to_bits()), a.round_ties_even().to_bits());
        // A subnormal operand, and a result that falls into the subnormal range.
        let tiny = f64::from_bits(gen.next() & 0x800f_ffff_ffff_ffff);
        let small = f64::from_bits((gen.next() & 0x800f_ffff_ffff_ffff) | ((gen.next() % 60 + 1) << 52));
        assert_eq!(multiply(Format::Binary64, tiny.to_bits(), a.to_bits()), finite64(tiny * a));
        assert_eq!(multiply(Format::Binary64, small.to_bits(), a.to_bits()), finite64(small * a));
        assert_eq!(divide(Format::Binary64, small.to_bits(), a.to_bits()), finite64(small / a));
        if tiny != 0.0 {
            assert_eq!(divide(Format::Binary64, a.to_bits(), tiny.to_bits()), finite64(a / tiny));
            assert_eq!(divide(Format::Binary64, tiny.to_bits(), a.to_bits()), finite64(tiny / a));
        }
    }
}
