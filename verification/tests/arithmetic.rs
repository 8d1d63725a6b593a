use mandelbrot::binary64::value::Binary64;

fn next(state: &mut u64) -> u64 {
    let mut x = *state;
    x ^= x << 13;
    x ^= x >> 7;
    x ^= x << 17;
    *state = x;
    x
}

/// Bit patterns that stress the corners of the format.
fn corner_patterns() -> Vec<u64> {
    let mut v = vec![
        0u64,
        1,
        2,
        3,
        0x000F_FFFF_FFFF_FFFF,
        0x0010_0000_0000_0000,
        0x0010_0000_0000_0001,
        0x001F_FFFF_FFFF_FFFF,
        0x0020_0000_0000_0000,
        0x3CA0_0000_0000_0000,
        0x3CB0_0000_0000_0000,
        0x3FE0_0000_0000_0000,
        0x3FEF_FFFF_FFFF_FFFF,
        0x3FF0_0000_0000_0000,
        0x3FF0_0000_0000_0001,
        0x3FF8_0000_0000_0000,
        0x4000_0000_0000_0000,
        0x4008_0000_0000_0000,
        0x4010_0000_0000_0000,
        0x4024_0000_0000_0000,
        0x404E_0000_0000_0000,
        0x4076_8000_0000_0000,
        0x433F_FFFF_FFFF_FFFF,
        0x4340_0000_0000_0000,
        0x7FE0_0000_0000_0000,
        0x7FEF_FFFF_FFFF_FFFF,
        0x7FF0_0000_0000_0000,
        0x7FF0_0000_0000_0001,
        0x7FF8_0000_0000_0000,
        0x5FE0_0000_0000_0000,
        0x1FF0_0000_0000_0000,
        0x2000_0000_0000_0001,
        1.0e-300f64.to_bits(),
        1.0e300f64.to_bits(),
        0.1f64.to_bits(),
        0.9f64.to_bits(),
        1.0e-320f64.to_bits(),
        4.9e-324f64.to_bits(),
        255.0f64.to_bits(),
        255.99f64.to_bits(),
        256.0f64.to_bits(),
    ];
    let n = v.len();
    for i in 0..n {
        v.push(v[i] | 0x8000_0000_0000_0000);
    }
    v
}

/// Random patterns of three kinds: any bits, exponents near 1, exponents near the ends.
fn random_patterns(count: usize, seed: u64) -> Vec<u64> {
    let mut state = seed;
    let mut v = Vec::new();
    for i in 0..count {
        let raw = next(&mut state);
        let bits = match i % 4 {
            0 => raw,
            1 => (raw & 0x800F_FFFF_FFFF_FFFF) | ((1023 - 30 + (next(&mut state) % 60)) << 52),
            2 => (raw & 0x800F_FFFF_FFFF_FFFF) | ((next(&mut state) % 40) << 52),
            _ => (raw & 0x800F_FFFF_FFFF_FFFF) | ((2046 - (next(&mut state) % 40)) << 52),
        };
        v.push(bits);
    }
    v
}

fn same(ours: Binary64, native: f64) -> bool {
    if native.is_nan() {
        f64::from_bits(ours.to_bits()).is_nan()
    } else {
        ours.to_bits() == native.to_bits()
    }
}

fn check_pairs(name: &str, ours: fn(Binary64, Binary64) -> Binary64, native: fn(f64, f64) -> f64) {
    let corners = corner_patterns();
    for &a in corners.iter() {
        for &b in corners.iter() {
            let r = ours(Binary64::from_bits(a), Binary64::from_bits(b));
            let n = native(f64::from_bits(a), f64::from_bits(b));
            assert!(same(r, n), "{} {:#018x} {:#018x}: {:#018x} vs {:#018x}", name, a, b, r.to_bits(), n.to_bits());
        }
    }
    let xs = random_patterns(4000, 0x9E37_79B9_7F4A_7C15);
    let ys = random_patterns(4000, 0xD1B5_4A32_D192_ED03);
    for i in 0..xs.len() {
        let (a, b) = (xs[i], ys[(i * 7 + 3) % ys.len()]);
        let r = ours(Binary64::from_bits(a), Binary64::from_bits(b));
        let n = native(f64::from_bits(a), f64::from_bits(b));
        assert!(same(r, n), "{} {:#018x} {:#018x}: {:#018x} vs {:#018x}", name, a, b, r.to_bits(), n.to_bits());
        let c = corners[i % corners.len()];
        let r = ours(Binary64::from_bits(a), Binary64::from_bits(c));
        let n = native(f64::from_bits(a), f64::from_bits(c));
        assert!(same(r, n), "{} {:#018x} {:#018x}: {:#018x} vs {:#018x}", name, a, c, r.to_bits(), n.to_bits());
        let r = ours(Binary64::from_bits(c), Binary64::from_bits(b));
        let n = native(f64::from_bits(c), f64::from_bits(b));
        assert!(same(r, n), "{} {:#018x} {:#018x}: {:#018x} vs {:#018x}", name, c, b, r.to_bits(), n.to_bits());
    }
}

#[test]
fn product_matches_hardware() {
    check_pairs("mul", |a, b| a.mul(b), |x, y| x * y);
}

#[test]
fn product_of_exact_values() {
    let three = Binary64::from_bits(3.0f64.to_bits());
    let half = Binary64::from_bits(0.5f64.to_bits());
    assert_eq!(three.mul(half).to_bits(), 1.5f64.to_bits());
}

#[test]
fn sum_matches_hardware() {
    check_pairs("add", |a, b| a.add(b), |x, y| x + y);
}

#[test]
fn difference_matches_hardware() {
    check_pairs("sub", |a, b| a.sub(b), |x, y| x - y);
}

#[test]
fn quotient_matches_hardware() {
    check_pairs("div", |a, b| a.div(b), |x, y| x / y);
}

#[test]
fn remainder_matches_hardware() {
    check_pairs("rem", |a, b| a.rem(b), |x, y| x % y);
}

#[test]
fn order_matches_hardware() {
    let corners = corner_patterns();
    let randoms = random_patterns(2000, 0x0123_4567_89AB_CDEF);
    let mut all = corners.clone();
    all.extend(randoms.iter().take(200));
    for &a in all.iter() {
        for &b in all.iter() {
            let (x, y) = (f64::from_bits(a), f64::from_bits(b));
            let (p, q) = (Binary64::from_bits(a), Binary64::from_bits(b));
            assert_eq!(p.lt(q), x < y, "lt {:#018x} {:#018x}", a, b);
            assert_eq!(p.le(q), x <= y, "le {:#018x} {:#018x}", a, b);
            assert_eq!(p.gt(q), x > y, "gt {:#018x} {:#018x}", a, b);
            assert_eq!(p.ge(q), x >= y, "ge {:#018x} {:#018x}", a, b);
        }
    }
}

#[test]
fn sign_operations_match_hardware() {
    let mut all = corner_patterns();
    all.extend(random_patterns(2000, 0x0F0F_1234_5678_9ABC));
    for &a in all.iter() {
        let x = f64::from_bits(a);
        let p = Binary64::from_bits(a);
        assert!(same(p.neg(), -x), "neg {:#018x}", a);
        assert!(same(p.abs(), x.abs()), "abs {:#018x}", a);
        assert_eq!(p.is_nan(), x.is_nan());
        assert_eq!(p.is_infinite(), x.is_infinite());
        assert_eq!(p.is_zero(), x == 0.0);
    }
}

#[test]
fn byte_conversion_matches_hardware() {
    let mut all = corner_patterns();
    all.extend(random_patterns(4000, 0x7777_1234_5678_9ABC));
    let mut state = 0x1357_9BDF_0246_8ACEu64;
    for _ in 0..4000 {
        let x = (next(&mut state) % 300_000) as f64 / 1000.0 - 20.0;
        all.push(x.to_bits());
    }
    for &a in all.iter() {
        let x = f64::from_bits(a);
        assert_eq!(Binary64::from_bits(a).to_u8(), x as u8, "to_u8 {:#018x}", a);
    }
}

#[test]
fn count_conversion_matches_hardware() {
    let mut state = 0x2468_ACE0_1357_9BDFu64;
    let mut counts = vec![0u32, 1, 2, 3, 255, 256, 65535, 65536, u32::MAX, u32::MAX - 1, 1 << 31];
    for _ in 0..4000 {
        counts.push(next(&mut state) as u32);
    }
    for &c in counts.iter() {
        assert_eq!(Binary64::from_u32(c).to_bits(), (c as f64).to_bits(), "from_u32 {}", c);
    }
}

#[test]
fn special_operands() {
    let inf = Binary64::from_bits(f64::INFINITY.to_bits());
    let ninf = Binary64::from_bits(f64::NEG_INFINITY.to_bits());
    let zero = Binary64::from_bits(0);
    let one = Binary64::from_bits(1.0f64.to_bits());
    assert!(inf.add(ninf).is_nan());
    assert!(inf.sub(inf).is_nan());
    assert!(zero.mul(inf).is_nan());
    assert!(zero.div(zero).is_nan());
    assert!(inf.div(inf).is_nan());
    assert!(inf.rem(one).is_nan());
    assert!(one.rem(zero).is_nan());
    assert_eq!(one.div(zero).to_bits(), f64::INFINITY.to_bits());
    assert_eq!(one.neg().div(zero).to_bits(), f64::NEG_INFINITY.to_bits());
    assert_eq!(one.rem(inf).to_bits(), 1.0f64.to_bits());
    assert_eq!(one.sub(one).to_bits(), 0);
    assert_eq!(zero.neg().add(zero.neg()).to_bits(), (-0.0f64).to_bits());
    assert_eq!(Binary64::nan().to_u8(), 0);
    assert!(!Binary64::nan().lt(one));
    assert!(!Binary64::nan().ge(one));
}

#[test]
fn ties_go_to_even() {
    // 2^53 + 1 lies halfway between two neighbours; so does 2^53 + 3.
    let big = Binary64::from_bits(9007199254740992.0f64.to_bits());
    let one = Binary64::from_bits(1.0f64.to_bits());
    let three = Binary64::from_bits(3.0f64.to_bits());
    assert_eq!(big.add(one).to_bits(), 9007199254740992.0f64.to_bits());
    assert_eq!(big.add(three).to_bits(), 9007199254740996.0f64.to_bits());
}

#[test]
fn overflow_gives_infinity() {
    let max = Binary64::from_bits(f64::MAX.to_bits());
    let two = Binary64::from_bits(2.0f64.to_bits());
    assert_eq!(max.mul(two).to_bits(), f64::INFINITY.to_bits());
    assert_eq!(max.add(max).to_bits(), f64::INFINITY.to_bits());
    assert_eq!(max.neg().mul(two).to_bits(), f64::NEG_INFINITY.to_bits());
}

#[test]
fn underflow_is_gradual() {
    let tiny = Binary64::from_bits(1);
    let half = Binary64::from_bits(0.5f64.to_bits());
    let three_halves = Binary64::from_bits(1.5f64.to_bits());
    assert_eq!(tiny.mul(half).to_bits(), 0);
    assert_eq!(tiny.mul(three_halves).to_bits(), 2);
    let least_normal = Binary64::from_bits(0x0010_0000_0000_0000);
    assert_eq!(least_normal.mul(half).to_bits(), 0x0008_0000_0000_0000);
}

#[test]
fn ratios_are_the_nearest_numbers() {
    assert_eq!(Binary64::from_ratio(1, 2).to_bits(), 0.5f64.to_bits());
    assert_eq!(Binary64::from_ratio(3, 2).to_bits(), 1.5f64.to_bits());
    assert_eq!(Binary64::from_ratio(3, 10).to_bits(), 0.3f64.to_bits());
    assert_eq!(Binary64::from_ratio(4, 10).to_bits(), 0.4f64.to_bits());
    assert_eq!(Binary64::from_ratio(6, 10).to_bits(), 0.6f64.to_bits());
    assert_eq!(Binary64::from_ratio(7, 10).to_bits(), 0.7f64.to_bits());
    assert_eq!(Binary64::from_ratio(9, 10).to_bits(), 0.9f64.to_bits());
    assert_eq!(Binary64::from_ratio(1, 3).to_bits(), (1.0f64 / 3.0).to_bits());
    assert_eq!(Binary64::from_ratio(0, 5).to_bits(), 0);
    assert_eq!(Binary64::from_ratio(5, 0).to_bits(), f64::INFINITY.to_bits());
    assert!(Binary64::from_ratio(0, 0).is_nan());
}

#[test]
fn parts_give_back_the_magnitude() {
    let mut all = corner_patterns();
    all.extend(random_patterns(2000, 0x5151_1234_5678_9ABC));
    for &a in all.iter() {
        let x = f64::from_bits(a);
        if !x.is_finite() {
            continue;
        }
        let (m, e) = Binary64::from_bits(a).parts();
        // m * 2^(e - 1074) in two steps, neither of which rounds.
        let shift = e as i32 - 1074;
        let rebuilt = (m as f64) * 2.0f64.powi(shift / 2) * 2.0f64.powi(shift - shift / 2);
        assert_eq!(rebuilt.to_bits(), x.abs().to_bits(), "{:#018x}", a);
        assert!(m < (1u64 << 53));
        assert!(e == 0 || m >= (1u64 << 52));
    }
}

#[test]
fn codes_and_constructors() {
    assert_eq!(Binary64::zero(false).to_bits(), 0.0f64.to_bits());
    assert_eq!(Binary64::zero(true).to_bits(), (-0.0f64).to_bits());
    assert_eq!(Binary64::infinity(false).to_bits(), f64::INFINITY.to_bits());
    assert_eq!(Binary64::infinity(true).to_bits(), f64::NEG_INFINITY.to_bits());
    assert!(f64::from_bits(Binary64::nan().to_bits()).is_nan());
    assert_eq!(Binary64::from_code(false, 0x3FF0_0000_0000_0000).to_bits(), 1.0f64.to_bits());
    assert_eq!(Binary64::from_code(true, 0x4000_0000_0000_0000).to_bits(), (-2.0f64).to_bits());
    assert!(Binary64::from_bits((-3.5f64).to_bits()).sign());
    assert!(!Binary64::from_bits(3.5f64.to_bits()).sign());
}
