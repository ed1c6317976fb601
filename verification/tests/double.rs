use screenforge::double::Double;
use screenforge::rng::Rng;
use screenforge::whole::Rounding;

fn num(v: f64) -> Double {
    Double::from_bits(v.to_bits())
}

fn agrees(actual: Double, expected: f64, what: &str) {
    let actual = f64::from_bits(actual.bits);
    if expected.is_nan() {
        assert!(actual.is_nan(), "{what}: {actual} instead of NaN");
    } else {
        assert_eq!(actual.to_bits(), expected.to_bits(), "{what}: {actual} instead of {expected}");
    }
}

/// Doubles of every kind: specials, ordinary numbers and raw bit patterns.
fn samples() -> Vec<f64> {
    let mut out = vec![
        0.0,
        -0.0,
        1.0,
        -1.0,
        0.5,
        1.5,
        2.5,
        -2.5,
        0.1,
        0.15,
        1e-300,
        1e300,
        -1e300,
        f64::MAX,
        f64::MIN_POSITIVE,
        f64::from_bits(1),
        -f64::from_bits(1),
        f64::from_bits(0x000F_FFFF_FFFF_FFFF),
        f64::INFINITY,
        f64::NEG_INFINITY,
        f64::NAN,
        9007199254740992.0,
        9007199254740993.0,
        360.0,
        1e19,
        -1e19,
        255.0,
        256.5,
    ];
    let mut rng = Rng::new(77);
    for _ in 0..60 {
        out.push(f64::from_bits(rng.next_u64()));
        out.push((rng.next_u64() % 100000) as f64 / 16.0);
        out.push((rng.next_u64() as i64) as f64);
        out.push(f64::from_bits(rng.next_u64() >> 12));
    }
    out
}

#[test]
fn arithmetic_agrees_with_the_hardware() {
    let values = samples();
    for &a in &values {
        for &b in &values {
            let (x, y) = (num(a), num(b));
            agrees(x.plus(y), a + b, &format!("{a} + {b}"));
            agrees(x.minus(y), a - b, &format!("{a} - {b}"));
            agrees(x.times(y), a * b, &format!("{a} * {b}"));
            agrees(x.over(y), a / b, &format!("{a} / {b}"));
        }
    }
}

#[test]
fn remainder_agrees_with_the_hardware() {
    let values = samples();
    for (i, &a) in values.iter().enumerate() {
        for &b in values.iter().skip(i % 7).step_by(7) {
            agrees(num(a).rem(num(b)), a % b, &format!("{a} % {b}"));
        }
    }
    agrees(num(370.0).rem(num(360.0)), 10.0, "370 % 360");
    agrees(num(-370.0).rem(num(360.0)), -10.0, "-370 % 360");
}

#[test]
fn square_root_agrees_with_the_hardware() {
    for a in samples() {
        agrees(num(a).sqrt(), a.sqrt(), &format!("sqrt({a})"));
    }
    agrees(num(2.0).sqrt(), std::f64::consts::SQRT_2, "sqrt(2)");
}

#[test]
fn ordering_agrees_with_the_hardware() {
    let values = samples();
    for &a in &values {
        for &b in &values {
            let (x, y) = (num(a), num(b));
            assert_eq!(x.less(y), a < b, "{a} < {b}");
            assert_eq!(x.at_most(y), a <= b, "{a} <= {b}");
            assert_eq!(x.equals(y), a == b, "{a} == {b}");
            assert_eq!(x == y, a == b, "{a} == {b}");
            if a != b {
                agrees(x.max(y), a.max(b), &format!("max({a}, {b})"));
                agrees(x.min(y), a.min(b), &format!("min({a}, {b})"));
            }
        }
        agrees(num(a).abs(), a.abs(), &format!("|{a}|"));
        agrees(num(a).negated(), -a, &format!("-{a}"));
        agrees(num(a).clamp(num(-1.0), num(1.0)), a.clamp(-1.0, 1.0), &format!("clamp({a})"));
    }
}

#[test]
fn rounding_to_integers_agrees_with_the_hardware() {
    for a in samples() {
        let x = num(a);
        assert_eq!(x.to_int(Rounding::Truncate, i32::MIN as i128, i32::MAX as i128) as i32, a as i32, "{a} as i32");
        assert_eq!(x.to_int(Rounding::Truncate, 0, u64::MAX as i128) as u64, a as u64, "{a} as u64");
        assert_eq!(x.to_int(Rounding::Nearest, 0, 255) as u8, a.round() as u8, "round({a})");
        assert_eq!(x.to_int(Rounding::Nearest, i64::MIN as i128, i64::MAX as i128) as i64, a.round() as i64);
        assert_eq!(x.to_int(Rounding::Up, i32::MIN as i128, i32::MAX as i128) as i32, a.ceil() as i32, "ceil({a})");
        assert_eq!(x.to_int(Rounding::Down, i32::MIN as i128, i32::MAX as i128) as i32, a.floor() as i32);
    }
}

#[test]
fn integers_and_ratios_agree_with_literals() {
    for v in [0i64, 1, -1, 135, i64::MAX, i64::MIN, 9007199254740993] {
        agrees(Double::from_int(v), v as f64, &format!("{v}"));
    }
    for v in [0u64, 1, u64::MAX, 9007199254740993] {
        agrees(Double::from_u64(v), v as f64, &format!("{v}"));
    }
    agrees(Double::ratio(15, 100), 0.15, "0.15");
    agrees(Double::ratio(12, 10), 1.2, "1.2");
    agrees(Double::ratio(6180339887, 10000000000), 0.6180339887, "0.6180339887");
    agrees(Double::pi(), std::f64::consts::PI, "pi");
    agrees(Double::from_int(90).to_radians(), 90.0_f64.to_radians(), "90 degrees");
}

/// Adding what is not negative never makes less, and a sum does not depend on
/// the order of its terms.
#[test]
fn sums_commute_and_grow() {
    let (a, b) = (num(0.1), num(0.2));
    assert_eq!(a.plus(b).bits, b.plus(a).bits);
    assert!(num(1e16).at_most(num(1e16).plus(num(0.5))));
}
