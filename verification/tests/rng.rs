use screenforge::double::Double;
use screenforge::rng::Rng;

fn num(v: f64) -> Double {
    Double::from_bits(v.to_bits())
}

fn float(v: Double) -> f64 {
    f64::from_bits(v.bits)
}

#[test]
fn same_seed_produces_the_same_sequence() {
    let mut a = Rng::new(42);
    let mut b = Rng::new(42);
    for _ in 0..100 {
        assert_eq!(a.next_u64(), b.next_u64());
    }
}

#[test]
fn different_seeds_diverge() {
    let mut a = Rng::new(1);
    let mut b = Rng::new(2);
    let seq_a: Vec<u64> = (0..10).map(|_| a.next_u64()).collect();
    let seq_b: Vec<u64> = (0..10).map(|_| b.next_u64()).collect();
    assert_ne!(seq_a, seq_b);
}

#[test]
fn next_f64_stays_within_unit_range() {
    let mut rng = Rng::new(7);
    for _ in 0..1000 {
        let v = float(rng.next_f64());
        assert!((0.0..1.0).contains(&v), "out of range: {v}");
    }
}

#[test]
fn range_respects_bounds() {
    let mut rng = Rng::new(99);
    for _ in 0..1000 {
        let v = float(rng.range(num(-5.0), num(5.0)));
        assert!((-5.0..=5.0).contains(&v), "out of range: {v}");
    }
}

#[test]
fn index_never_reaches_len() {
    let mut rng = Rng::new(3);
    for _ in 0..1000 {
        assert!(rng.index(7) < 7);
    }
}

#[test]
fn index_of_zero_length_is_zero_not_a_panic() {
    let mut rng = Rng::new(3);
    assert_eq!(rng.index(0), 0);
}

#[test]
fn fork_is_deterministic_for_the_same_parent_state_and_tag() {
    let mut a = Rng::new(11);
    let mut b = Rng::new(11);
    let mut fork_a = a.fork(5);
    let mut fork_b = b.fork(5);
    assert_eq!(fork_a.next_u64(), fork_b.next_u64());
}

#[test]
fn fork_with_a_different_tag_diverges() {
    let mut a = Rng::new(11);
    let mut b = Rng::new(11);
    let mut fork_a = a.fork(5);
    let mut fork_b = b.fork(6);
    assert_ne!(fork_a.next_u64(), fork_b.next_u64());
}

#[test]
fn outputs_are_those_of_splitmix64() {
    let mut rng = Rng::new(1234567);
    assert_eq!(rng.next_u64(), 6457827717110365317);
    assert_eq!(rng.next_u64(), 3203168211198807973);
    assert_eq!(rng.next_u64(), 9817491932198370423);
}

#[test]
fn draws_agree_with_hardware_arithmetic() {
    let mut rng = Rng::new(2024);
    let mut raw = Rng::new(2024);
    for i in 0..2000u64 {
        let expected = (raw.next_u64() >> 11) as f64 * (1.0 / (1u64 << 53) as f64);
        match i % 3 {
            0 => assert_eq!(float(rng.next_f64()), expected),
            1 => assert_eq!(float(rng.range(num(-3.7), num(11.3))), -3.7 + expected * (11.3 - -3.7)),
            _ => assert_eq!(rng.index(1000), ((expected * 1000.0) as usize).min(999)),
        }
    }
}

#[test]
fn chance_compares_the_draw_with_the_probability() {
    let mut a = Rng::new(5);
    let mut b = Rng::new(5);
    for _ in 0..200 {
        let drawn = float(a.next_f64());
        assert_eq!(b.chance(num(0.3)), drawn < 0.3);
    }
}

#[test]
fn a_range_whose_width_is_rounded_is_respected_too() {
    // The width is rounded up to the next double.
    let (lo, hi): (f64, f64) = (-0.1, 1.0);
    assert!((hi - lo) - hi > -lo);
    let mut rng = Rng::new(11);
    for _ in 0..2000 {
        let v = float(rng.range(num(lo), num(hi)));
        assert!((lo..=hi).contains(&v), "out of range: {v}");
    }
}
