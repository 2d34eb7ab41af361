use rand::rngs::StdRng;
use rand::{Rng, RngCore, SeedableRng};
use zipf::Double;

fn d(x: f64) -> Double {
    Double::from_bits(x.to_bits())
}

fn f(x: Double) -> f64 {
    f64::from_bits(x.to_bits())
}

fn specimens() -> Vec<f64> {
    vec![
        0.0,
        -0.0,
        f64::MIN_POSITIVE,
        -f64::MIN_POSITIVE,
        f64::from_bits(1),
        -f64::from_bits(1),
        f64::from_bits(0x000F_FFFF_FFFF_FFFF),
        0.5,
        0.999_999_999_999_999_9,
        1.0,
        -1.0,
        1.000_000_000_000_000_2,
        1.5,
        2.0,
        3.999,
        -3.999,
        10.0,
        1e15,
        9_007_199_254_740_992.0,
        9_007_199_254_740_994.0,
        9_223_372_036_854_775_808.0,
        18_446_744_073_709_549_568.0,
        18_446_744_073_709_551_616.0,
        1e300,
        -1e300,
        f64::MAX,
        f64::MIN,
        f64::INFINITY,
        f64::NEG_INFINITY,
        f64::NAN,
        -f64::NAN,
        f64::from_bits(0x7FF0_0000_0000_0001),
        f64::from_bits(0xFFFF_FFFF_FFFF_FFFF),
    ]
}

fn integers() -> Vec<usize> {
    let mut v: Vec<usize> = vec![
        0,
        1,
        2,
        3,
        10,
        1000,
        (1 << 52) - 1,
        1 << 52,
        (1 << 52) + 1,
        (1 << 53) - 1,
        1 << 53,
        (1 << 53) + 1,
        (1 << 53) + 2,
        (1 << 53) + 3,
        (1 << 54) + 2,
        (1 << 54) + 3,
        (1 << 54) + 6,
        (1 << 60) + (1 << 7),
        (1 << 60) + (1 << 7) + 1,
        (1 << 60) + (3 << 7),
        (1 << 63) - 1,
        1 << 63,
        (1 << 63) + 1024,
        (1 << 63) + 3072,
        usize::MAX - 2048,
        usize::MAX - 1024,
        usize::MAX - 1023,
        usize::MAX - 1,
        usize::MAX,
    ];
    let mut state: u64 = 0x9E37_79B9_7F4A_7C15;
    for i in 0..4000 {
        state = state.wrapping_mul(6364136223846793005).wrapping_add(1442695040888963407);
        v.push((state >> (i % 64)) as usize);
    }
    v
}

#[test]
fn bits_round_trip() {
    for x in specimens() {
        assert_eq!(d(x).to_bits(), x.to_bits());
    }
    assert_eq!(Double::zero().to_bits(), 0.0f64.to_bits());
    assert_eq!(Double::one().to_bits(), 1.0f64.to_bits());
}

#[test]
fn nan_is_recognised() {
    for x in specimens() {
        assert_eq!(d(x).nan(), x.is_nan(), "{x}");
    }
}

#[test]
fn comparisons_follow_the_numbers() {
    for x in specimens() {
        for y in specimens() {
            assert_eq!(d(x).lt(d(y)), x < y, "{x} < {y}");
            assert_eq!(d(x).le(d(y)), x <= y, "{x} <= {y}");
            assert_eq!(d(x).num_eq(d(y)), x == y, "{x} == {y}");
        }
    }
}

#[test]
fn zeros_are_equal_numbers_and_distinct_encodings() {
    assert!(d(0.0).num_eq(d(-0.0)));
    assert!(d(0.0).le(d(-0.0)));
    assert!(!d(0.0).lt(d(-0.0)));
    assert_ne!(d(0.0), d(-0.0));
}

#[test]
fn conversion_from_an_index_rounds_to_nearest_even() {
    for n in integers() {
        assert_eq!(Double::from_index(n).to_bits(), (n as f64).to_bits(), "{n}");
    }
    assert_eq!(f(Double::from_index((1 << 53) + 1)), 9_007_199_254_740_992.0);
    assert_eq!(f(Double::from_index((1 << 53) + 3)), 9_007_199_254_740_996.0);
    assert_eq!(f(Double::from_index(usize::MAX)), 18_446_744_073_709_551_616.0);
}

#[test]
fn sum_of_two_indices_is_the_rounded_sum_of_the_doubles() {
    let all = integers();
    for (i, a) in all.iter().enumerate() {
        let b = all[(i * 7 + 3) % all.len()];
        let expected = *a as f64 + b as f64;
        assert_eq!(Double::index_sum(*a, b).to_bits(), expected.to_bits(), "{a} + {b}");
    }
    assert_eq!(f(Double::index_sum(3, 5)), 8.0);
    assert_eq!(f(Double::index_sum(1 << 60, 1)), (1u64 << 60) as f64);
    assert_eq!(
        f(Double::index_sum(usize::MAX, usize::MAX)),
        36_893_488_147_419_103_232.0
    );
}

#[test]
fn truncation_to_an_index_drops_the_fraction_and_saturates() {
    for x in specimens() {
        assert_eq!(d(x).to_index(), x as usize, "{x}");
    }
    for n in integers() {
        let x = n as f64;
        assert_eq!(d(x).to_index(), x as usize, "{n}");
        let y = x / 3.0 + 0.7;
        assert_eq!(d(y).to_index(), y as usize, "{y}");
    }
    assert_eq!(d(3.999).to_index(), 3);
    assert_eq!(d(0.999).to_index(), 0);
    assert_eq!(d(-7.5).to_index(), 0);
    assert_eq!(d(f64::NAN).to_index(), 0);
    assert_eq!(d(f64::INFINITY).to_index(), usize::MAX);
    assert_eq!(d(1e30).to_index(), usize::MAX);
}

#[test]
fn word_becomes_a_fraction_below_one() {
    assert_eq!(f(Double::from_word(0)), 0.0);
    assert_eq!(f(Double::from_word(2047)), 0.0);
    assert_eq!(f(Double::from_word(2048)), 1.0 / 9_007_199_254_740_992.0);
    assert_eq!(f(Double::from_word(1 << 63)), 0.5);
    assert_eq!(f(Double::from_word(u64::MAX)), 1.0 - f64::EPSILON / 2.0);
    for n in integers() {
        let word = n as u64;
        let expected = (word >> 11) as f64 / 9_007_199_254_740_992.0;
        assert_eq!(f(Double::from_word(word)), expected);
        assert!(expected < 1.0);
    }
}

#[test]
fn word_becomes_the_draw_of_the_generator() {
    for seed in [0u64, 1, 42, 666, 789, u64::MAX] {
        let mut words = StdRng::seed_from_u64(seed);
        let mut draws = StdRng::seed_from_u64(seed);
        for _ in 0..500 {
            let u: f64 = draws.gen();
            assert_eq!(Double::from_word(words.next_u64()).to_bits(), u.to_bits());
        }
    }
}

#[test]
fn truncation_keeps_the_order() {
    let all = specimens();
    for x in &all {
        for y in &all {
            if d(*x).le(d(*y)) {
                assert!(d(*x).to_index() <= d(*y).to_index(), "{x} {y}");
            }
        }
    }
}

#[test]
fn small_integers_convert_exactly_and_in_order() {
    let mut last = Double::from_index(0);
    assert_eq!(last, Double::zero());
    assert_eq!(Double::from_index(1), Double::one());
    for n in 1..5000usize {
        let next = Double::from_index(n);
        assert!(last.lt(next));
        assert_eq!(next.to_index(), n);
        last = next;
    }
    for n in integers() {
        let rounded = f(Double::from_index(n));
        let ulp = if n < (1 << 53) { 1.0 } else { ((n as f64).log2().floor() - 52.0).exp2() };
        assert!((rounded - n as f64).abs() * 2.0 <= ulp, "{n}");
    }
}

#[test]
fn conversion_and_sum_agree_with_the_hardware_around_powers_of_two() {
    for k in 0..64u32 {
        for delta in -3i64..=3 {
            for half in [0u64, 1] {
                let base = (1u64 << k).wrapping_add(delta as u64);
                let n = base.wrapping_add(half << k.saturating_sub(54)) as usize;
                assert_eq!(Double::from_index(n).to_bits(), (n as f64).to_bits(), "{n}");
                for j in 0..64u32 {
                    let m = (1u64 << j).wrapping_add(delta as u64) as usize;
                    let expected = n as f64 + m as f64;
                    assert_eq!(Double::index_sum(n, m).to_bits(), expected.to_bits(), "{n} {m}");
                }
            }
        }
    }
}
