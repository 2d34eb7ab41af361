use std::collections::HashMap;

use rand::rngs::StdRng;
use rand::SeedableRng;
use zipf::{ArrayAccess, Double, IndexAccess, Regime, Zipf, ZipfIterator, DEFAULT_SEED};

fn d(x: f64) -> Double {
    Double::from_bits(x.to_bits())
}

fn f(x: Double) -> f64 {
    f64::from_bits(x.to_bits())
}

fn zipf(start: f64, end: f64, s: f64) -> Zipf {
    Zipf::new(d(start)..d(end), d(s)).unwrap()
}

/// The inverse transform of `zipf` at `u`, in floating point.
fn sample(zipf: &Zipf, u: Double) -> Double {
    let a = f(zipf.start());
    let b = f(zipf.end());
    let u = f(u);
    let x = match zipf.regime() {
        Regime::One => (a.ln() + u * (b / a).ln()).exp(),
        Regime::NonOne => {
            let q = 1.0 - f(zipf.s());
            let a_pow_q = a.powf(q);
            u.mul_add(b.powf(q) - a_pow_q, a_pow_q).powf(1.0 / q)
        }
    };
    d(x)
}

fn values(it: &mut ZipfIterator, n: usize) -> Vec<f64> {
    let zipf = it.zipf();
    it.take(n).into_iter().map(|u| f(sample(&zipf, u))).collect()
}

fn indices(access: &mut IndexAccess, n: usize) -> Vec<usize> {
    let zipf = access.zipf();
    (0..n)
        .map(|_| {
            let u = access.next_uniform();
            access.index(sample(&zipf, u))
        })
        .collect()
}

fn elements<T: Copy>(access: &mut ArrayAccess<T>, n: usize) -> Vec<T> {
    let zipf = access.zipf();
    (0..n)
        .map(|_| {
            let u = access.next_uniform();
            access.element(sample(&zipf, u)).unwrap()
        })
        .collect()
}

fn four_places(values: &[f64]) -> Vec<String> {
    values.iter().map(|v| format!("{:.4}", v)).collect()
}

#[test]
fn test_zipf_iterator_rng_consistency() {
    let zipf = zipf(1.0, 10.0, 1.5);

    let mut iter1 = ZipfIterator::with_seed(zipf, 42);
    let mut iter2 = ZipfIterator::with_seed(zipf, 42);

    let seq1: Vec<f64> = values(&mut iter1, 10);
    let seq2: Vec<f64> = values(&mut iter2, 10);

    assert_eq!(seq1, seq2, "Same seed should produce identical sequences");
}

#[test]
fn test_zipf_iterator_different_rngs() {
    let zipf = zipf(1.0, 5.0, 1.2);
    let mut iter = ZipfIterator::with_seed(zipf, 123);

    let seq1: Vec<f64> = values(&mut iter, 5);

    iter = ZipfIterator::with_seed(zipf, 456);
    let seq2: Vec<f64> = values(&mut iter, 5);

    assert_ne!(
        seq1, seq2,
        "Different seeds should produce different sequences"
    );
}

#[test]
fn test_zipf_iterator_rng_reproducibility() {
    let zipf = zipf(2.0, 8.0, 0.9);
    let mut iter = zipf.iter().with_rng(StdRng::seed_from_u64(789));

    let seq1: Vec<f64> = values(&mut iter, 8);

    iter = zipf.iter().with_rng(StdRng::seed_from_u64(789));
    let seq2: Vec<f64> = values(&mut iter, 8);

    assert_eq!(seq1, seq2, "Same seed should reproduce identical sequence");
}

#[test]
fn test_indices_access_iteration() {
    let mut iter = Zipf::indices_access(1..10, d(0.7)).unwrap();
    let samples: Vec<usize> = indices(&mut iter, 100);

    assert_eq!(samples, vec![
        1, 4, 3, 1, 8, 9, 2, 7, 1, 1, 4, 8, 7, 3, 6, 8, 2, 2, 2, 8, 7, 6, 2, 5, 9, 3, 8, 4, 4,
        4, 2, 3, 1, 1, 2, 1, 2, 6, 1, 3, 8, 1, 7, 4, 6, 1, 6, 2, 1, 1, 7, 4, 1, 2, 8, 3, 1, 8,
        1, 8, 7, 1, 5, 7, 1, 2, 8, 2, 9, 7, 1, 1, 2, 5, 2, 1, 3, 8, 4, 4, 1, 6, 4, 1, 1, 2, 2,
        8, 7, 1, 6, 1, 8, 5, 6, 7, 1, 1, 1, 5
    ]);
}

#[test]
fn test_indices_access_count() {
    let mut iter = Zipf::indices_access(1..10, d(0.8)).unwrap();

    let counts = indices(&mut iter, 1000)
        .into_iter()
        .fold(HashMap::new(), |mut acc, x| {
            *acc.entry(x).or_insert(0) += 1;
            acc
        });

    assert_eq!(
        counts,
        HashMap::from_iter([
            (1, 236),
            (2, 169),
            (3, 112),
            (4, 114),
            (5, 88),
            (6, 73),
            (7, 81),
            (8, 66),
            (9, 61)
        ])
    );
}

#[test]
fn test_indices_access_count_s_eq_1() {
    let mut iter = Zipf::indices_access(1..10, d(1.0)).unwrap();

    let counts = indices(&mut iter, 1000)
        .into_iter()
        .fold(HashMap::new(), |mut acc, x| {
            *acc.entry(x).or_insert(0) += 1;
            acc
        });

    assert_eq!(
        counts,
        HashMap::from_iter([
            (1, 285),
            (2, 171),
            (3, 123),
            (4, 96),
            (5, 80),
            (6, 69),
            (7, 72),
            (8, 57),
            (9, 47),
        ])
    );
}

#[test]
fn test_array_access_count() {
    let mut iter = Zipf::array_access(3, vec!['a', 'b', 'c', 'd', 'e'], d(0.8)).unwrap();

    let counts = elements(&mut iter, 1000)
        .into_iter()
        .fold(HashMap::new(), |mut acc, x| {
            *acc.entry(x).or_insert(0) += 1;
            acc
        });

    assert_eq!(
        counts,
        HashMap::from_iter([('a', 261), ('b', 205), ('c', 200), ('d', 166), ('e', 168)])
    );
}

#[test]
fn test_indices_access_edge_cases() {
    // Single element range
    let mut iter = Zipf::indices_access(3..4, d(1.0)).unwrap();
    let samples: Vec<usize> = indices(&mut iter, 10);
    assert!(samples.iter().all(|&i| i == 3));

    // Range starting from non-zero
    let mut iter = Zipf::indices_access(5..8, d(1.5)).unwrap();
    let samples: Vec<usize> = indices(&mut iter, 100);
    assert!(samples.iter().all(|&i| (5..8).contains(&i)));
}

#[test]
fn test_array_access_different_types() {
    let single = vec![42];
    let mut iter = Zipf::array_access(2, single, d(2.0)).unwrap();
    let samples: Vec<i32> = elements(&mut iter, 10);
    assert!(samples.iter().all(|&n| n == 42));
}

#[test]
fn test_zipf_distribution_strength() {
    let mut iter = Zipf::indices_access(1..11, d(2.0)).unwrap();
    let samples: Vec<usize> = indices(&mut iter, 10000);

    let mut counts = [0; 11];
    for &idx in &samples {
        counts[idx] += 1;
    }

    assert!(
        counts[1] > counts[6] * 2,
        "With s=2.0, index 1 should be much more frequent than index 6"
    );
}

#[test]
fn default_seed_gives_the_recorded_values() {
    let zipf = zipf(1.0, 100.0, 1.5);
    assert_eq!(DEFAULT_SEED, 666);
    let mut iter = zipf.iter();
    assert_eq!(
        four_places(&values(&mut iter, 3)),
        vec!["1.4376", "3.7734", "2.5003"]
    );
    let mut same = ZipfIterator::with_seed(zipf, 666);
    assert_eq!(
        four_places(&values(&mut same, 3)),
        vec!["1.4376", "3.7734", "2.5003"]
    );
}

#[test]
fn explicit_seed_gives_the_recorded_values() {
    let zipf = zipf(1.0, 100.0, 1.5);
    let mut iter = ZipfIterator::with_seed(zipf, 42);
    assert_eq!(
        four_places(&values(&mut iter, 3)),
        vec!["3.6130", "3.8215", "5.4799"]
    );
}

#[test]
fn explicit_generator_gives_the_recorded_values() {
    let zipf = zipf(1.0, 100.0, 1.5);
    let mut iter = zipf.iter().with_rng(StdRng::seed_from_u64(123));
    assert_eq!(
        four_places(&values(&mut iter, 3)),
        vec!["1.4036", "1.3429", "37.9130"]
    );
}

#[test]
fn same_seed_same_first_ten_values() {
    let zipf = zipf(1.0, 100.0, 1.5);
    let first = values(&mut ZipfIterator::with_seed(zipf, 42), 10);
    let second = values(&mut ZipfIterator::with_seed(zipf, 42), 10);
    assert_eq!(first, second);
    let mut one = ZipfIterator::with_seed(zipf, 42);
    let mut other = ZipfIterator::with_seed(zipf, 42);
    assert_eq!(one.take(10), other.take(10));
}

#[test]
fn draws_one_by_one_are_the_draws_taken_together() {
    let zipf = zipf(1.0, 100.0, 1.5);
    let mut one = ZipfIterator::with_seed(zipf, 7);
    let mut other = ZipfIterator::with_seed(zipf, 7);
    let together = one.take(25);
    assert_eq!(together.len(), 25);
    for u in together {
        assert_eq!(other.next_uniform(), u);
    }
    assert_eq!(one.next_uniform(), other.next_uniform());
    assert_eq!(one.take(0), Vec::new());
}

#[test]
fn draws_lie_in_the_unit_interval() {
    let zipf = zipf(1.0, 100.0, 1.5);
    let mut iter = zipf.iter();
    for u in iter.take(2000) {
        assert!(Double::zero().le(u));
        assert!(u.lt(Double::one()));
        assert!(0.0 <= f(u) && f(u) < 1.0);
    }
}

#[test]
fn transform_at_one_half_is_the_recorded_value() {
    let zipf = zipf(1.0, 100.0, 1.1);
    assert_eq!(zipf.regime(), Regime::NonOne);
    let value = f(sample(&zipf, d(0.5)));
    assert_eq!(format!("{:.4}", value), "7.6891");
}

#[test]
fn power_one_selects_the_logarithmic_regime() {
    let zipf = Zipf::new(d(1.0)..d(1000000.0), d(1.0));
    assert!(zipf.is_ok());
    let zipf = zipf.unwrap();
    assert_eq!(zipf.regime(), Regime::One);
    let value = f(sample(&zipf, d(0.5)));
    assert!((value - 1000.0).abs() < 1e-9);
}

#[test]
fn clone_draws_the_same_and_advances_alone() {
    let zipf = zipf(1.0, 100.0, 1.5);
    let mut one = ZipfIterator::with_seed(zipf, 99);
    one.take(5);
    let mut copy = one.clone();
    assert_eq!(copy.zipf().end(), d(100.0));
    let ahead = copy.take(4);
    assert_eq!(one.take(4), ahead);
    let next = one.next_uniform();
    assert_eq!(copy.next_uniform(), next);
    copy.take(3);
    assert_ne!(one.next_uniform(), copy.next_uniform());
}

#[test]
fn samples_of_an_index_range_stay_in_the_range() {
    let mut access = Zipf::indices_access(1..10, d(0.7)).unwrap();
    let zipf = access.zipf();
    for _ in 0..2000 {
        let u = access.next_uniform();
        let x = sample(&zipf, u);
        if zipf.start().le(x) && x.lt(zipf.end()) {
            let i = access.index(x);
            assert!(1 <= i && i < 10);
        }
    }
}
