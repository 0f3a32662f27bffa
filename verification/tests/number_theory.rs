use lib::number_theory::{Divisors, PrimeDecompose};
use std::collections::BTreeMap;

fn factors(pairs: &[(i64, usize)]) -> BTreeMap<i64, usize> {
    pairs.iter().cloned().collect()
}

#[test]
fn prime_decompose_composites() {
    assert_eq!(12i64.prime_decompose(), factors(&[(2, 2), (3, 1)]));
    assert_eq!(360i64.prime_decompose(), factors(&[(2, 3), (3, 2), (5, 1)]));
    assert_eq!(1024i64.prime_decompose(), factors(&[(2, 10)]));
    assert_eq!(999_999_999_989i64.prime_decompose(), factors(&[(999_999_999_989, 1)]));
}

#[test]
fn prime_decompose_primes() {
    assert_eq!(2i64.prime_decompose(), factors(&[(2, 1)]));
    assert_eq!(97i64.prime_decompose(), factors(&[(97, 1)]));
    assert_eq!(1_000_000_007i64.prime_decompose(), factors(&[(1_000_000_007, 1)]));
}

#[test]
fn prime_decompose_large_prime_factor() {
    assert_eq!(
        (2i64 * 1_000_000_007).prime_decompose(),
        factors(&[(2, 1), (1_000_000_007, 1)])
    );
}

#[test]
fn prime_decompose_below_two() {
    assert_eq!(1i64.prime_decompose(), factors(&[]));
    assert_eq!(0i64.prime_decompose(), factors(&[(0, 1)]));
    assert_eq!((-6i64).prime_decompose(), factors(&[(-6, 1)]));
}

#[test]
fn divisors_sorted() {
    assert_eq!(12i64.divisors(), vec![1, 2, 3, 4, 6, 12]);
    assert_eq!(36i64.divisors(), vec![1, 2, 3, 4, 6, 9, 12, 18, 36]);
    assert_eq!(16i64.divisors(), vec![1, 2, 4, 8, 16]);
    assert_eq!(13i64.divisors(), vec![1, 13]);
    assert_eq!(1i64.divisors(), vec![1]);
}

#[test]
fn divisors_of_non_positive_are_empty() {
    assert!(0i64.divisors().is_empty());
    assert!((-12i64).divisors().is_empty());
}

#[test]
fn divisors_multiply_back() {
    let n: i64 = 720;
    let d = n.divisors();
    assert_eq!(d.len(), 30);
    for x in &d {
        assert_eq!(n % x, 0);
        assert!(d.contains(&(n / x)));
    }
}

#[test]
fn prime_decompose_i32() {
    let f = |pairs: &[(i32, usize)]| -> BTreeMap<i32, usize> { pairs.iter().cloned().collect() };
    assert_eq!(84i32.prime_decompose(), f(&[(2, 2), (3, 1), (7, 1)]));
    assert_eq!(2_147_395_599i32.prime_decompose().get(&3), Some(&2));
    assert_eq!(1i32.prime_decompose(), f(&[]));
    assert_eq!((-9i32).prime_decompose(), f(&[(-9, 1)]));
    assert_eq!(65_536i32.prime_decompose(), f(&[(2, 16)]));
}

#[test]
fn divisors_i32() {
    assert_eq!(28i32.divisors(), vec![1, 2, 4, 7, 14, 28]);
    assert_eq!(49i32.divisors(), vec![1, 7, 49]);
    assert!(0i32.divisors().is_empty());
    let n: i32 = 2_147_395_599;
    let d = n.divisors();
    assert_eq!(d[0], 1);
    assert_eq!(*d.last().unwrap(), n);
    for w in d.windows(2) {
        assert!(w[0] < w[1]);
    }
    for x in &d {
        assert_eq!(n % x, 0);
    }
}

#[test]
fn prime_decompose_i128() {
    let f = |pairs: &[(i128, usize)]| -> BTreeMap<i128, usize> { pairs.iter().cloned().collect() };
    assert_eq!(600i128.prime_decompose(), f(&[(2, 3), (3, 1), (5, 2)]));
    assert_eq!((1_000_003i128 * 999_983).prime_decompose(), f(&[(999_983, 1), (1_000_003, 1)]));
    assert_eq!(0i128.prime_decompose(), f(&[(0, 1)]));
}

#[test]
fn divisors_i128() {
    assert_eq!(30i128.divisors(), vec![1, 2, 3, 5, 6, 10, 15, 30]);
    assert_eq!(1i128.divisors(), vec![1]);
    assert!((-30i128).divisors().is_empty());
}
