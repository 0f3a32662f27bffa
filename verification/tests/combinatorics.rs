use lib::combinatorics::{combination, factorial, factorial_inv, permutation};
use lib::modint::ModInt;

type Mp = ModInt<1_000_000_007>;

#[test]
fn factorial_usize_values() {
    assert_eq!(factorial::<usize>(0), 1);
    assert_eq!(factorial::<usize>(1), 1);
    assert_eq!(factorial::<usize>(5), 120);
    assert_eq!(factorial::<usize>(10), 3_628_800);
}

#[test]
fn factorial_inv_usize_is_integer_division() {
    // 1 / 2 / 3 / ... in integer arithmetic
    assert_eq!(factorial_inv::<usize>(0), 1);
    assert_eq!(factorial_inv::<usize>(1), 1);
    assert_eq!(factorial_inv::<usize>(2), 0);
    assert_eq!(factorial_inv::<usize>(6), 0);
}

#[test]
fn combination_usize_small_k() {
    assert_eq!(combination::<usize>(7, 0), 1);
    assert_eq!(combination::<usize>(7, 1), 7);
    assert_eq!(combination::<usize>(7, 2), 21);
    assert_eq!(combination::<usize>(0, 0), 1);
}

#[test]
fn combination_usize_general() {
    assert_eq!(combination::<usize>(5, 3), 10);
    assert_eq!(combination::<usize>(10, 3), 120);
    assert_eq!(combination::<usize>(15, 5), 3003);
    assert_eq!(combination::<usize>(6, 6), 1);
}

#[test]
fn permutation_usize_values() {
    assert_eq!(permutation::<usize>(5, 0), 1);
    assert_eq!(permutation::<usize>(5, 1), 5);
    assert_eq!(permutation::<usize>(5, 2), 20);
    assert_eq!(permutation::<usize>(5, 3), 60);
    assert_eq!(permutation::<usize>(10, 10), 3_628_800);
}

#[test]
fn factorial_modint_values() {
    assert_eq!(factorial::<Mp>(5).get(), 120);
    assert_eq!(factorial::<Mp>(20).get(), 146_326_063);
}

#[test]
fn factorial_inv_modint_is_inverse() {
    for p in 0..30usize {
        let f = factorial::<Mp>(p);
        let fi = factorial_inv::<Mp>(p);
        assert_eq!((f * fi).get(), 1);
    }
}

#[test]
fn combination_modint_values() {
    assert_eq!(combination::<Mp>(10, 0).get(), 1);
    assert_eq!(combination::<Mp>(10, 1).get(), 10);
    assert_eq!(combination::<Mp>(10, 2).get(), 45);
    assert_eq!(combination::<Mp>(10, 3).get(), 120);
    assert_eq!(combination::<Mp>(100, 50).get(), 538_992_043);
}

#[test]
fn combination_modint_matches_usize() {
    for n in 0..16usize {
        for k in 0..=n {
            let a = combination::<usize>(n, k);
            let b = combination::<Mp>(n, k);
            assert_eq!(b.get() as usize, a);
        }
    }
}

#[test]
fn permutation_modint_values() {
    assert_eq!(permutation::<Mp>(10, 3).get(), 720);
    assert_eq!(permutation::<Mp>(10, 2).get(), 90);
    assert_eq!(permutation::<Mp>(4, 4).get(), 24);
}

#[test]
fn factorial_value_over_small_prime() {
    type M7 = ModInt<7>;
    assert_eq!(factorial::<M7>(1).get(), 1);
    assert_eq!(factorial::<M7>(4).get(), 3);
    for p in 0..7usize {
        assert_eq!((factorial_inv::<M7>(p) * factorial::<M7>(p)).get(), 1);
    }
}
