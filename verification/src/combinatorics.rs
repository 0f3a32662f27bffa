//! Factorials, binomial coefficients and permutation counts, over plain
//! `usize` or over `ModInt<M>` (where division is multiplication by
//! `ModInt::inverse`).
use vstd::prelude::*;
use vstd::arithmetic::div_mod::*;
use vstd::arithmetic::mul::*;
use crate::fermat::{binom, is_prime, lemma_binom_absorb, lemma_binom_zero_above};
use crate::modint::{
    ModInt, fits_i64, inverse_fits, inverse_value, lemma_inverse_law, lemma_normalize, modulus_ok,
    normalize,
};

verus! {

/// `n!`.
pub open spec fn fact(n: nat) -> nat
    decreases n,
{
    if n == 0 {
        1
    } else {
        n * fact((n - 1) as nat)
    }
}

/// `n * (n - 1) * ... * (n - k + 1)`: the number of ordered choices of `k`
/// out of `n`.
pub open spec fn falling(n: nat, k: nat) -> nat
    decreases k,
{
    if k == 0 {
        1
    } else {
        n * falling((n - 1) as nat, (k - 1) as nat)
    }
}

/// `n! >= 1`, and factorials grow.
pub proof fn lemma_fact_monotone(a: nat, b: nat)
    requires
        a <= b,
    ensures
        1 <= fact(a) <= fact(b),
    decreases b,
{
    if b > 0 {
        let c = (b - 1) as nat;
        lemma_fact_monotone(if a <= c { a } else { c }, c);
        lemma_mul_increases(b as int, fact(c) as int);
    }
}

/// `n! == falling(n, k) * (n - k)!` for `k <= n`.
pub proof fn lemma_fact_falling(n: nat, k: nat)
    requires
        k <= n,
    ensures
        fact(n) == falling(n, k) * fact((n - k) as nat),
    decreases k,
{
    if k == 0 {
        lemma_mul_basics(fact(n) as int);
    } else {
        lemma_fact_falling((n - 1) as nat, (k - 1) as nat);
        let f = falling((n - 1) as nat, (k - 1) as nat);
        let g = fact((n - k) as nat);
        assert(fact(n) == n * (f * g));
        lemma_mul_is_associative(n as int, f as int, g as int);
    }
}

/// `C(n, k) * k! * (n - k)! == n!` for `k <= n`.
pub proof fn lemma_binom_fact(n: nat, k: nat)
    requires
        k <= n,
    ensures
        binom(n, k) * fact(k) * fact((n - k) as nat) == fact(n),
        binom(n, k) >= 1,
    decreases n,
{
    if k == 0 {
        assert(binom(n, 0) == 1);
        assert(fact(0) == 1);
        lemma_fact_monotone(n, n);
        lemma_mul_basics(fact(n) as int);
    } else {
        lemma_binom_fact((n - 1) as nat, (k - 1) as nat);
        lemma_binom_absorb(n, k);
        let c = binom(n, k) as int;
        let d = binom((n - 1) as nat, (k - 1) as nat) as int;
        let f = fact((k - 1) as nat) as int;
        let g = fact((n - k) as nat) as int;
        assert(((n - 1) - (k - 1)) as nat == (n - k) as nat);
        assert(d * f * g == fact((n - 1) as nat));
        assert(fact(k) == k * f);
        assert(c * (k * f) * g == fact(n)) by (nonlinear_arith)
            requires
                k * c == n * d,
                d * f * g == fact((n - 1) as nat),
                fact(n) == n * fact((n - 1) as nat);
        assert(c >= 1) by (nonlinear_arith)
            requires k * c == n * d, d >= 1, n >= 1, k >= 1, c >= 0;
    }
}

/// A number type that can count: factorials, their inverses, binomial
/// coefficients and permutation counts.
pub trait Counting: Sized + Copy {
    /// `factorial(p)` stays within the type's range.
    spec fn factorial_ok(p: nat) -> bool;

    spec fn factorial_spec(p: nat) -> Self;

    /// `factorial_inv(p)` stays within the type's range.
    spec fn factorial_inv_ok(p: nat) -> bool;

    spec fn factorial_inv_spec(p: nat) -> Self;

    /// `combination(n, k)` neither overflows nor underflows.
    spec fn combination_ok(n: nat, k: nat) -> bool;

    spec fn combination_spec(n: nat, k: nat) -> Self;

    /// `permutation(n, k)` neither overflows nor underflows.
    spec fn permutation_ok(n: nat, k: nat) -> bool;

    spec fn permutation_spec(n: nat, k: nat) -> Self;

    fn factorial(p: usize) -> (r: Self)
        requires
            Self::factorial_ok(p as nat),
        ensures
            r == Self::factorial_spec(p as nat),
    ;

    fn factorial_inv(p: usize) -> (r: Self)
        requires
            Self::factorial_inv_ok(p as nat),
        ensures
            r == Self::factorial_inv_spec(p as nat),
    ;

    fn combination(n: usize, k: usize) -> (r: Self)
        requires
            Self::combination_ok(n as nat, k as nat),
        ensures
            r == Self::combination_spec(n as nat, k as nat),
    ;

    fn permutation(n: usize, k: usize) -> (r: Self)
        requires
            Self::permutation_ok(n as nat, k as nat),
        ensures
            r == Self::permutation_spec(n as nat, k as nat),
    ;
}

/// `p!` in `T`.
pub fn factorial<T: Counting>(p: usize) -> (r: T)
    requires
        T::factorial_ok(p as nat),
    ensures
        r == T::factorial_spec(p as nat),
{
    T::factorial(p)
}

/// The inverse of `p!` in `T` (built as `1 / 2 / 3 / ... / p`).
pub fn factorial_inv<T: Counting>(p: usize) -> (r: T)
    requires
        T::factorial_inv_ok(p as nat),
    ensures
        r == T::factorial_inv_spec(p as nat),
{
    T::factorial_inv(p)
}

/// The number of ways to choose `k` of `n`, in `T`.
pub fn combination<T: Counting>(n: usize, k: usize) -> (r: T)
    requires
        T::combination_ok(n as nat, k as nat),
    ensures
        r == T::combination_spec(n as nat, k as nat),
{
    T::combination(n, k)
}

/// The number of ordered ways to choose `k` of `n`, in `T`.
pub fn permutation<T: Counting>(n: usize, k: usize) -> (r: T)
    requires
        T::permutation_ok(n as nat, k as nat),
    ensures
        r == T::permutation_spec(n as nat, k as nat),
{
    T::permutation(n, k)
}

/// `p!` as `usize`, computing the table of factorials up to `p + 1`.
fn usize_factorial(p: usize) -> (r: usize)
    requires
        fact(p as nat + 1) <= usize::MAX,
    ensures
        r == fact(p as nat),
{
    let mut r: usize = 1;
    let mut i: usize = 0;
    proof { lemma_fact_monotone(p as nat, p as nat + 1); }
    while i < p
        invariant
            i <= p,
            r == fact(i as nat),
            fact(p as nat) <= usize::MAX,
        decreases p - i,
    {
        i = i + 1;
        proof {
            lemma_fact_monotone(i as nat, p as nat);
            lemma_mul_is_commutative(i as int, fact((i - 1) as nat) as int);
        }
        r = r * i;
    }
    r
}

impl Counting for usize {
    /// The table of factorials is filled up to `p + 1`.
    open spec fn factorial_ok(p: nat) -> bool {
        fact(p + 1) <= usize::MAX
    }

    open spec fn factorial_spec(p: nat) -> usize {
        fact(p) as usize
    }

    open spec fn factorial_inv_ok(p: nat) -> bool {
        true
    }

    /// Truncating division: `1 / 2` is already `0`.
    open spec fn factorial_inv_spec(p: nat) -> usize {
        if p <= 1 {
            1
        } else {
            0
        }
    }

    open spec fn combination_ok(n: nat, k: nat) -> bool {
        if k <= 1 {
            true
        } else if k == 2 {
            n >= 1 && n * (n - 1) <= usize::MAX
        } else {
            k <= n && fact(n + 1) <= usize::MAX
        }
    }

    open spec fn combination_spec(n: nat, k: nat) -> usize {
        binom(n, k) as usize
    }

    open spec fn permutation_ok(n: nat, k: nat) -> bool {
        if k <= 1 {
            true
        } else if k == 2 {
            n >= 1 && n * (n - 1) <= usize::MAX
        } else {
            k <= n && fact(n + 1) <= usize::MAX
        }
    }

    open spec fn permutation_spec(n: nat, k: nat) -> usize {
        falling(n, k) as usize
    }

    fn factorial(p: usize) -> (r: usize) {
        usize_factorial(p)
    }

    fn factorial_inv(p: usize) -> (r: usize) {
        let mut r: usize = 1;
        let mut i: usize = 1;
        while i < p
            invariant
                1 <= i,
                p >= 1 ==> i <= p,
                p <= 1 ==> i == 1,
                r == (if i <= 1 { 1usize } else { 0usize }),
            decreases p - i,
        {
            i = i + 1;
            proof { lemma_basic_div(r as int, i as int); }
            r = r / i;
        }
        assert(p <= 1 ==> r == 1);
        assert(p > 1 ==> i == p && r == 0);
        r
    }

    fn combination(n: usize, k: usize) -> (r: usize) {
        if k == 0 {
            return 1;
        } else if k == 1 {
            proof {
                assert(binom(n as nat, 1) == n) by { lemma_binom_one(n as nat); }
            }
            return n;
        } else if k == 2 {
            proof { lemma_binom_two(n as nat); }
            return (n * (n - 1)) / 2;
        }
        let f = usize_factorial(n);
        proof {
            lemma_fact_monotone(k as nat + 1, n as nat + 1);
            lemma_fact_monotone((n - k) as nat + 1, n as nat + 1);
            lemma_binom_fact(n as nat, k as nat);
        }
        let a = usize_factorial(k);
        let b = usize_factorial(n - k);
        let ghost c = binom(n as nat, k as nat) as int;
        proof {
            lemma_mul_is_associative(c, a as int, b as int);
            lemma_fact_monotone(k as nat, k as nat);
            lemma_fact_monotone((n - k) as nat, (n - k) as nat);
            lemma_mul_strictly_positive(a as int, b as int);
            lemma_mul_increases(c, (a * b) as int);
            lemma_div_multiples_vanish(c, (a * b) as int);
            lemma_mul_is_commutative(c, (a * b) as int);
        }
        f / (a * b)
    }

    fn permutation(n: usize, k: usize) -> (r: usize) {
        if k == 0 {
            return 1;
        } else if k == 1 {
            proof { lemma_falling_small(n as nat); }
            return n;
        } else if k == 2 {
            proof { lemma_falling_small(n as nat); }
            return n * (n - 1);
        }
        let f = usize_factorial(n);
        proof {
            lemma_fact_monotone((n - k) as nat + 1, n as nat + 1);
            lemma_fact_falling(n as nat, k as nat);
            lemma_fact_monotone((n - k) as nat, (n - k) as nat);
        }
        let b = usize_factorial(n - k);
        proof {
            lemma_div_multiples_vanish(falling(n as nat, k as nat) as int, b as int);
            lemma_mul_is_commutative(falling(n as nat, k as nat) as int, b as int);
        }
        f / b
    }
}

/// `1 / 2 / ... / p` modulo `m`, as the table of inverse factorials builds it.
pub open spec fn fact_inv_mod(p: nat, m: int) -> int
    decreases p,
{
    if p <= 1 {
        1int % m
    } else {
        (fact_inv_mod((p - 1) as nat, m) * inverse_value(p as int % m, m)) % m
    }
}

/// The product that fills entry `k` of the table of factorials modulo `m`
/// fits in `i64`.
pub open spec fn fact_step_fits(k: nat, m: int) -> bool {
    (fact((k - 1) as nat) as int % m) * (k as int % m) <= i64::MAX
}

/// Filling the table of factorials modulo `m` up to `n` keeps every
/// product within `i64`.
pub open spec fn fact_mod_fits(n: nat, m: int) -> bool {
    forall|k: nat| 2 <= k <= n ==> #[trigger] fact_step_fits(k, m)
}

/// The division that fills entry `k` of the table of inverse factorials
/// modulo `m` stays within `i64`.
pub open spec fn fact_inv_step_fits(k: nat, m: int) -> bool {
    &&& inverse_fits(k as int % m, m)
    &&& fact_inv_mod((k - 1) as nat, m) * inverse_value(k as int % m, m) <= i64::MAX
}

/// Filling the table of inverse factorials modulo `m` up to `n` keeps every
/// product within `i64`.
pub open spec fn fact_inv_fits(n: nat, m: int) -> bool {
    forall|k: nat| 2 <= k <= n ==> #[trigger] fact_inv_step_fits(k, m)
}

/// What `ModInt::new(n as i64)` stores for a count `n`.
pub open spec fn count_residue(n: nat, m: int) -> int {
    normalize((n as i64) as int, m)
}

/// What `combination::<ModInt<M>>(n, k)` stores, for modulus `m`.
pub open spec fn combination_mod(n: nat, k: nat, m: int) -> int {
    if k == 0 {
        1int % m
    } else if k == 1 {
        count_residue(n, m)
    } else if k == 2 {
        normalize(
            normalize(count_residue(n, m) * count_residue((n - 1) as nat, m), m)
                * inverse_value(2int % m, m),
            m,
        )
    } else {
        ((fact(n) as int % m * fact_inv_mod(k, m)) % m * fact_inv_mod((n - k) as nat, m)) % m
    }
}

/// What `permutation::<ModInt<M>>(n, k)` stores, for modulus `m`.
pub open spec fn permutation_mod(n: nat, k: nat, m: int) -> int {
    if k == 0 {
        1int % m
    } else if k == 1 {
        count_residue(n, m)
    } else if k == 2 {
        normalize(count_residue(n, m) * count_residue((n - 1) as nat, m), m)
    } else {
        (fact(n) as int % m * fact_inv_mod((n - k) as nat, m)) % m
    }
}

/// `p!` modulo `M`.
fn mod_factorial<const M: u64>(p: usize) -> (r: ModInt<M>)
    requires
        modulus_ok(M),
        p < i64::MAX,
        fact_mod_fits(p as nat, M as int),
    ensures
        r@ == fact(p as nat) as int % (M as int),
{
    let mut r = ModInt::<M>::new(1);
    let mut i: usize = 1;
    assert(fact(1) == 1) by {
        assert(fact(0) == 1);
        lemma_mul_basics(1);
    }
    while i < p
        invariant
            modulus_ok(M),
            1 <= i,
            p >= 1 ==> i <= p,
            p <= 1 ==> i == 1,
            p < i64::MAX,
            fact_mod_fits(p as nat, M as int),
            r@ == fact(i as nat) as int % (M as int),
        decreases p - i,
    {
        i = i + 1;
        let f = ModInt::<M>::new(i as i64);
        proof {
            let k = i as nat;
            assert(fact_step_fits(k, M as int));
            lemma_mul_nonnegative(r@, f@);
            lemma_mul_mod_noop_general(fact((k - 1) as nat) as int, k as int, M as int);
            lemma_mul_is_commutative(k as int, fact((k - 1) as nat) as int);
        }
        r = r * f;
    }
    r
}

/// `1 / 2 / ... / p` modulo `M`.
fn mod_factorial_inv<const M: u64>(p: usize) -> (r: ModInt<M>)
    requires
        modulus_ok(M),
        p < i64::MAX,
        fact_inv_fits(p as nat, M as int),
    ensures
        r@ == fact_inv_mod(p as nat, M as int),
{
    let mut r = ModInt::<M>::new(1);
    let mut i: usize = 1;
    while i < p
        invariant
            modulus_ok(M),
            1 <= i,
            p >= 1 ==> i <= p,
            p <= 1 ==> i == 1,
            p < i64::MAX,
            fact_inv_fits(p as nat, M as int),
            r@ == fact_inv_mod(i as nat, M as int),
        decreases p - i,
    {
        i = i + 1;
        let f = ModInt::<M>::new(i as i64);
        proof {
            let k = i as nat;
            assert(fact_inv_step_fits(k, M as int));
            lemma_fact_inv_mod_range(k, M as int);
            lemma_inverse_value_range(f@, M as int);
            lemma_mul_nonnegative(r@, inverse_value(f@, M as int));
        }
        r = r / f;
    }
    r
}

/// `fact_inv_mod` is a residue in `0..m`.
pub proof fn lemma_fact_inv_mod_range(p: nat, m: int)
    requires
        m > 0,
    ensures
        0 <= fact_inv_mod(p, m) < m,
    decreases p,
{
    if p <= 1 {
        lemma_mod_bound(1, m);
    } else {
        lemma_mod_bound(fact_inv_mod((p - 1) as nat, m) * inverse_value(p as int % m, m), m);
    }
}

/// `inverse_value` is non-negative.
pub proof fn lemma_inverse_value_range(a: int, m: int)
    requires
        m > 0,
    ensures
        0 <= inverse_value(a, m),
{
    if m - 2 > 0 {
        lemma_mod_bound(vstd::arithmetic::power::pow(a, (m - 2) as nat), m);
    }
}

impl<const M: u64> Counting for ModInt<M> {
    /// The table of factorials is filled up to `p + 1`.
    open spec fn factorial_ok(p: nat) -> bool {
        &&& modulus_ok(M)
        &&& p + 1 < i64::MAX
        &&& fact_mod_fits(p + 1, M as int)
    }

    open spec fn factorial_spec(p: nat) -> ModInt<M> {
        ModInt::spec_from(fact(p) as int % (M as int))
    }

    /// The table of inverse factorials is filled up to `p + 1`.
    open spec fn factorial_inv_ok(p: nat) -> bool {
        &&& modulus_ok(M)
        &&& p + 1 < i64::MAX
        &&& fact_inv_fits(p + 1, M as int)
    }

    open spec fn factorial_inv_spec(p: nat) -> ModInt<M> {
        ModInt::spec_from(fact_inv_mod(p, M as int))
    }

    open spec fn combination_ok(n: nat, k: nat) -> bool {
        let m = M as int;
        &&& modulus_ok(M)
        &&& if k <= 1 {
            true
        } else if k == 2 {
            let c = count_residue(n, m) * count_residue((n - 1) as nat, m);
            &&& n >= 1
            &&& fits_i64(c)
            &&& inverse_fits(2int % m, m)
            &&& fits_i64(normalize(c, m) * inverse_value(2int % m, m))
        } else {
            &&& k <= n
            &&& n + 1 < i64::MAX
            &&& fact_mod_fits(n + 1, m)
            &&& fact_inv_fits(k + 1, m)
            &&& fact_inv_fits((n - k) as nat + 1, m)
            &&& (fact(n) as int % m) * fact_inv_mod(k, m) <= i64::MAX
            &&& ((fact(n) as int % m) * fact_inv_mod(k, m)) % m * fact_inv_mod((n - k) as nat, m)
                <= i64::MAX
        }
    }

    open spec fn combination_spec(n: nat, k: nat) -> ModInt<M> {
        ModInt::spec_from(combination_mod(n, k, M as int))
    }

    open spec fn permutation_ok(n: nat, k: nat) -> bool {
        let m = M as int;
        &&& modulus_ok(M)
        &&& if k <= 1 {
            true
        } else if k == 2 {
            n >= 1 && fits_i64(count_residue(n, m) * count_residue((n - 1) as nat, m))
        } else {
            &&& k <= n
            &&& n + 1 < i64::MAX
            &&& fact_mod_fits(n + 1, m)
            &&& fact_inv_fits((n - k) as nat + 1, m)
            &&& (fact(n) as int % m) * fact_inv_mod((n - k) as nat, m) <= i64::MAX
        }
    }

    open spec fn permutation_spec(n: nat, k: nat) -> ModInt<M> {
        ModInt::spec_from(permutation_mod(n, k, M as int))
    }

    fn factorial(p: usize) -> (r: ModInt<M>) {
        let r = mod_factorial::<M>(p);
        proof { ModInt::lemma_spec_from(r); }
        r
    }

    fn factorial_inv(p: usize) -> (r: ModInt<M>) {
        let r = mod_factorial_inv::<M>(p);
        proof { ModInt::lemma_spec_from(r); }
        r
    }

    fn combination(n: usize, k: usize) -> (r: ModInt<M>) {
        let r = if k == 0 {
            ModInt::new(1)
        } else if k == 1 {
            ModInt::new(n as i64)
        } else if k == 2 {
            (ModInt::new(n as i64) * ModInt::new((n - 1) as i64)) / ModInt::new(2)
        } else {
            proof { lemma_fact_inv_mod_range(k as nat, M as int); }
            let a = mod_factorial::<M>(n) * mod_factorial_inv::<M>(k);
            proof {
                lemma_fact_inv_mod_range((n - k) as nat, M as int);
                lemma_mod_bound(fact(n as nat) as int, M as int);
                lemma_mul_nonnegative(fact(n as nat) as int % (M as int), fact_inv_mod(k as nat, M as int));
            }
            a * mod_factorial_inv::<M>(n - k)
        };
        proof {
            if k >= 3 {
                lemma_mod_bound((fact(n as nat) as int % (M as int)) * fact_inv_mod(k as nat, M as int), M as int);
                lemma_mul_nonnegative(
                    ((fact(n as nat) as int % (M as int)) * fact_inv_mod(k as nat, M as int)) % (M as int),
                    fact_inv_mod((n - k) as nat, M as int),
                );
            }
            ModInt::lemma_spec_from(r);
        }
        r
    }

    fn permutation(n: usize, k: usize) -> (r: ModInt<M>) {
        let r = if k == 0 {
            ModInt::new(1)
        } else if k == 1 {
            ModInt::new(n as i64)
        } else if k == 2 {
            ModInt::new(n as i64) * ModInt::new((n - 1) as i64)
        } else {
            proof {
                lemma_fact_inv_mod_range((n - k) as nat, M as int);
                lemma_mod_bound(fact(n as nat) as int, M as int);
                lemma_mul_nonnegative(fact(n as nat) as int % (M as int), fact_inv_mod((n - k) as nat, M as int));
            }
            mod_factorial::<M>(n) * mod_factorial_inv::<M>(n - k)
        };
        proof { ModInt::lemma_spec_from(r); }
        r
    }
}

/// If `u ≡ 1` and `v ≡ 1` then `c * u * v ≡ c` (modulo `m`).
proof fn lemma_mul_by_units(c: int, u: int, v: int, m: int)
    requires
        m > 0,
        u % m == 1,
        v % m == 1,
    ensures
        (c * u * v) % m == c % m,
{
    lemma_mul_mod_noop_right(c * u, v, m);
    lemma_mul_basics(c * u);
    lemma_mul_mod_noop_right(c, u, m);
    lemma_mul_basics(c);
}

/// Modulo a prime `m > p`, `fact_inv_mod(p, m)` is the inverse of `p!`.
pub proof fn lemma_fact_inv_law(p: nat, m: int)
    requires
        is_prime(m),
        p < m,
    ensures
        (fact_inv_mod(p, m) * fact(p)) % m == 1,
    decreases p,
{
    lemma_small_mod(1, m as nat);
    if p <= 1 {
        assert(fact(0) == 1);
        assert(fact(1) == 1) by { lemma_mul_basics(1); }
        lemma_mul_basics(1);
    } else {
        let q = (p - 1) as nat;
        lemma_fact_inv_law(q, m);
        let a = fact_inv_mod(q, m);
        let i = inverse_value(p as int, m);
        lemma_small_mod(p, m as nat);
        lemma_inverse_law(p as int, m);
        let f = fact(q) as int;
        assert(fact(p) == p * fact(q));
        // ((a * i) % m) * (p * f) ≡ (a * f) * (p * i)
        lemma_mul_mod_noop_left(a * i, p * f, m);
        assert((a * i) * (p * f) == (a * f) * (p * i)) by (nonlinear_arith);
        lemma_mul_by_units(1, a * f, p * i, m);
        lemma_mul_basics(a * f);
        lemma_mul_is_commutative(1, a * f);
    }
}

/// Modulo a prime `m` above `n`, `combination::<ModInt<M>>` gives the binomial
/// coefficient `C(n, k)`.
pub proof fn lemma_combination_law(n: nat, k: nat, m: int)
    requires
        is_prime(m),
        n < m,
        m <= i64::MAX,
        k <= n || k == 1 || (k == 2 && n >= 1),
    ensures
        combination_mod(n, k, m) == binom(n, k) as int % m,
{
    lemma_small_mod(1, m as nat);
    lemma_small_mod(n, m as nat);
    if k == 0 {
    } else if k == 1 {
        lemma_binom_one(n);
        lemma_normalize(n as int, m);
    } else if k == 2 {
        let b = (n - 1) as nat;
        lemma_small_mod(b, m as nat);
        lemma_normalize(n as int, m);
        lemma_normalize(b as int, m);
        assert(count_residue(n, m) == n);
        assert(count_residue(b, m) == b);
        lemma_mul_nonnegative(n as int, b as int);
        lemma_normalize((n * b) as int, m);
        if n <= 1 {
            lemma_binom_zero_above(n, 2);
            assert(n * b == 0) by (nonlinear_arith) requires n <= 1, b == 0;
            lemma_small_mod(0, m as nat);
            lemma_mul_basics(inverse_value(2int % m, m));
            lemma_normalize(0, m);
        } else {
            lemma_binom_two(n);
            lemma_small_mod(2, m as nat);
            lemma_inverse_law(2, m);
            let c = binom(n, 2) as int;
            let i = inverse_value(2, m);
            lemma_inverse_value_range(2, m);
            assert(n * b == 2 * c);
            lemma_mul_nonnegative((2 * c) % m, i);
            lemma_mod_bound(2 * c, m);
            lemma_normalize(((2 * c) % m) * i, m);
            lemma_mul_mod_noop_left(2 * c, i, m);
            assert((2 * c) * i == c * 1 * (2 * i)) by (nonlinear_arith);
            lemma_small_mod(1, m as nat);
            lemma_mul_by_units(c, 1, 2 * i, m);
        }
    } else {
        lemma_binom_fact(n, k);
        lemma_fact_inv_law(k, m);
        lemma_fact_inv_law((n - k) as nat, m);
        let f = fact(n) as int;
        let a = fact(k) as int;
        let g = fact((n - k) as nat) as int;
        let c = binom(n, k) as int;
        let i1 = fact_inv_mod(k, m);
        let i2 = fact_inv_mod((n - k) as nat, m);
        lemma_mul_mod_noop_left(f, i1, m);
        lemma_mul_mod_noop_left(f * i1, i2, m);
        assert(f * i1 * i2 == c * (i1 * a) * (i2 * g)) by (nonlinear_arith)
            requires f == c * a * g;
        lemma_mul_by_units(c, i1 * a, i2 * g, m);
    }
}

/// Modulo a prime `m` above `n`, `permutation::<ModInt<M>>` gives the number
/// of ordered choices `n * (n - 1) * ... * (n - k + 1)`.
pub proof fn lemma_permutation_law(n: nat, k: nat, m: int)
    requires
        is_prime(m),
        n < m,
        m <= i64::MAX,
        k <= n || k == 1 || (k == 2 && n >= 1),
    ensures
        permutation_mod(n, k, m) == falling(n, k) as int % m,
{
    lemma_small_mod(1, m as nat);
    lemma_small_mod(n, m as nat);
    lemma_falling_small(n);
    if k == 0 {
    } else if k == 1 {
        lemma_normalize(n as int, m);
    } else if k == 2 {
        let b = (n - 1) as nat;
        lemma_small_mod(b, m as nat);
        lemma_normalize(n as int, m);
        lemma_normalize(b as int, m);
        lemma_mul_nonnegative(n as int, b as int);
        lemma_normalize((n * b) as int, m);
    } else {
        lemma_fact_falling(n, k);
        lemma_fact_inv_law((n - k) as nat, m);
        let f = fact(n) as int;
        let g = fact((n - k) as nat) as int;
        let c = falling(n, k) as int;
        let i2 = fact_inv_mod((n - k) as nat, m);
        lemma_mul_mod_noop_left(f, i2, m);
        assert(f * i2 == c * 1 * (i2 * g)) by (nonlinear_arith)
            requires f == c * g;
        lemma_mul_by_units(c, 1, i2 * g, m);
    }
}

/// `C(n, 1) == n`.
pub proof fn lemma_binom_one(n: nat)
    ensures
        binom(n, 1) == n,
    decreases n,
{
    if n > 0 {
        lemma_binom_one((n - 1) as nat);
        assert(binom((n - 1) as nat, 0) == 1);
    }
}

/// `2 * C(n, 2) == n * (n - 1)`, so `C(n, 2) == n * (n - 1) / 2`.
pub proof fn lemma_binom_two(n: nat)
    requires
        n >= 1,
    ensures
        2 * binom(n, 2) == n * (n - 1),
        binom(n, 2) == n * (n - 1) / 2,
    decreases n,
{
    lemma_binom_one((n - 1) as nat);
    if n == 1 {
        lemma_binom_zero_above(0, 1);
        lemma_binom_zero_above(0, 2);
    } else {
        lemma_binom_two((n - 1) as nat);
        let m = n - 1;
        let b = binom((n - 1) as nat, 2) as int;
        assert(binom(n, 2) == m + b);
        assert(2 * (m + b) == (m + 1) * m) by (nonlinear_arith)
            requires 2 * b == m * (m - 1);
    }
    lemma_div_multiples_vanish(binom(n, 2) as int, 2);
}

/// `falling(n, 1) == n` and `falling(n, 2) == n * (n - 1)` (for `n >= 1`).
pub proof fn lemma_falling_small(n: nat)
    ensures
        falling(n, 1) == n,
        n >= 1 ==> falling(n, 2) == n * (n - 1),
{
    assert(falling(n, 1) == n * falling((n - 1) as nat, 0));
    lemma_mul_basics(n as int);
    lemma_mul_basics((n - 1) as int);
    let m = (n - 1) as nat;
    assert(falling(m, 1) == m * falling((m - 1) as nat, 0));
}

/// Modulo a prime `M > p`, the product of what `factorial_inv::<ModInt<M>>(p)`
/// and `factorial::<ModInt<M>>(p)` return is one.
pub proof fn lemma_factorial_inv_times_factorial<const M: u64>(p: nat)
    requires
        is_prime(M as int),
        p < M,
        M <= i64::MAX,
    ensures
        normalize(
            ModInt::<M>::factorial_inv_spec(p)@ * ModInt::<M>::factorial_spec(p)@,
            M as int,
        ) == 1,
{
    let m = M as int;
    lemma_fact_inv_mod_range(p, m);
    lemma_mod_bound(fact(p) as int, m);
    ModInt::<M>::lemma_view_spec_from(fact_inv_mod(p, m));
    ModInt::<M>::lemma_view_spec_from(fact(p) as int % m);
    lemma_fact_inv_law(p, m);
    lemma_mul_mod_noop_right(fact_inv_mod(p, m), fact(p) as int, m);
    lemma_mul_nonnegative(fact_inv_mod(p, m), fact(p) as int % m);
}

/// Modulo a prime `M > n`, `combination::<ModInt<M>>(n, k)` returns the
/// binomial coefficient `C(n, k)` reduced modulo `M`.
pub proof fn lemma_combination_value<const M: u64>(n: nat, k: nat)
    requires
        is_prime(M as int),
        n < M,
        M <= i64::MAX,
        k <= n || k == 1 || (k == 2 && n >= 1),
    ensures
        ModInt::<M>::combination_spec(n, k)@ == binom(n, k) as int % (M as int),
{
    lemma_combination_law(n, k, M as int);
    lemma_mod_bound(binom(n, k) as int, M as int);
    ModInt::<M>::lemma_view_spec_from(combination_mod(n, k, M as int));
}

/// Modulo a prime `M > n`, `permutation::<ModInt<M>>(n, k)` returns
/// `n * (n - 1) * ... * (n - k + 1)` reduced modulo `M`.
pub proof fn lemma_permutation_value<const M: u64>(n: nat, k: nat)
    requires
        is_prime(M as int),
        n < M,
        M <= i64::MAX,
        k <= n || k == 1 || (k == 2 && n >= 1),
    ensures
        ModInt::<M>::permutation_spec(n, k)@ == falling(n, k) as int % (M as int),
{
    lemma_permutation_law(n, k, M as int);
    lemma_mod_bound(falling(n, k) as int, M as int);
    ModInt::<M>::lemma_view_spec_from(permutation_mod(n, k, M as int));
}

/// `factorial::<ModInt<M>>(p)` returns `p!` reduced modulo `M`.
pub proof fn lemma_factorial_value<const M: u64>(p: nat)
    requires
        modulus_ok(M),
    ensures
        ModInt::<M>::factorial_spec(p)@ == fact(p) as int % (M as int),
{
    lemma_mod_bound(fact(p) as int, M as int);
    ModInt::<M>::lemma_view_spec_from(fact(p) as int % (M as int));
}

/// `factorial_inv::<ModInt<M>>(p)` returns `fact_inv_mod(p, M)`, the
/// inverse of `p!` modulo a prime `M > p` (see `lemma_fact_inv_law`).
pub proof fn lemma_factorial_inv_value<const M: u64>(p: nat)
    requires
        modulus_ok(M),
    ensures
        ModInt::<M>::factorial_inv_spec(p)@ == fact_inv_mod(p, M as int),
{
    lemma_fact_inv_mod_range(p, M as int);
    ModInt::<M>::lemma_view_spec_from(fact_inv_mod(p, M as int));
}

/// The residue `ModInt::new` stores for a count that fits in `i64` is the
/// count reduced modulo `m`.
proof fn lemma_count_residue(n: nat, m: int)
    requires
        m >= 1,
        n <= i64::MAX,
    ensures
        count_residue(n, m) == n as int % m,
        0 <= count_residue(n, m) < m,
{
    assert((n as i64) as int == n as int);
    lemma_mod_bound(n as int, m);
}

/// The product of two count residues, stored by `new`, is the product of
/// the counts reduced modulo `m`.
proof fn lemma_count_product(n: nat, m: int)
    requires
        m >= 1,
        1 <= n <= i64::MAX,
    ensures
        normalize(count_residue(n, m) * count_residue((n - 1) as nat, m), m) == (n * (n - 1)) as int % m,
{
    let b = (n - 1) as nat;
    lemma_count_residue(n, m);
    lemma_count_residue(b, m);
    lemma_mul_nonnegative(n as int % m, b as int % m);
    lemma_mul_mod_noop_general(n as int, b as int, m);
}

/// For every prime modulus `M` other than two and every count `1 <= n`
/// that fits in `i64` (with no bound between `n` and `M`),
/// `combination::<ModInt<M>>(n, 0)` returns one,
/// `combination::<ModInt<M>>(n, 1)` returns `n` reduced modulo `M` and
/// `combination::<ModInt<M>>(n, 2)` returns `C(n, 2) = n (n - 1) / 2`
/// reduced modulo `M`.
pub proof fn lemma_combination_small_k<const M: u64>(n: nat)
    requires
        is_prime(M as int),
        M != 2,
        M <= i64::MAX,
        1 <= n <= i64::MAX,
    ensures
        ModInt::<M>::combination_spec(n, 0)@ == 1,
        ModInt::<M>::combination_spec(n, 1)@ == n as int % (M as int),
        ModInt::<M>::combination_spec(n, 2)@ == binom(n, 2) as int % (M as int),
        2 * binom(n, 2) == n * (n - 1),
{
    let m = M as int;
    lemma_small_mod(1, m as nat);
    ModInt::<M>::lemma_view_spec_from(1);
    lemma_count_residue(n, m);
    ModInt::<M>::lemma_view_spec_from(count_residue(n, m));
    lemma_binom_two(n);
    lemma_count_product(n, m);
    let c = binom(n, 2) as int;
    let c0 = (n * (n - 1)) as int % m;
    assert((n * (n - 1)) as int == 2 * c);
    lemma_small_mod(2, m as nat);
    lemma_inverse_law(2, m);
    let i = inverse_value(2, m);
    lemma_inverse_value_range(2, m);
    lemma_mod_bound(2 * c, m);
    lemma_mul_nonnegative(c0, i);
    lemma_mul_mod_noop_left(2 * c, i, m);
    assert((2 * c) * i == c * 1 * (2 * i)) by (nonlinear_arith);
    lemma_small_mod(1, m as nat);
    lemma_mul_by_units(c, 1, 2 * i, m);
    assert(combination_mod(n, 2, m) == c % m);
    lemma_mod_bound(c, m);
    ModInt::<M>::lemma_view_spec_from(c % m);
}

/// For every modulus `M` and every count `1 <= n` that fits in `i64`
/// (with no bound between `n` and `M`), `permutation::<ModInt<M>>(n, 0)`
/// returns one (zero modulo one), `permutation::<ModInt<M>>(n, 1)`
/// returns `n` reduced modulo `M` and `permutation::<ModInt<M>>(n, 2)`
/// returns `n (n - 1)` reduced modulo `M`.
pub proof fn lemma_permutation_small_k<const M: u64>(n: nat)
    requires
        modulus_ok(M),
        1 <= n <= i64::MAX,
    ensures
        ModInt::<M>::permutation_spec(n, 0)@ == 1int % (M as int),
        ModInt::<M>::permutation_spec(n, 1)@ == n as int % (M as int),
        ModInt::<M>::permutation_spec(n, 2)@ == falling(n, 2) as int % (M as int),
        falling(n, 2) == n * (n - 1),
{
    let m = M as int;
    lemma_mod_bound(1, m);
    ModInt::<M>::lemma_view_spec_from(1int % m);
    lemma_count_residue(n, m);
    ModInt::<M>::lemma_view_spec_from(count_residue(n, m));
    lemma_falling_small(n);
    lemma_count_product(n, m);
    lemma_mod_bound((n * (n - 1)) as int, m);
    ModInt::<M>::lemma_view_spec_from((n * (n - 1)) as int % m);
}

/// `m` divides `n!` once `n >= m >= 1`.
pub proof fn lemma_fact_mod_zero(n: nat, m: int)
    requires
        1 <= m <= n,
    ensures
        fact(n) as int % m == 0,
    decreases n,
{
    let f = fact((n - 1) as nat) as int;
    if n as int == m {
        lemma_mod_multiples_basic(f, m);
        lemma_mul_is_commutative(f, m);
    } else {
        lemma_fact_mod_zero((n - 1) as nat, m);
        lemma_mul_mod_noop_right(n as int, f, m);
        lemma_mul_basics(n as int);
        lemma_small_mod(0, m as nat);
    }
}

/// Once `n` reaches the modulus, `n!` vanishes modulo `M`: for every
/// `3 <= k <= n`, `combination::<ModInt<M>>(n, k)` and
/// `permutation::<ModInt<M>>(n, k)` return zero.
pub proof fn lemma_counts_vanish<const M: u64>(n: nat, k: nat)
    requires
        modulus_ok(M),
        M <= n,
        3 <= k <= n,
    ensures
        ModInt::<M>::combination_spec(n, k)@ == 0,
        ModInt::<M>::permutation_spec(n, k)@ == 0,
{
    let m = M as int;
    lemma_fact_mod_zero(n, m);
    lemma_mul_basics(fact_inv_mod(k, m));
    lemma_mul_basics(fact_inv_mod((n - k) as nat, m));
    lemma_small_mod(0, m as nat);
    assert(combination_mod(n, k, m) == 0);
    assert(permutation_mod(n, k, m) == 0);
    ModInt::<M>::lemma_view_spec_from(0);
}

} // verus!
