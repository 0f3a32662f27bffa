//! Fermat's little theorem, by the binomial theorem and Euclid's lemma.
use vstd::prelude::*;
use vstd::arithmetic::div_mod::*;
use vstd::arithmetic::mul::*;
use vstd::arithmetic::power::*;

verus! {

/// `p` is a prime number.
pub open spec fn is_prime(p: int) -> bool {
    p >= 2 && forall|d: int| 2 <= d < p ==> #[trigger] (p % d) != 0
}

/// Euclid's lemma, for a factor already reduced below `p`.
proof fn lemma_euclid_reduced(a: int, b: int, p: int)
    requires
        is_prime(p),
        0 < a < p,
        (a * b) % p == 0,
    ensures
        b % p == 0,
    decreases a,
{
    if a == 1 {
        assert(a * b == b) by (nonlinear_arith) requires a == 1;
    } else {
        let q = p / a;
        let r = p % a;
        lemma_fundamental_div_mod(p, a);
        lemma_mod_bound(p, a);
        assert(r != 0) by {
            assert(2 <= a < p);
            assert(p % a != 0);
        }
        // r * b = p * b - q * (a * b), a multiple of p
        assert(r * b == p * b - q * (a * b)) by (nonlinear_arith)
            requires p == a * q + r;
        lemma_mod_multiples_basic(b, p);
        assert((p * b) % p == 0) by { lemma_mul_is_commutative(p, b); }
        let k = (a * b) / p;
        lemma_fundamental_div_mod(a * b, p);
        assert(r * b == p * (b - q * k)) by (nonlinear_arith)
            requires r * b == p * b - q * (a * b), a * b == p * k;
        lemma_mod_multiples_basic(b - q * k, p);
        lemma_mul_is_commutative(p, b - q * k);
        lemma_euclid_reduced(r, b, p);
    }
}

/// Euclid's lemma: a prime dividing a product divides one of the factors.
pub proof fn lemma_euclid(a: int, b: int, p: int)
    requires
        is_prime(p),
        (a * b) % p == 0,
    ensures
        a % p == 0 || b % p == 0,
{
    if a % p != 0 {
        lemma_mod_bound(a, p);
        lemma_mul_mod_noop_left(a, b, p);
        lemma_euclid_reduced(a % p, b, p);
    }
}

/// The binomial coefficient, by Pascal's rule.
pub open spec fn binom(n: nat, k: nat) -> nat
    decreases n,
{
    if k == 0 {
        1
    } else if n == 0 {
        0
    } else {
        binom((n - 1) as nat, (k - 1) as nat) + binom((n - 1) as nat, k)
    }
}

pub proof fn lemma_binom_zero_above(n: nat, k: nat)
    requires
        k > n,
    ensures
        binom(n, k) == 0,
    decreases n,
{
    if n > 0 {
        lemma_binom_zero_above((n - 1) as nat, (k - 1) as nat);
        lemma_binom_zero_above((n - 1) as nat, k);
    }
}

pub proof fn lemma_binom_diag(n: nat)
    ensures
        binom(n, n) == 1,
    decreases n,
{
    if n > 0 {
        lemma_binom_diag((n - 1) as nat);
        lemma_binom_zero_above((n - 1) as nat, n);
    }
}

/// The absorption identity `k * C(n, k) == n * C(n - 1, k - 1)`.
pub proof fn lemma_binom_absorb(n: nat, k: nat)
    requires
        n >= 1,
        k >= 1,
    ensures
        k * binom(n, k) == n * binom((n - 1) as nat, (k - 1) as nat),
    decreases n,
{
    let a = binom((n - 1) as nat, (k - 1) as nat);
    let b = binom((n - 1) as nat, k);
    assert(binom(n, k) == a + b);
    if n == 1 {
        if k == 1 {
            assert(a == 1);
            assert(b == 0) by { lemma_binom_zero_above(0, 1); }
            assert(k * binom(n, k) == n * a) by (nonlinear_arith)
                requires k == 1, n == 1, binom(n, k) == a + b, a == 1, b == 0;
        } else {
            lemma_binom_zero_above(0, (k - 1) as nat);
            lemma_binom_zero_above(0, k);
            assert(k * binom(n, k) == n * a) by (nonlinear_arith)
                requires binom(n, k) == a + b, a == 0, b == 0;
        }
    } else {
        // k * b == (n - 1) * C(n-2, k-1)
        lemma_binom_absorb((n - 1) as nat, k);
        let c = binom((n - 2) as nat, (k - 1) as nat);
        if k == 1 {
            assert(a == 1);
            assert(c == 1);
            assert(k * (a + b) == n * a) by (nonlinear_arith)
                requires k == 1, a == 1, k * b == (n - 1) * c, c == 1;
        } else {
            // (k - 1) * a == (n - 1) * C(n-2, k-2)
            lemma_binom_absorb((n - 1) as nat, (k - 1) as nat);
            let d = binom((n - 2) as nat, (k - 2) as nat);
            assert(a == d + c);
            assert(k * (a + b) == n * a) by (nonlinear_arith)
                requires
                    k * b == (n - 1) * c,
                    (k - 1) * a == (n - 1) * d,
                    a == d + c;
        }
    }
}

/// A prime `p` divides `C(p, k)` for `0 < k < p`.
proof fn lemma_prime_divides_binom(p: nat, k: nat)
    requires
        is_prime(p as int),
        0 < k < p,
    ensures
        (binom(p, k) as int) % (p as int) == 0,
{
    lemma_binom_absorb(p, k);
    let c = binom((p - 1) as nat, (k - 1) as nat);
    lemma_mod_multiples_basic(c as int, p as int);
    lemma_mul_is_commutative(c as int, p as int);
    assert(((k as int) * (binom(p, k) as int)) % (p as int) == 0);
    lemma_euclid(k as int, binom(p, k) as int, p as int);
    lemma_small_mod(k, p);
}

/// `sum_{i < j} C(n, i) * a^i`.
pub open spec fn binom_sum(a: int, n: nat, j: nat) -> int
    decreases j,
{
    if j == 0 {
        0
    } else {
        binom_sum(a, n, (j - 1) as nat) + binom(n, (j - 1) as nat) * pow(a, (j - 1) as nat)
    }
}

/// Pascal's rule lifted to the partial sums.
proof fn lemma_binom_sum_pascal(a: int, n: nat, j: nat)
    ensures
        binom_sum(a, n + 1, j + 1) == binom_sum(a, n, j + 1) + a * binom_sum(a, n, j),
    decreases j,
{
    lemma_pow0(a);
    if j == 0 {
        assert(binom_sum(a, n + 1, 0) == 0);
        assert(binom_sum(a, n, 0) == 0);
        assert(binom_sum(a, n + 1, 1) == binom(n + 1, 0) * pow(a, 0));
        assert(binom_sum(a, n, 1) == binom(n, 0) * pow(a, 0));
    } else {
        lemma_binom_sum_pascal(a, n, (j - 1) as nat);
        let t = pow(a, j);
        let s = pow(a, (j - 1) as nat);
        lemma_pow_adds(a, (j - 1) as nat, 1);
        lemma_pow1(a);
        assert(t == s * a);
        assert(binom(n + 1, j) == binom(n, (j - 1) as nat) + binom(n, j));
        let x = binom(n, (j - 1) as nat) as int;
        let y = binom(n, j) as int;
        let p = binom_sum(a, n, (j - 1) as nat);
        assert(binom_sum(a, n + 1, j + 1) == binom_sum(a, n + 1, j) + (x + y) * t);
        assert(binom_sum(a, n, j) == p + x * s);
        assert((x + y) * t + a * p == y * t + a * (p + x * s)) by (nonlinear_arith)
            requires t == s * a;
    }
}

/// The binomial theorem for `(a + 1)^n`.
proof fn lemma_binomial_theorem(a: int, n: nat)
    ensures
        pow(a + 1, n) == binom_sum(a, n, n + 1),
    decreases n,
{
    lemma_pow0(a);
    lemma_pow0(a + 1);
    if n == 0 {
        assert(binom_sum(a, 0, 0) == 0);
        assert(binom_sum(a, 0, 1) == binom(0, 0) * pow(a, 0));
    } else {
        let m = (n - 1) as nat;
        lemma_binomial_theorem(a, m);
        lemma_binom_sum_pascal(a, m, n);
        lemma_binom_zero_above(m, n);
        assert(binom_sum(a, m, n + 1) == binom_sum(a, m, n));
        lemma_pow_adds(a + 1, m, 1);
        lemma_pow1(a + 1);
        assert(pow(a + 1, n) == pow(a + 1, m) * (a + 1));
        let s = binom_sum(a, m, n);
        assert(s * (a + 1) == s + a * s) by (nonlinear_arith);
    }
}

/// Modulo a prime `p`, the inner terms of `sum_{i < j} C(p, i) a^i` vanish.
proof fn lemma_binom_sum_mod_prime(a: int, p: nat, j: nat)
    requires
        is_prime(p as int),
        1 <= j <= p,
    ensures
        binom_sum(a, p, j) % (p as int) == 1int % (p as int),
    decreases j,
{
    lemma_pow0(a);
    if j == 1 {
        assert(binom_sum(a, p, 0) == 0);
        assert(binom_sum(a, p, 1) == binom(p, 0) * pow(a, 0));
        lemma_small_mod(1, p);
    } else {
        let i = (j - 1) as nat;
        lemma_binom_sum_mod_prime(a, p, i);
        lemma_prime_divides_binom(p, i);
        let c = binom(p, i) as int;
        let q = c / (p as int);
        lemma_fundamental_div_mod(c, p as int);
        assert(c * pow(a, i) == (p as int) * (q * pow(a, i))) by (nonlinear_arith)
            requires c == (p as int) * q;
        lemma_mod_multiples_vanish(q * pow(a, i), binom_sum(a, p, i), p as int);
        lemma_mul_is_commutative(p as int, q * pow(a, i));
    }
}

/// Freshman's dream: `(a + 1)^p ≡ a^p + 1` modulo a prime `p`.
proof fn lemma_freshmans_dream(a: int, p: nat)
    requires
        is_prime(p as int),
    ensures
        pow(a + 1, p) % (p as int) == (pow(a, p) + 1) % (p as int),
{
    lemma_binomial_theorem(a, p);
    lemma_binom_sum_mod_prime(a, p, p);
    lemma_binom_diag(p);
    assert(binom_sum(a, p, p + 1) == binom_sum(a, p, p) + pow(a, p));
    lemma_add_mod_noop(binom_sum(a, p, p), pow(a, p), p as int);
    lemma_add_mod_noop(1, pow(a, p), p as int);
}

/// `a^p ≡ a` modulo a prime `p`, for every natural `a`.
proof fn lemma_pow_prime_nat(a: nat, p: nat)
    requires
        is_prime(p as int),
    ensures
        pow(a as int, p) % (p as int) == (a as int) % (p as int),
    decreases a,
{
    if a == 0 {
        lemma0_pow(p);
    } else {
        let b = (a - 1) as nat;
        lemma_pow_prime_nat(b, p);
        lemma_freshmans_dream(b as int, p);
        lemma_add_mod_noop(pow(b as int, p), 1, p as int);
        lemma_add_mod_noop(b as int, 1, p as int);
    }
}

/// Fermat's little theorem: `a^(p-1) ≡ 1` modulo a prime `p` not dividing `a`.
pub proof fn lemma_fermat_little(a: int, p: int)
    requires
        is_prime(p),
        a % p != 0,
    ensures
        pow(a, (p - 1) as nat) % p == 1,
{
    let r = a % p;
    lemma_mod_bound(a, p);
    lemma_pow_prime_nat(r as nat, p as nat);
    lemma_pow_mod_noop(a, (p - 1) as nat, p);
    let e = (p - 1) as nat;
    let t = pow(r, e);
    lemma_pow_adds(r, e, 1);
    lemma_pow1(r);
    assert(pow(r, p as nat) == t * r);
    // r * (t - 1) ≡ 0
    lemma_small_mod(r as nat, p as nat);
    assert((t * r) % p == r % p);
    lemma_sub_mod_noop(t * r, r, p);
    assert((t * r - r) % p == 0) by {
        lemma_small_mod(0, p as nat);
        assert(r % p - r % p == 0);
    }
    assert(t * r - r == r * (t - 1)) by (nonlinear_arith);
    lemma_euclid(r, t - 1, p);
    lemma_sub_mod_noop(t, 1, p);
    lemma_small_mod(1, p as nat);
    lemma_mod_bound(t, p);
    assert((t % p - 1) % p == 0);
    // t % p - 1 lies in (-2, p - 1); zero remainder forces t % p == 1
    if t % p - 1 != 0 {
        if t % p == 0 {
            assert((-1int) % p == p - 1) by { lemma_neg_mod_one(p); }
        } else {
            lemma_small_mod((t % p - 1) as nat, p as nat);
        }
    }
}

proof fn lemma_neg_mod_one(p: int)
    requires
        p >= 2,
    ensures
        (-1int) % p == p - 1,
{
    lemma_fundamental_div_mod_converse(-1, p, -1, p - 1);
}

} // verus!
