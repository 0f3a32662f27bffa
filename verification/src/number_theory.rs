//! Divisors and prime factorisation by trial division.
use vstd::prelude::*;
use vstd::arithmetic::div_mod::*;
use vstd::arithmetic::mul::*;
use vstd::arithmetic::power::*;
use std::collections::BTreeMap;
use crate::fermat::{is_prime, lemma_euclid};

verus! {

/// The largest `i64` whose square is an `i64`.
pub const SQRT_I64_MAX: i64 = 3037000499i64;

/// The largest `i32` whose square is an `i32`.
pub const SQRT_I32_MAX: i32 = 46340i32;

/// The largest `i128` whose square is an `i128`.
pub const SQRT_I128_MAX: i128 = 13043817825332782212i128;

broadcast use vstd::laws_cmp::group_laws_cmp;

/// `m` is the prime factorisation of `n >= 1`: its keys are the primes that
/// divide `n`, each mapped to its exact multiplicity; for `n <= 0` it is
/// `{n: 1}`.
pub open spec fn is_factorization(n: int, m: Map<i64, usize>) -> bool {
    if n <= 0 {
        m == map![n as i64 => 1usize]
    } else {
        &&& forall|p: i64|
            #![trigger m.contains_key(p)]
            #![trigger n % (p as int)]
            m.contains_key(p) <==> (is_prime(p as int) && n % (p as int) == 0)
        &&& forall|p: i64|
            #[trigger] m.contains_key(p) ==> m[p] >= 1 && n % pow(p as int, m[p] as nat) == 0 && n
                % pow(p as int, (m[p] + 1) as nat) != 0
    }
}

/// `is_factorization` for a map keyed by `i32`: the primes dividing `n >= 1`
/// with their exact multiplicities; `{n: 1}` for `n <= 0`.
pub open spec fn is_factorization_i32(n: int, m: Map<i32, usize>) -> bool {
    if n <= 0 {
        m == map![n as i32 => 1usize]
    } else {
        &&& forall|p: i32|
            #![trigger m.contains_key(p)]
            #![trigger n % (p as int)]
            m.contains_key(p) <==> (is_prime(p as int) && n % (p as int) == 0)
        &&& forall|p: i32|
            #[trigger] m.contains_key(p) ==> m[p] >= 1 && n % pow(p as int, m[p] as nat) == 0 && n
                % pow(p as int, (m[p] + 1) as nat) != 0
    }
}

/// `is_factorization` for a map keyed by `i128`: the primes dividing `n >= 1`
/// with their exact multiplicities; `{n: 1}` for `n <= 0`.
pub open spec fn is_factorization_i128(n: int, m: Map<i128, usize>) -> bool {
    if n <= 0 {
        m == map![n as i128 => 1usize]
    } else {
        &&& forall|p: i128|
            #![trigger m.contains_key(p)]
            #![trigger n % (p as int)]
            m.contains_key(p) <==> (is_prime(p as int) && n % (p as int) == 0)
        &&& forall|p: i128|
            #[trigger] m.contains_key(p) ==> m[p] >= 1 && n % pow(p as int, m[p] as nat) == 0 && n
                % pow(p as int, (m[p] + 1) as nat) != 0
    }
}

/// `n` has a divisor `d` with `lo <= d < hi`.
pub open spec fn has_divisor_in(n: int, lo: int, hi: int) -> bool {
    exists|d: int| lo <= d < hi && #[trigger] (n % d) == 0
}

/// Split a number into its prime factors with their multiplicities.
pub trait PrimeDecompose: Sized {
    /// Trial division up to the square root does not overflow.
    spec fn prime_decompose_ok(&self) -> bool;

    /// `m` is the prime factorisation of `self`.
    spec fn factorization_of(&self, m: Map<Self, usize>) -> bool;

    fn prime_decompose(&self) -> (r: BTreeMap<Self, usize>)
        requires
            self.prime_decompose_ok(),
        ensures
            self.factorization_of(r@),
    ;
}

/// Divisibility is transitive.
proof fn lemma_divides_trans(a: int, b: int, d: int)
    requires
        b > 0,
        d > 0,
        a % b == 0,
        b % d == 0,
    ensures
        a % d == 0,
{
    lemma_fundamental_div_mod(a, b);
    lemma_fundamental_div_mod(b, d);
    let x = a / b;
    let y = b / d;
    assert(a == d * (y * x)) by (nonlinear_arith) requires a == b * x, b == d * y;
    lemma_mod_multiples_basic(y * x, d);
    lemma_mul_is_commutative(d, y * x);
}

/// A prime dividing `i^e` divides `i`.
proof fn lemma_prime_divides_pow(q: int, i: int, e: nat)
    requires
        is_prime(q),
        pow(i, e) % q == 0,
    ensures
        i % q == 0,
    decreases e,
{
    if e == 0 {
        lemma_pow0(i);
        lemma_small_mod(1, q as nat);
    } else {
        lemma_pow_adds(i, 1, (e - 1) as nat);
        lemma_pow1(i);
        lemma_euclid(i, pow(i, (e - 1) as nat), q);
        if i % q != 0 {
            lemma_prime_divides_pow(q, i, (e - 1) as nat);
        }
    }
}

/// A number with no divisor in `2..i` and below `i * i` is prime.
proof fn lemma_prime_by_trial(n: int, i: int)
    requires
        n >= 2,
        i >= 2,
        i * i > n,
        forall|d: int| 2 <= d < i ==> #[trigger] (n % d) != 0,
    ensures
        is_prime(n),
{
    assert forall|d: int| 2 <= d < n implies #[trigger] (n % d) != 0 by {
        if n % d == 0 {
            lemma_cofactor(n, d);
            let c = n / d;
            if d >= i {
                assert(c < i) by (nonlinear_arith)
                    requires d * c == n, d >= i, i * i > n, c >= 1, i >= 2;
                assert(c >= 2) by (nonlinear_arith) requires d * c == n, d < n, c >= 1;
                lemma_cofactor(n, c);
                lemma_mul_is_commutative(d, c);
                assert(n % c == 0);
            }
        }
    }
}

/// `2^e <= i^e` for `i >= 2`.
proof fn lemma_pow_two_le(i: int, e: nat)
    requires
        i >= 2,
    ensures
        pow(2, e) <= pow(i, e),
        pow(2, e) >= 1,
    decreases e,
{
    lemma_pow0(2);
    lemma_pow0(i);
    if e > 0 {
        lemma_pow_two_le(i, (e - 1) as nat);
        lemma_pow_adds(2, 1, (e - 1) as nat);
        lemma_pow_adds(i, 1, (e - 1) as nat);
        lemma_pow1(2);
        lemma_pow1(i);
        let a = pow(2, (e - 1) as nat);
        let b = pow(i, (e - 1) as nat);
        assert(2 * a <= i * b) by (nonlinear_arith) requires 1 <= a <= b, i >= 2;
    }
}

impl PrimeDecompose for i64 {
    /// Trial division overflows `i * i` exactly when `n` is at least
    /// `SQRT_I64_MAX^2` and has no divisor below `SQRT_I64_MAX`.
    open spec fn prime_decompose_ok(&self) -> bool {
        (*self as int) < (SQRT_I64_MAX as int) * (SQRT_I64_MAX as int)
            || has_divisor_in(*self as int, 2, SQRT_I64_MAX as int)
    }

    open spec fn factorization_of(&self, m: Map<i64, usize>) -> bool {
        is_factorization(*self as int, m)
    }

    fn prime_decompose(&self) -> (r: BTreeMap<i64, usize>) {
        let n0 = *self;
        let mut n = n0;
        let mut ans: BTreeMap<i64, usize> = BTreeMap::new();
        if n0 < 2 {
            if n != 1 {
                ans.insert(n, 1);
            }
            proof {
                if n0 <= 0 {
                    assert(ans@ =~= map![n0 => 1usize]);
                } else {
                    assert forall|p: i64|
                    #![trigger ans@.contains_key(p)]
                    #![trigger (n0 as int) % (p as int)]
                    ans@.contains_key(p) <==> (is_prime(p as int) && (n0 as int) % (p as int) == 0) by {
                        if is_prime(p as int) && (n0 as int) % (p as int) == 0 {
                            lemma_small_mod(1, p as nat);
                        }
                    }
                }
            }
            return ans;
        }
        let mut i: i64 = 2;
        let ghost mut c: int = 1;
        proof {
            assert forall|q: int| q >= i && is_prime(q) implies #[trigger] (c % q) != 0 by {
                lemma_small_mod(1, q as nat);
            }
        }
        while i * i <= n
            invariant
                2 <= i <= SQRT_I64_MAX,
                i * i <= SQRT_I64_MAX * SQRT_I64_MAX,
                n >= 1,
                n0 >= 2,
                c >= 1,
                n0 as int == c * n,
                (n0 as int) < (SQRT_I64_MAX as int) * (SQRT_I64_MAX as int)
                    || has_divisor_in(n0 as int, 2, SQRT_I64_MAX as int),
                forall|d: int| 2 <= d < i ==> #[trigger] ((n as int) % d) != 0,
                forall|q: int| q >= i && is_prime(q) ==> #[trigger] (c % q) != 0,
                forall|p: i64|
                    #![trigger ans@.contains_key(p)]
                    #![trigger (n0 as int) % (p as int)]
                    ans@.contains_key(p) <==> (2 <= p < i && is_prime(p as int) && (n0 as int) % (
                    p as int) == 0),
                forall|p: i64|
                    #[trigger] ans@.contains_key(p) ==> ans@[p] >= 1 && (n0 as int) % pow(
                        p as int,
                        ans@[p] as nat,
                    ) == 0 && (n0 as int) % pow(p as int, (ans@[p] + 1) as nat) != 0,
            decreases SQRT_I64_MAX - i,
        {
            proof {
                if i == SQRT_I64_MAX {
                    // n >= SQRT^2 and has no small divisor: so c == 1, contradicting the
                    // precondition
                    assert(c == 1) by (nonlinear_arith)
                        requires n0 == c * n, n >= i * i, i == SQRT_I64_MAX, c >= 1, n0 <= i64::MAX;
                    let d = choose|d: int| 2 <= d < SQRT_I64_MAX as int && #[trigger] ((n0 as int) % d) == 0;
                    assert((n as int) % d != 0);
                    assert(false);
                }
            }
            if n % i == 0 {
                let ghost nb = n as int;
                proof {
                    assert forall|d: int| 2 <= d < i implies #[trigger] ((i as int) % d) != 0 by {
                        if (i as int) % d == 0 {
                            lemma_divides_trans(nb, i as int, d);
                        }
                    }
                    assert(is_prime(i as int));
                    lemma_pow1(i as int);
                    lemma_pow0(i as int);
                }
                let mut e: usize = 0;
                while n % i == 0
                    invariant
                        2 <= i,
                        n >= 1,
                        nb <= i64::MAX,
                        nb == pow(i as int, e as nat) * n,
                        e <= 62,
                        e == 0 ==> n == nb,
                    decreases n,
                {
                    let ghost n1 = n as int;
                    proof {
                        lemma_cofactor(n1, i as int);
                        lemma_pow_adds(i as int, e as nat, 1);
                        lemma_pow1(i as int);
                        lemma_mul_is_associative(pow(i as int, e as nat), i as int, n1 / (i as int));
                        assert(n1 / (i as int) < n1) by (nonlinear_arith)
                            requires (i as int) * (n1 / (i as int)) == n1, i >= 2, n1 >= 1;
                        lemma_pow_positive(i as int, (e + 1) as nat);
                        lemma_pow_two_le(i as int, (e + 1) as nat);
                        assert(pow(i as int, (e + 1) as nat) <= nb) by (nonlinear_arith)
                            requires
                                nb == pow(i as int, (e + 1) as nat) * (n1 / (i as int)),
                                n1 / (i as int) >= 1,
                                pow(i as int, (e + 1) as nat) > 0;
                        if e + 1 >= 63 {
                            vstd::arithmetic::power2::lemma2_to64_rest();
                            vstd::arithmetic::power2::lemma_pow2(63);
                            lemma_pow_increases(2, 63, (e + 1) as nat);
                            assert(false);
                        }
                    }
                    n = n / i;
                    e = e + 1;
                }
                proof {
                    let pe = pow(i as int, e as nat);
                    lemma_pow_positive(i as int, e as nat);
                    let c_old = c;
                    c = c * pe;
                    assert(c >= 1) by (nonlinear_arith) requires c == c_old * pe, c_old >= 1, pe >= 1;
                    assert(n0 as int == c * n) by (nonlinear_arith)
                        requires n0 as int == c_old * nb, nb == pe * n, c == c_old * pe;
                    // n0 is divisible by i^e
                    assert((n0 as int) == pe * (c_old * n)) by (nonlinear_arith)
                        requires n0 as int == c_old * nb, nb == pe * n;
                    lemma_mod_multiples_basic(c_old * n, pe);
                    lemma_mul_is_commutative(pe, c_old * n);
                    // but not by i^(e+1)
                    lemma_pow_adds(i as int, e as nat, 1);
                    lemma_pow1(i as int);
                    if (n0 as int) % pow(i as int, (e + 1) as nat) == 0 {
                        let t = (n0 as int) / (pe * i);
                        lemma_mul_strictly_positive(pe, i as int);
                        lemma_fundamental_div_mod(n0 as int, pe * i);
                        assert(pe * (c_old * n) == pe * (i * t)) by (nonlinear_arith)
                            requires n0 as int == pe * (c_old * n), n0 as int == (pe * i) * t;
                        lemma_mul_equality_converse(pe, c_old * n, i * t);
                        lemma_mod_multiples_basic(t, i as int);
                        lemma_mul_is_commutative(t, i as int);
                        lemma_euclid(c_old, n as int, i as int);
                        assert(false);
                    }
                    // c picks up only the prime i
                    assert forall|q: int| q >= i + 1 && is_prime(q) implies #[trigger] (c % q) != 0 by {
                        if c % q == 0 {
                            lemma_euclid(c_old, pe, q);
                            if pe % q == 0 {
                                lemma_prime_divides_pow(q, i as int, e as nat);
                                lemma_small_mod(i as nat, q as nat);
                            }
                        }
                    }
                    // n gained no small divisor
                    assert forall|d: int| 2 <= d < i + 1 implies #[trigger] ((n as int) % d) != 0 by {
                        if (n as int) % d == 0 && d < i {
                            assert(nb == n * pe) by (nonlinear_arith) requires nb == pe * n;
                            lemma_mod_multiples_basic(pe, n as int);
                            lemma_divides_trans(nb, n as int, d);
                        }
                    }
                }
                let ghost ans0 = ans@;
                ans.insert(i, e);
                proof {
                    assert(ans@ == ans0.insert(i, e));
                    assert forall|p: i64|
                        #![trigger ans@.contains_key(p)]
                        #![trigger (n0 as int) % (p as int)]
                        ans@.contains_key(p) <==> (2 <= p < i + 1 && is_prime(p as int) && (n0 as int) % (p as int) == 0) by {
                        if p == i {
                            lemma_pow_mod(i as nat, e as nat);
                            lemma_divides_trans(n0 as int, pow(i as int, e as nat), i as int);
                        }
                    }
                }
            } else {
                proof {
                    assert forall|p: i64|
                        #![trigger ans@.contains_key(p)]
                        #![trigger (n0 as int) % (p as int)]
                        ans@.contains_key(p) <==> (2 <= p < i + 1 && is_prime(p as int) && (n0 as int) % (p as int) == 0) by {
                        if p == i && is_prime(p as int) && (n0 as int) % (p as int) == 0 {
                            assert(!ans@.contains_key(p));
                            assert((c * n) % (i as int) == 0);
                            lemma_euclid(c, n as int, i as int);
                            assert(c % (i as int) != 0);
                            assert((n as int) % (i as int) != 0);
                        }
                    }
                    assert forall|d: int| 2 <= d < i + 1 implies #[trigger] ((n as int) % d) != 0 by {
                    }
                }
            }
            proof {
                assert((i + 1) * (i + 1) <= SQRT_I64_MAX * SQRT_I64_MAX) by (nonlinear_arith)
                    requires i < SQRT_I64_MAX, i >= 1;
            }
            i = i + 1;
        }
        if n != 1 {
            proof {
                lemma_prime_by_trial(n as int, i as int);
                assert(n >= i) by {
                    if n < i {
                        lemma_mod_self_0(n as int);
                    }
                }
            }
            ans.insert(n, 1);
            proof {
                let q = n as int;
                lemma_pow1(q);
                lemma_pow_adds(q, 1, 1);
                lemma_mod_multiples_basic(c, q);
                lemma_mul_is_commutative(c, q);
                if (n0 as int) % pow(q, 2) == 0 {
                    let t = (n0 as int) / (q * q);
                    lemma_mul_strictly_positive(q, q);
                    lemma_fundamental_div_mod(n0 as int, q * q);
                    assert(q * c == q * (q * t)) by (nonlinear_arith)
                        requires n0 as int == c * q, n0 as int == (q * q) * t;
                    lemma_mul_equality_converse(q, c, q * t);
                    lemma_mod_multiples_basic(t, q);
                    lemma_mul_is_commutative(t, q);
                    assert(false);
                }
                assert forall|p: i64|
                    #![trigger ans@.contains_key(p)]
                    #![trigger (n0 as int) % (p as int)]
                    ans@.contains_key(p) <==> (is_prime(p as int) && (n0 as int) % (p as int) == 0) by {
                    if is_prime(p as int) && (n0 as int) % (p as int) == 0 && p >= i && p != n {
                        lemma_euclid(c, q, p as int);
                        lemma_small_mod(0, p as nat);
                        assert(q % (p as int) != 0) by {
                            if p < q {
                            } else {
                                lemma_small_mod(q as nat, p as nat);
                            }
                        }
                    }
                }
            }
        } else {
            proof {
                assert forall|p: i64|
                    #![trigger ans@.contains_key(p)]
                    #![trigger (n0 as int) % (p as int)]
                    ans@.contains_key(p) <==> (is_prime(p as int) && (n0 as int) % (p as int) == 0) by {
                    if is_prime(p as int) && (n0 as int) % (p as int) == 0 && p >= i {
                        assert(c == n0 as int);
                    }
                }
            }
        }
        ans
    }
}

impl PrimeDecompose for i32 {
    /// Trial division overflows `i * i` exactly when `n` is at least
    /// `SQRT_I32_MAX^2` and has no divisor below `SQRT_I32_MAX`.
    open spec fn prime_decompose_ok(&self) -> bool {
        (*self as int) < (SQRT_I32_MAX as int) * (SQRT_I32_MAX as int)
            || has_divisor_in(*self as int, 2, SQRT_I32_MAX as int)
    }

    open spec fn factorization_of(&self, m: Map<i32, usize>) -> bool {
        is_factorization_i32(*self as int, m)
    }

    fn prime_decompose(&self) -> (r: BTreeMap<i32, usize>) {
        let n0 = *self;
        let mut n = n0;
        let mut ans: BTreeMap<i32, usize> = BTreeMap::new();
        if n0 < 2 {
            if n != 1 {
                ans.insert(n, 1);
            }
            proof {
                if n0 <= 0 {
                    assert(ans@ =~= map![n0 => 1usize]);
                } else {
                    assert forall|p: i32|
                    #![trigger ans@.contains_key(p)]
                    #![trigger (n0 as int) % (p as int)]
                    ans@.contains_key(p) <==> (is_prime(p as int) && (n0 as int) % (p as int) == 0) by {
                        if is_prime(p as int) && (n0 as int) % (p as int) == 0 {
                            lemma_small_mod(1, p as nat);
                        }
                    }
                }
            }
            return ans;
        }
        let mut i: i32 = 2;
        let ghost mut c: int = 1;
        proof {
            assert forall|q: int| q >= i && is_prime(q) implies #[trigger] (c % q) != 0 by {
                lemma_small_mod(1, q as nat);
            }
        }
        while i * i <= n
            invariant
                2 <= i <= SQRT_I32_MAX,
                i * i <= SQRT_I32_MAX * SQRT_I32_MAX,
                n >= 1,
                n0 >= 2,
                c >= 1,
                n0 as int == c * n,
                (n0 as int) < (SQRT_I32_MAX as int) * (SQRT_I32_MAX as int)
                    || has_divisor_in(n0 as int, 2, SQRT_I32_MAX as int),
                forall|d: int| 2 <= d < i ==> #[trigger] ((n as int) % d) != 0,
                forall|q: int| q >= i && is_prime(q) ==> #[trigger] (c % q) != 0,
                forall|p: i32|
                    #![trigger ans@.contains_key(p)]
                    #![trigger (n0 as int) % (p as int)]
                    ans@.contains_key(p) <==> (2 <= p < i && is_prime(p as int) && (n0 as int) % (
                    p as int) == 0),
                forall|p: i32|
                    #[trigger] ans@.contains_key(p) ==> ans@[p] >= 1 && (n0 as int) % pow(
                        p as int,
                        ans@[p] as nat,
                    ) == 0 && (n0 as int) % pow(p as int, (ans@[p] + 1) as nat) != 0,
            decreases SQRT_I32_MAX - i,
        {
            proof {
                if i == SQRT_I32_MAX {
                    // n >= SQRT^2 and has no small divisor: so c == 1, contradicting the
                    // precondition
                    assert(c == 1) by (nonlinear_arith)
                        requires n0 == c * n, n >= i * i, i == SQRT_I32_MAX, c >= 1, n0 <= i32::MAX;
                    let d = choose|d: int| 2 <= d < SQRT_I32_MAX as int && #[trigger] ((n0 as int) % d) == 0;
                    assert((n as int) % d != 0);
                    assert(false);
                }
            }
            if n % i == 0 {
                let ghost nb = n as int;
                proof {
                    assert forall|d: int| 2 <= d < i implies #[trigger] ((i as int) % d) != 0 by {
                        if (i as int) % d == 0 {
                            lemma_divides_trans(nb, i as int, d);
                        }
                    }
                    assert(is_prime(i as int));
                    lemma_pow1(i as int);
                    lemma_pow0(i as int);
                }
                let mut e: usize = 0;
                while n % i == 0
                    invariant
                        2 <= i,
                        n >= 1,
                        nb <= i32::MAX,
                        nb == pow(i as int, e as nat) * n,
                        e <= 30,
                        e == 0 ==> n == nb,
                    decreases n,
                {
                    let ghost n1 = n as int;
                    proof {
                        lemma_cofactor(n1, i as int);
                        lemma_pow_adds(i as int, e as nat, 1);
                        lemma_pow1(i as int);
                        lemma_mul_is_associative(pow(i as int, e as nat), i as int, n1 / (i as int));
                        assert(n1 / (i as int) < n1) by (nonlinear_arith)
                            requires (i as int) * (n1 / (i as int)) == n1, i >= 2, n1 >= 1;
                        lemma_pow_positive(i as int, (e + 1) as nat);
                        lemma_pow_two_le(i as int, (e + 1) as nat);
                        assert(pow(i as int, (e + 1) as nat) <= nb) by (nonlinear_arith)
                            requires
                                nb == pow(i as int, (e + 1) as nat) * (n1 / (i as int)),
                                n1 / (i as int) >= 1,
                                pow(i as int, (e + 1) as nat) > 0;
                        if e + 1 >= 31 {
                            vstd::arithmetic::power2::lemma2_to64();
                            vstd::arithmetic::power2::lemma_pow2(31);
                            lemma_pow_increases(2, 31, (e + 1) as nat);
                            assert(false);
                        }
                    }
                    n = n / i;
                    e = e + 1;
                }
                proof {
                    let pe = pow(i as int, e as nat);
                    lemma_pow_positive(i as int, e as nat);
                    let c_old = c;
                    c = c * pe;
                    assert(c >= 1) by (nonlinear_arith) requires c == c_old * pe, c_old >= 1, pe >= 1;
                    assert(n0 as int == c * n) by (nonlinear_arith)
                        requires n0 as int == c_old * nb, nb == pe * n, c == c_old * pe;
                    // n0 is divisible by i^e
                    assert((n0 as int) == pe * (c_old * n)) by (nonlinear_arith)
                        requires n0 as int == c_old * nb, nb == pe * n;
                    lemma_mod_multiples_basic(c_old * n, pe);
                    lemma_mul_is_commutative(pe, c_old * n);
                    // but not by i^(e+1)
                    lemma_pow_adds(i as int, e as nat, 1);
                    lemma_pow1(i as int);
                    if (n0 as int) % pow(i as int, (e + 1) as nat) == 0 {
                        let t = (n0 as int) / (pe * i);
                        lemma_mul_strictly_positive(pe, i as int);
                        lemma_fundamental_div_mod(n0 as int, pe * i);
                        assert(pe * (c_old * n) == pe * (i * t)) by (nonlinear_arith)
                            requires n0 as int == pe * (c_old * n), n0 as int == (pe * i) * t;
                        lemma_mul_equality_converse(pe, c_old * n, i * t);
                        lemma_mod_multiples_basic(t, i as int);
                        lemma_mul_is_commutative(t, i as int);
                        lemma_euclid(c_old, n as int, i as int);
                        assert(false);
                    }
                    // c picks up only the prime i
                    assert forall|q: int| q >= i + 1 && is_prime(q) implies #[trigger] (c % q) != 0 by {
                        if c % q == 0 {
                            lemma_euclid(c_old, pe, q);
                            if pe % q == 0 {
                                lemma_prime_divides_pow(q, i as int, e as nat);
                                lemma_small_mod(i as nat, q as nat);
                            }
                        }
                    }
                    // n gained no small divisor
                    assert forall|d: int| 2 <= d < i + 1 implies #[trigger] ((n as int) % d) != 0 by {
                        if (n as int) % d == 0 && d < i {
                            assert(nb == n * pe) by (nonlinear_arith) requires nb == pe * n;
                            lemma_mod_multiples_basic(pe, n as int);
                            lemma_divides_trans(nb, n as int, d);
                        }
                    }
                }
                let ghost ans0 = ans@;
                ans.insert(i, e);
                proof {
                    assert(ans@ == ans0.insert(i, e));
                    assert forall|p: i32|
                        #![trigger ans@.contains_key(p)]
                        #![trigger (n0 as int) % (p as int)]
                        ans@.contains_key(p) <==> (2 <= p < i + 1 && is_prime(p as int) && (n0 as int) % (p as int) == 0) by {
                        if p == i {
                            lemma_pow_mod(i as nat, e as nat);
                            lemma_divides_trans(n0 as int, pow(i as int, e as nat), i as int);
                        }
                    }
                }
            } else {
                proof {
                    assert forall|p: i32|
                        #![trigger ans@.contains_key(p)]
                        #![trigger (n0 as int) % (p as int)]
                        ans@.contains_key(p) <==> (2 <= p < i + 1 && is_prime(p as int) && (n0 as int) % (p as int) == 0) by {
                        if p == i && is_prime(p as int) && (n0 as int) % (p as int) == 0 {
                            assert(!ans@.contains_key(p));
                            assert((c * n) % (i as int) == 0);
                            lemma_euclid(c, n as int, i as int);
                            assert(c % (i as int) != 0);
                            assert((n as int) % (i as int) != 0);
                        }
                    }
                    assert forall|d: int| 2 <= d < i + 1 implies #[trigger] ((n as int) % d) != 0 by {
                    }
                }
            }
            proof {
                assert((i + 1) * (i + 1) <= SQRT_I32_MAX * SQRT_I32_MAX) by (nonlinear_arith)
                    requires i < SQRT_I32_MAX, i >= 1;
            }
            i = i + 1;
        }
        if n != 1 {
            proof {
                lemma_prime_by_trial(n as int, i as int);
                assert(n >= i) by {
                    if n < i {
                        lemma_mod_self_0(n as int);
                    }
                }
            }
            ans.insert(n, 1);
            proof {
                let q = n as int;
                lemma_pow1(q);
                lemma_pow_adds(q, 1, 1);
                lemma_mod_multiples_basic(c, q);
                lemma_mul_is_commutative(c, q);
                if (n0 as int) % pow(q, 2) == 0 {
                    let t = (n0 as int) / (q * q);
                    lemma_mul_strictly_positive(q, q);
                    lemma_fundamental_div_mod(n0 as int, q * q);
                    assert(q * c == q * (q * t)) by (nonlinear_arith)
                        requires n0 as int == c * q, n0 as int == (q * q) * t;
                    lemma_mul_equality_converse(q, c, q * t);
                    lemma_mod_multiples_basic(t, q);
                    lemma_mul_is_commutative(t, q);
                    assert(false);
                }
                assert forall|p: i32|
                    #![trigger ans@.contains_key(p)]
                    #![trigger (n0 as int) % (p as int)]
                    ans@.contains_key(p) <==> (is_prime(p as int) && (n0 as int) % (p as int) == 0) by {
                    if is_prime(p as int) && (n0 as int) % (p as int) == 0 && p >= i && p != n {
                        lemma_euclid(c, q, p as int);
                        lemma_small_mod(0, p as nat);
                        assert(q % (p as int) != 0) by {
                            if p < q {
                            } else {
                                lemma_small_mod(q as nat, p as nat);
                            }
                        }
                    }
                }
            }
        } else {
            proof {
                assert forall|p: i32|
                    #![trigger ans@.contains_key(p)]
                    #![trigger (n0 as int) % (p as int)]
                    ans@.contains_key(p) <==> (is_prime(p as int) && (n0 as int) % (p as int) == 0) by {
                    if is_prime(p as int) && (n0 as int) % (p as int) == 0 && p >= i {
                        assert(c == n0 as int);
                    }
                }
            }
        }
        ans
    }
}

impl PrimeDecompose for i128 {
    /// Trial division overflows `i * i` exactly when `n` is at least
    /// `SQRT_I128_MAX^2` and has no divisor below `SQRT_I128_MAX`.
    open spec fn prime_decompose_ok(&self) -> bool {
        (*self as int) < (SQRT_I128_MAX as int) * (SQRT_I128_MAX as int)
            || has_divisor_in(*self as int, 2, SQRT_I128_MAX as int)
    }

    open spec fn factorization_of(&self, m: Map<i128, usize>) -> bool {
        is_factorization_i128(*self as int, m)
    }

    fn prime_decompose(&self) -> (r: BTreeMap<i128, usize>) {
        let n0 = *self;
        let mut n = n0;
        let mut ans: BTreeMap<i128, usize> = BTreeMap::new();
        if n0 < 2 {
            if n != 1 {
                ans.insert(n, 1);
            }
            proof {
                if n0 <= 0 {
                    assert(ans@ =~= map![n0 => 1usize]);
                } else {
                    assert forall|p: i128|
                    #![trigger ans@.contains_key(p)]
                    #![trigger (n0 as int) % (p as int)]
                    ans@.contains_key(p) <==> (is_prime(p as int) && (n0 as int) % (p as int) == 0) by {
                        if is_prime(p as int) && (n0 as int) % (p as int) == 0 {
                            lemma_small_mod(1, p as nat);
                        }
                    }
                }
            }
            return ans;
        }
        let mut i: i128 = 2;
        let ghost mut c: int = 1;
        proof {
            assert forall|q: int| q >= i && is_prime(q) implies #[trigger] (c % q) != 0 by {
                lemma_small_mod(1, q as nat);
            }
        }
        while i * i <= n
            invariant
                2 <= i <= SQRT_I128_MAX,
                i * i <= SQRT_I128_MAX * SQRT_I128_MAX,
                n >= 1,
                n0 >= 2,
                c >= 1,
                n0 as int == c * n,
                (n0 as int) < (SQRT_I128_MAX as int) * (SQRT_I128_MAX as int)
                    || has_divisor_in(n0 as int, 2, SQRT_I128_MAX as int),
                forall|d: int| 2 <= d < i ==> #[trigger] ((n as int) % d) != 0,
                forall|q: int| q >= i && is_prime(q) ==> #[trigger] (c % q) != 0,
                forall|p: i128|
                    #![trigger ans@.contains_key(p)]
                    #![trigger (n0 as int) % (p as int)]
                    ans@.contains_key(p) <==> (2 <= p < i && is_prime(p as int) && (n0 as int) % (
                    p as int) == 0),
                forall|p: i128|
                    #[trigger] ans@.contains_key(p) ==> ans@[p] >= 1 && (n0 as int) % pow(
                        p as int,
                        ans@[p] as nat,
                    ) == 0 && (n0 as int) % pow(p as int, (ans@[p] + 1) as nat) != 0,
            decreases SQRT_I128_MAX - i,
        {
            proof {
                if i == SQRT_I128_MAX {
                    // n >= SQRT^2 and has no small divisor: so c == 1, contradicting the
                    // precondition
                    assert(c == 1) by (nonlinear_arith)
                        requires n0 == c * n, n >= i * i, i == SQRT_I128_MAX, c >= 1, n0 <= i128::MAX;
                    let d = choose|d: int| 2 <= d < SQRT_I128_MAX as int && #[trigger] ((n0 as int) % d) == 0;
                    assert((n as int) % d != 0);
                    assert(false);
                }
            }
            if n % i == 0 {
                let ghost nb = n as int;
                proof {
                    assert forall|d: int| 2 <= d < i implies #[trigger] ((i as int) % d) != 0 by {
                        if (i as int) % d == 0 {
                            lemma_divides_trans(nb, i as int, d);
                        }
                    }
                    assert(is_prime(i as int));
                    lemma_pow1(i as int);
                    lemma_pow0(i as int);
                }
                let mut e: usize = 0;
                while n % i == 0
                    invariant
                        2 <= i,
                        n >= 1,
                        nb <= i128::MAX,
                        nb == pow(i as int, e as nat) * n,
                        e <= 126,
                        e == 0 ==> n == nb,
                    decreases n,
                {
                    let ghost n1 = n as int;
                    proof {
                        lemma_cofactor(n1, i as int);
                        lemma_pow_adds(i as int, e as nat, 1);
                        lemma_pow1(i as int);
                        lemma_mul_is_associative(pow(i as int, e as nat), i as int, n1 / (i as int));
                        assert(n1 / (i as int) < n1) by (nonlinear_arith)
                            requires (i as int) * (n1 / (i as int)) == n1, i >= 2, n1 >= 1;
                        lemma_pow_positive(i as int, (e + 1) as nat);
                        lemma_pow_two_le(i as int, (e + 1) as nat);
                        assert(pow(i as int, (e + 1) as nat) <= nb) by (nonlinear_arith)
                            requires
                                nb == pow(i as int, (e + 1) as nat) * (n1 / (i as int)),
                                n1 / (i as int) >= 1,
                                pow(i as int, (e + 1) as nat) > 0;
                        if e + 1 >= 127 {
                            vstd::arithmetic::power2::lemma2_to64();
                            vstd::arithmetic::power2::lemma2_to64_rest();
                            vstd::arithmetic::power2::lemma_pow2(64);
                            vstd::arithmetic::power2::lemma_pow2(63);
                            lemma_pow_adds(2, 64, 63);
                            lemma_pow_increases(2, 127, (e + 1) as nat);
                            assert(false);
                        }
                    }
                    n = n / i;
                    e = e + 1;
                }
                proof {
                    let pe = pow(i as int, e as nat);
                    lemma_pow_positive(i as int, e as nat);
                    let c_old = c;
                    c = c * pe;
                    assert(c >= 1) by (nonlinear_arith) requires c == c_old * pe, c_old >= 1, pe >= 1;
                    assert(n0 as int == c * n) by (nonlinear_arith)
                        requires n0 as int == c_old * nb, nb == pe * n, c == c_old * pe;
                    // n0 is divisible by i^e
                    assert((n0 as int) == pe * (c_old * n)) by (nonlinear_arith)
                        requires n0 as int == c_old * nb, nb == pe * n;
                    lemma_mod_multiples_basic(c_old * n, pe);
                    lemma_mul_is_commutative(pe, c_old * n);
                    // but not by i^(e+1)
                    lemma_pow_adds(i as int, e as nat, 1);
                    lemma_pow1(i as int);
                    if (n0 as int) % pow(i as int, (e + 1) as nat) == 0 {
                        let t = (n0 as int) / (pe * i);
                        lemma_mul_strictly_positive(pe, i as int);
                        lemma_fundamental_div_mod(n0 as int, pe * i);
                        assert(pe * (c_old * n) == pe * (i * t)) by (nonlinear_arith)
                            requires n0 as int == pe * (c_old * n), n0 as int == (pe * i) * t;
                        lemma_mul_equality_converse(pe, c_old * n, i * t);
                        lemma_mod_multiples_basic(t, i as int);
                        lemma_mul_is_commutative(t, i as int);
                        lemma_euclid(c_old, n as int, i as int);
                        assert(false);
                    }
                    // c picks up only the prime i
                    assert forall|q: int| q >= i + 1 && is_prime(q) implies #[trigger] (c % q) != 0 by {
                        if c % q == 0 {
                            lemma_euclid(c_old, pe, q);
                            if pe % q == 0 {
                                lemma_prime_divides_pow(q, i as int, e as nat);
                                lemma_small_mod(i as nat, q as nat);
                            }
                        }
                    }
                    // n gained no small divisor
                    assert forall|d: int| 2 <= d < i + 1 implies #[trigger] ((n as int) % d) != 0 by {
                        if (n as int) % d == 0 && d < i {
                            assert(nb == n * pe) by (nonlinear_arith) requires nb == pe * n;
                            lemma_mod_multiples_basic(pe, n as int);
                            lemma_divides_trans(nb, n as int, d);
                        }
                    }
                }
                let ghost ans0 = ans@;
                ans.insert(i, e);
                proof {
                    assert(ans@ == ans0.insert(i, e));
                    assert forall|p: i128|
                        #![trigger ans@.contains_key(p)]
                        #![trigger (n0 as int) % (p as int)]
                        ans@.contains_key(p) <==> (2 <= p < i + 1 && is_prime(p as int) && (n0 as int) % (p as int) == 0) by {
                        if p == i {
                            lemma_pow_mod(i as nat, e as nat);
                            lemma_divides_trans(n0 as int, pow(i as int, e as nat), i as int);
                        }
                    }
                }
            } else {
                proof {
                    assert forall|p: i128|
                        #![trigger ans@.contains_key(p)]
                        #![trigger (n0 as int) % (p as int)]
                        ans@.contains_key(p) <==> (2 <= p < i + 1 && is_prime(p as int) && (n0 as int) % (p as int) == 0) by {
                        if p == i && is_prime(p as int) && (n0 as int) % (p as int) == 0 {
                            assert(!ans@.contains_key(p));
                            assert((c * n) % (i as int) == 0);
                            lemma_euclid(c, n as int, i as int);
                            assert(c % (i as int) != 0);
                            assert((n as int) % (i as int) != 0);
                        }
                    }
                    assert forall|d: int| 2 <= d < i + 1 implies #[trigger] ((n as int) % d) != 0 by {
                    }
                }
            }
            proof {
                assert((i + 1) * (i + 1) <= SQRT_I128_MAX * SQRT_I128_MAX) by (nonlinear_arith)
                    requires i < SQRT_I128_MAX, i >= 1;
            }
            i = i + 1;
        }
        if n != 1 {
            proof {
                lemma_prime_by_trial(n as int, i as int);
                assert(n >= i) by {
                    if n < i {
                        lemma_mod_self_0(n as int);
                    }
                }
            }
            ans.insert(n, 1);
            proof {
                let q = n as int;
                lemma_pow1(q);
                lemma_pow_adds(q, 1, 1);
                lemma_mod_multiples_basic(c, q);
                lemma_mul_is_commutative(c, q);
                if (n0 as int) % pow(q, 2) == 0 {
                    let t = (n0 as int) / (q * q);
                    lemma_mul_strictly_positive(q, q);
                    lemma_fundamental_div_mod(n0 as int, q * q);
                    assert(q * c == q * (q * t)) by (nonlinear_arith)
                        requires n0 as int == c * q, n0 as int == (q * q) * t;
                    lemma_mul_equality_converse(q, c, q * t);
                    lemma_mod_multiples_basic(t, q);
                    lemma_mul_is_commutative(t, q);
                    assert(false);
                }
                assert forall|p: i128|
                    #![trigger ans@.contains_key(p)]
                    #![trigger (n0 as int) % (p as int)]
                    ans@.contains_key(p) <==> (is_prime(p as int) && (n0 as int) % (p as int) == 0) by {
                    if is_prime(p as int) && (n0 as int) % (p as int) == 0 && p >= i && p != n {
                        lemma_euclid(c, q, p as int);
                        lemma_small_mod(0, p as nat);
                        assert(q % (p as int) != 0) by {
                            if p < q {
                            } else {
                                lemma_small_mod(q as nat, p as nat);
                            }
                        }
                    }
                }
            }
        } else {
            proof {
                assert forall|p: i128|
                    #![trigger ans@.contains_key(p)]
                    #![trigger (n0 as int) % (p as int)]
                    ans@.contains_key(p) <==> (is_prime(p as int) && (n0 as int) % (p as int) == 0) by {
                    if is_prime(p as int) && (n0 as int) % (p as int) == 0 && p >= i {
                        assert(c == n0 as int);
                    }
                }
            }
        }
        ans
    }
}

/// The numbers that divide `n`, listed in increasing order
/// (none for `n <= 0`).
pub open spec fn lists_divisors(n: int, s: Seq<int>) -> bool {
    &&& n <= 0 ==> s.len() == 0
    &&& forall|a: int, b: int| 0 <= a < b < s.len() ==> s[a] < s[b]
    &&& forall|d: int|
        #![trigger s.contains(d)]
        #![trigger n % d]
        s.contains(d) <==> (n >= 1 && 1 <= d && n % d == 0)
}

/// List every divisor of a number, in increasing order.
pub trait Divisors: Sized {
    /// Trial division up to the square root does not overflow.
    spec fn divisors_ok(&self) -> bool;

    /// `s` lists exactly the divisors of `self`, in increasing order.
    spec fn divisor_listing(&self, s: Seq<Self>) -> bool;

    fn divisors(&self) -> (r: Vec<Self>)
        requires
            self.divisors_ok(),
        ensures
            self.divisor_listing(r@),
    ;
}

/// Facts about a divisor pair `d * e == n`.
proof fn lemma_cofactor(n: int, d: int)
    requires
        n >= 1,
        d >= 1,
        n % d == 0,
    ensures
        d * (n / d) == n,
        n / d >= 1,
        n % (n / d) == 0,
        n / (n / d) == d,
{
    lemma_fundamental_div_mod(n, d);
    let e = n / d;
    assert(e >= 1) by (nonlinear_arith) requires d * e == n, n >= 1, d >= 1;
    lemma_mod_multiples_basic(d, e);
    lemma_mul_is_commutative(d, e);
    lemma_div_multiples_vanish(d, e);
}

impl Divisors for i64 {
    /// Trial division runs `i` up to the first `i` with `i * i > n`; that
    /// square overflows once `n` reaches `SQRT_I64_MAX^2`.
    open spec fn divisors_ok(&self) -> bool {
        (*self as int) < (SQRT_I64_MAX as int) * (SQRT_I64_MAX as int)
    }

    open spec fn divisor_listing(&self, s: Seq<i64>) -> bool {
        lists_divisors(*self as int, s.map_values(|x: i64| x as int))
    }

    fn divisors(&self) -> (r: Vec<i64>) {
        let n = *self;
        let mut lo: Vec<i64> = Vec::new();
        let mut hi: Vec<i64> = Vec::new();
        if n < 1 {
            return lo;
        }
        let mut i: i64 = 1;
        proof {
            assert forall|e: i64|
                hi@.contains(e) <==> (1 <= e && (n % e) == 0 && e * e > n && #[trigger] (n / e) < i) by {
                if 1 <= e && (n % e) == 0 {
                    lemma_cofactor(n as int, e as int);
                }
            }
        }
        while i * i <= n
            invariant
                1 <= i <= SQRT_I64_MAX,
                i * i <= SQRT_I64_MAX * SQRT_I64_MAX,
                n >= 1,
                (n as int) < (SQRT_I64_MAX as int) * (SQRT_I64_MAX as int),
                (i - 1) * (i - 1) <= n,
                forall|a: int, b: int| 0 <= a < b < lo@.len() ==> lo@[a] < lo@[b],
                forall|a: int, b: int| 0 <= a < b < hi@.len() ==> hi@[a] > hi@[b],
                forall|d: i64| lo@.contains(d) <==> (1 <= d < i && #[trigger] (n % d) == 0),
                forall|e: i64|
                    hi@.contains(e) <==> (1 <= e && (n % e) == 0 && e * e > n && #[trigger] (n
                        / e) < i),
                forall|k: int|
                    0 <= k < hi@.len() ==> 1 <= #[trigger] hi@[k] && n % hi@[k] == 0 && hi@[k]
                        * hi@[k] > n && n / hi@[k] < i,
                forall|k: int| 0 <= k < lo@.len() ==> 1 <= #[trigger] lo@[k] < i && n % lo@[k] == 0,
            decreases SQRT_I64_MAX - i,
        {
            proof {
                assert(i < SQRT_I64_MAX) by (nonlinear_arith)
                    requires i * i <= n, n < SQRT_I64_MAX * SQRT_I64_MAX, i >= 1;
            }
            let ghost lo0 = lo@;
            let ghost hi0 = hi@;
            if n % i == 0 {
                lo.push(i);
                if i * i != n {
                    let e = n / i;
                    proof {
                        lemma_cofactor(n as int, i as int);
                        assert(e > i) by (nonlinear_arith)
                            requires i * e == n, i * i < n, i >= 1;
                        assert(e * e > n) by (nonlinear_arith)
                            requires i * e == n, e > i, i >= 1;
                        assert forall|k: int| 0 <= k < hi@.len() implies hi@[k] > e by {
                            let f = hi@[k];
                            lemma_cofactor(n as int, f as int);
                            let g = n / f;
                            assert(f > e) by (nonlinear_arith)
                                requires g * f == n, i * e == n, g < i, g >= 1, e >= 1;
                        }
                    }
                    hi.push(e);
                }
            }
            proof {
                assert forall|d: i64| lo@.contains(d) <==> (1 <= d < i + 1 && #[trigger] (n % d) == 0) by {
                    if lo@.contains(d) {
                        let k = choose|k: int| 0 <= k < lo@.len() && lo@[k] == d;
                        if k < lo0.len() {
                            assert(lo0[k] == d);
                        }
                    }
                    if 1 <= d < i + 1 && n % d == 0 {
                        if d < i {
                            assert(lo0.contains(d));
                            let k = choose|k: int| 0 <= k < lo0.len() && lo0[k] == d;
                            assert(lo@[k] == d);
                        } else {
                            assert(lo@[lo@.len() - 1] == d);
                        }
                    }
                }
                assert forall|e: i64|
                    hi@.contains(e) <==> (1 <= e && (n % e) == 0 && e * e > n && #[trigger] (n
                        / e) < i + 1) by {
                    if hi@.contains(e) {
                        let k = choose|k: int| 0 <= k < hi@.len() && hi@[k] == e;
                        if k < hi0.len() {
                            assert(hi0[k] == e);
                        }
                    }
                    if 1 <= e && (n % e) == 0 && e * e > n && n / e < i + 1 {
                        lemma_cofactor(n as int, e as int);
                        if n / e < i {
                            assert(hi0.contains(e));
                            let k = choose|k: int| 0 <= k < hi0.len() && hi0[k] == e;
                            assert(hi@[k] == e);
                        } else {
                            assert(n / e == i);
                            assert(n % i == 0);
                            lemma_cofactor(n as int, i as int);
                            assert(i * i != n) by (nonlinear_arith)
                                requires e * i == n, e * e > n, i >= 1, e >= 1;
                            lemma_div_multiples_vanish(e as int, i as int);
                            lemma_mul_is_commutative(e as int, i as int);
                            assert(hi@[hi@.len() - 1] == e);
                        }
                    }
                }
                assert((i + 1) * (i + 1) <= SQRT_I64_MAX * SQRT_I64_MAX) by (nonlinear_arith)
                    requires i < SQRT_I64_MAX, i >= 1;
            }
            i = i + 1;
        }
        let mut r = lo;
        let ghost lo_seq = r@;
        let mut k = hi.len();
        while k > 0
            invariant
                k <= hi@.len(),
                r@ == lo_seq + hi@.subrange(k as int, hi@.len() as int).reverse(),
            decreases k,
        {
            k = k - 1;
            r.push(hi[k]);
            proof {
                assert(r@ =~= lo_seq + hi@.subrange(k as int, hi@.len() as int).reverse());
            }
        }
        proof {
            let h = hi@;
            let l = lo_seq;
            assert(r@ =~= l + h.reverse());
            assert(i * i > n);
            let s = r@.map_values(|x: i64| x as int);
            assert forall|a: int| 0 <= a < l.len() implies #[trigger] l[a] * l[a] <= n by {
                assert(l[a] <= i - 1);
                assert(l[a] * l[a] <= (i - 1) * (i - 1)) by (nonlinear_arith)
                    requires 1 <= l[a] <= i - 1;
            }
            assert forall|a: int, b: int| 0 <= a < b < s.len() implies s[a] < s[b] by {
                let ll = l.len() as int;
                if b < ll {
                } else if a >= ll {
                    assert(r@[a] == h[h.len() - 1 - (a - ll)]);
                    assert(r@[b] == h[h.len() - 1 - (b - ll)]);
                } else {
                    let d = l[a];
                    let e = h[h.len() - 1 - (b - ll)];
                    assert(r@[b] == e);
                    assert(d * d <= n);
                    assert(e * e > n);
                    assert(d < e) by (nonlinear_arith)
                        requires d * d < e * e, d >= 1, e >= 1;
                }
            }
            assert forall|d: int| s.contains(d) <==> (n as int >= 1 && 1 <= d && #[trigger] ((n as int) % d) == 0) by {
                if s.contains(d) {
                    let k = choose|k: int| 0 <= k < s.len() && s[k] == d;
                    if k < l.len() {
                        assert(l[k] == r@[k]);
                    } else {
                        let t = h.len() - 1 - (k - l.len());
                        assert(r@[k] == h[t]);
                    }
                }
                if n >= 1 && 1 <= d && (n as int) % d == 0 {
                    lemma_cofactor(n as int, d);
                    assert(d <= n) by (nonlinear_arith)
                        requires d * ((n as int) / d) == n as int, (n as int) / d >= 1, d >= 1;
                    let x = d as i64;
                    if d < i {
                        assert(lo_seq.contains(x));
                        let k = choose|k: int| 0 <= k < l.len() && l[k] == x;
                        assert(s[k] == d);
                    } else {
                        let c = (n as int) / d;
                        assert(d * d > n) by (nonlinear_arith)
                            requires d >= i as int, i * i > n as int, i >= 1;
                        assert(c < d) by (nonlinear_arith)
                            requires d * c == n as int, d * d > n as int, c >= 1, d >= 1;
                        assert(c * c < n as int) by (nonlinear_arith)
                            requires c < d, d * c == n as int, c >= 1;
                        assert(c < i) by (nonlinear_arith)
                            requires c * c < i * i, c >= 1, i >= 1;
                        assert(h.contains(x));
                        let k = choose|k: int| 0 <= k < h.len() && h[k] == x;
                        let j = l.len() + (h.len() - 1 - k);
                        assert(r@[j] == h[k]);
                        assert(s[j] == d);
                    }
                }
            }
        }
        r
    }
}

impl Divisors for i32 {
    /// Trial division runs `i` up to the first `i` with `i * i > n`; that
    /// square overflows once `n` reaches `SQRT_I32_MAX^2`.
    open spec fn divisors_ok(&self) -> bool {
        (*self as int) < (SQRT_I32_MAX as int) * (SQRT_I32_MAX as int)
    }

    open spec fn divisor_listing(&self, s: Seq<i32>) -> bool {
        lists_divisors(*self as int, s.map_values(|x: i32| x as int))
    }

    fn divisors(&self) -> (r: Vec<i32>) {
        let n = *self;
        let mut lo: Vec<i32> = Vec::new();
        let mut hi: Vec<i32> = Vec::new();
        if n < 1 {
            return lo;
        }
        let mut i: i32 = 1;
        proof {
            assert forall|e: i32|
                hi@.contains(e) <==> (1 <= e && (n % e) == 0 && e * e > n && #[trigger] (n / e) < i) by {
                if 1 <= e && (n % e) == 0 {
                    lemma_cofactor(n as int, e as int);
                }
            }
        }
        while i * i <= n
            invariant
                1 <= i <= SQRT_I32_MAX,
                i * i <= SQRT_I32_MAX * SQRT_I32_MAX,
                n >= 1,
                (n as int) < (SQRT_I32_MAX as int) * (SQRT_I32_MAX as int),
                (i - 1) * (i - 1) <= n,
                forall|a: int, b: int| 0 <= a < b < lo@.len() ==> lo@[a] < lo@[b],
                forall|a: int, b: int| 0 <= a < b < hi@.len() ==> hi@[a] > hi@[b],
                forall|d: i32| lo@.contains(d) <==> (1 <= d < i && #[trigger] (n % d) == 0),
                forall|e: i32|
                    hi@.contains(e) <==> (1 <= e && (n % e) == 0 && e * e > n && #[trigger] (n
                        / e) < i),
                forall|k: int|
                    0 <= k < hi@.len() ==> 1 <= #[trigger] hi@[k] && n % hi@[k] == 0 && hi@[k]
                        * hi@[k] > n && n / hi@[k] < i,
                forall|k: int| 0 <= k < lo@.len() ==> 1 <= #[trigger] lo@[k] < i && n % lo@[k] == 0,
            decreases SQRT_I32_MAX - i,
        {
            proof {
                assert(i < SQRT_I32_MAX) by (nonlinear_arith)
                    requires i * i <= n, n < SQRT_I32_MAX * SQRT_I32_MAX, i >= 1;
            }
            let ghost lo0 = lo@;
            let ghost hi0 = hi@;
            if n % i == 0 {
                lo.push(i);
                if i * i != n {
                    let e = n / i;
                    proof {
                        lemma_cofactor(n as int, i as int);
                        assert(e > i) by (nonlinear_arith)
                            requires i * e == n, i * i < n, i >= 1;
                        assert(e * e > n) by (nonlinear_arith)
                            requires i * e == n, e > i, i >= 1;
                        assert forall|k: int| 0 <= k < hi@.len() implies hi@[k] > e by {
                            let f = hi@[k];
                            lemma_cofactor(n as int, f as int);
                            let g = n / f;
                            assert(f > e) by (nonlinear_arith)
                                requires g * f == n, i * e == n, g < i, g >= 1, e >= 1;
                        }
                    }
                    hi.push(e);
                }
            }
            proof {
                assert forall|d: i32| lo@.contains(d) <==> (1 <= d < i + 1 && #[trigger] (n % d) == 0) by {
                    if lo@.contains(d) {
                        let k = choose|k: int| 0 <= k < lo@.len() && lo@[k] == d;
                        if k < lo0.len() {
                            assert(lo0[k] == d);
                        }
                    }
                    if 1 <= d < i + 1 && n % d == 0 {
                        if d < i {
                            assert(lo0.contains(d));
                            let k = choose|k: int| 0 <= k < lo0.len() && lo0[k] == d;
                            assert(lo@[k] == d);
                        } else {
                            assert(lo@[lo@.len() - 1] == d);
                        }
                    }
                }
                assert forall|e: i32|
                    hi@.contains(e) <==> (1 <= e && (n % e) == 0 && e * e > n && #[trigger] (n
                        / e) < i + 1) by {
                    if hi@.contains(e) {
                        let k = choose|k: int| 0 <= k < hi@.len() && hi@[k] == e;
                        if k < hi0.len() {
                            assert(hi0[k] == e);
                        }
                    }
                    if 1 <= e && (n % e) == 0 && e * e > n && n / e < i + 1 {
                        lemma_cofactor(n as int, e as int);
                        if n / e < i {
                            assert(hi0.contains(e));
                            let k = choose|k: int| 0 <= k < hi0.len() && hi0[k] == e;
                            assert(hi@[k] == e);
                        } else {
                            assert(n / e == i);
                            assert(n % i == 0);
                            lemma_cofactor(n as int, i as int);
                            assert(i * i != n) by (nonlinear_arith)
                                requires e * i == n, e * e > n, i >= 1, e >= 1;
                            lemma_div_multiples_vanish(e as int, i as int);
                            lemma_mul_is_commutative(e as int, i as int);
                            assert(hi@[hi@.len() - 1] == e);
                        }
                    }
                }
                assert((i + 1) * (i + 1) <= SQRT_I32_MAX * SQRT_I32_MAX) by (nonlinear_arith)
                    requires i < SQRT_I32_MAX, i >= 1;
            }
            i = i + 1;
        }
        let mut r = lo;
        let ghost lo_seq = r@;
        let mut k = hi.len();
        while k > 0
            invariant
                k <= hi@.len(),
                r@ == lo_seq + hi@.subrange(k as int, hi@.len() as int).reverse(),
            decreases k,
        {
            k = k - 1;
            r.push(hi[k]);
            proof {
                assert(r@ =~= lo_seq + hi@.subrange(k as int, hi@.len() as int).reverse());
            }
        }
        proof {
            let h = hi@;
            let l = lo_seq;
            assert(r@ =~= l + h.reverse());
            assert(i * i > n);
            let s = r@.map_values(|x: i32| x as int);
            assert forall|a: int| 0 <= a < l.len() implies #[trigger] l[a] * l[a] <= n by {
                assert(l[a] <= i - 1);
                assert(l[a] * l[a] <= (i - 1) * (i - 1)) by (nonlinear_arith)
                    requires 1 <= l[a] <= i - 1;
            }
            assert forall|a: int, b: int| 0 <= a < b < s.len() implies s[a] < s[b] by {
                let ll = l.len() as int;
                if b < ll {
                } else if a >= ll {
                    assert(r@[a] == h[h.len() - 1 - (a - ll)]);
                    assert(r@[b] == h[h.len() - 1 - (b - ll)]);
                } else {
                    let d = l[a];
                    let e = h[h.len() - 1 - (b - ll)];
                    assert(r@[b] == e);
                    assert(d * d <= n);
                    assert(e * e > n);
                    assert(d < e) by (nonlinear_arith)
                        requires d * d < e * e, d >= 1, e >= 1;
                }
            }
            assert forall|d: int| s.contains(d) <==> (n as int >= 1 && 1 <= d && #[trigger] ((n as int) % d) == 0) by {
                if s.contains(d) {
                    let k = choose|k: int| 0 <= k < s.len() && s[k] == d;
                    if k < l.len() {
                        assert(l[k] == r@[k]);
                    } else {
                        let t = h.len() - 1 - (k - l.len());
                        assert(r@[k] == h[t]);
                    }
                }
                if n >= 1 && 1 <= d && (n as int) % d == 0 {
                    lemma_cofactor(n as int, d);
                    assert(d <= n) by (nonlinear_arith)
                        requires d * ((n as int) / d) == n as int, (n as int) / d >= 1, d >= 1;
                    let x = d as i32;
                    if d < i {
                        assert(lo_seq.contains(x));
                        let k = choose|k: int| 0 <= k < l.len() && l[k] == x;
                        assert(s[k] == d);
                    } else {
                        let c = (n as int) / d;
                        assert(d * d > n) by (nonlinear_arith)
                            requires d >= i as int, i * i > n as int, i >= 1;
                        assert(c < d) by (nonlinear_arith)
                            requires d * c == n as int, d * d > n as int, c >= 1, d >= 1;
                        assert(c * c < n as int) by (nonlinear_arith)
                            requires c < d, d * c == n as int, c >= 1;
                        assert(c < i) by (nonlinear_arith)
                            requires c * c < i * i, c >= 1, i >= 1;
                        assert(h.contains(x));
                        let k = choose|k: int| 0 <= k < h.len() && h[k] == x;
                        let j = l.len() + (h.len() - 1 - k);
                        assert(r@[j] == h[k]);
                        assert(s[j] == d);
                    }
                }
            }
        }
        r
    }
}

impl Divisors for i128 {
    /// Trial division runs `i` up to the first `i` with `i * i > n`; that
    /// square overflows once `n` reaches `SQRT_I128_MAX^2`.
    open spec fn divisors_ok(&self) -> bool {
        (*self as int) < (SQRT_I128_MAX as int) * (SQRT_I128_MAX as int)
    }

    open spec fn divisor_listing(&self, s: Seq<i128>) -> bool {
        lists_divisors(*self as int, s.map_values(|x: i128| x as int))
    }

    fn divisors(&self) -> (r: Vec<i128>) {
        let n = *self;
        let mut lo: Vec<i128> = Vec::new();
        let mut hi: Vec<i128> = Vec::new();
        if n < 1 {
            return lo;
        }
        let mut i: i128 = 1;
        proof {
            assert forall|e: i128|
                hi@.contains(e) <==> (1 <= e && (n % e) == 0 && e * e > n && #[trigger] (n / e) < i) by {
                if 1 <= e && (n % e) == 0 {
                    lemma_cofactor(n as int, e as int);
                }
            }
        }
        while i * i <= n
            invariant
                1 <= i <= SQRT_I128_MAX,
                i * i <= SQRT_I128_MAX * SQRT_I128_MAX,
                n >= 1,
                (n as int) < (SQRT_I128_MAX as int) * (SQRT_I128_MAX as int),
                (i - 1) * (i - 1) <= n,
                forall|a: int, b: int| 0 <= a < b < lo@.len() ==> lo@[a] < lo@[b],
                forall|a: int, b: int| 0 <= a < b < hi@.len() ==> hi@[a] > hi@[b],
                forall|d: i128| lo@.contains(d) <==> (1 <= d < i && #[trigger] (n % d) == 0),
                forall|e: i128|
                    hi@.contains(e) <==> (1 <= e && (n % e) == 0 && e * e > n && #[trigger] (n
                        / e) < i),
                forall|k: int|
                    0 <= k < hi@.len() ==> 1 <= #[trigger] hi@[k] && n % hi@[k] == 0 && hi@[k]
                        * hi@[k] > n && n / hi@[k] < i,
                forall|k: int| 0 <= k < lo@.len() ==> 1 <= #[trigger] lo@[k] < i && n % lo@[k] == 0,
            decreases SQRT_I128_MAX - i,
        {
            proof {
                assert(i < SQRT_I128_MAX) by (nonlinear_arith)
                    requires i * i <= n, n < SQRT_I128_MAX * SQRT_I128_MAX, i >= 1;
            }
            let ghost lo0 = lo@;
            let ghost hi0 = hi@;
            if n % i == 0 {
                lo.push(i);
                if i * i != n {
                    let e = n / i;
                    proof {
                        lemma_cofactor(n as int, i as int);
                        assert(e > i) by (nonlinear_arith)
                            requires i * e == n, i * i < n, i >= 1;
                        assert(e * e > n) by (nonlinear_arith)
                            requires i * e == n, e > i, i >= 1;
                        assert forall|k: int| 0 <= k < hi@.len() implies hi@[k] > e by {
                            let f = hi@[k];
                            lemma_cofactor(n as int, f as int);
                            let g = n / f;
                            assert(f > e) by (nonlinear_arith)
                                requires g * f == n, i * e == n, g < i, g >= 1, e >= 1;
                        }
                    }
                    hi.push(e);
                }
            }
            proof {
                assert forall|d: i128| lo@.contains(d) <==> (1 <= d < i + 1 && #[trigger] (n % d) == 0) by {
                    if lo@.contains(d) {
                        let k = choose|k: int| 0 <= k < lo@.len() && lo@[k] == d;
                        if k < lo0.len() {
                            assert(lo0[k] == d);
                        }
                    }
                    if 1 <= d < i + 1 && n % d == 0 {
                        if d < i {
                            assert(lo0.contains(d));
                            let k = choose|k: int| 0 <= k < lo0.len() && lo0[k] == d;
                            assert(lo@[k] == d);
                        } else {
                            assert(lo@[lo@.len() - 1] == d);
                        }
                    }
                }
                assert forall|e: i128|
                    hi@.contains(e) <==> (1 <= e && (n % e) == 0 && e * e > n && #[trigger] (n
                        / e) < i + 1) by {
                    if hi@.contains(e) {
                        let k = choose|k: int| 0 <= k < hi@.len() && hi@[k] == e;
                        if k < hi0.len() {
                            assert(hi0[k] == e);
                        }
                    }
                    if 1 <= e && (n % e) == 0 && e * e > n && n / e < i + 1 {
                        lemma_cofactor(n as int, e as int);
                        if n / e < i {
                            assert(hi0.contains(e));
                            let k = choose|k: int| 0 <= k < hi0.len() && hi0[k] == e;
                            assert(hi@[k] == e);
                        } else {
                            assert(n / e == i);
                            assert(n % i == 0);
                            lemma_cofactor(n as int, i as int);
                            assert(i * i != n) by (nonlinear_arith)
                                requires e * i == n, e * e > n, i >= 1, e >= 1;
                            lemma_div_multiples_vanish(e as int, i as int);
                            lemma_mul_is_commutative(e as int, i as int);
                            assert(hi@[hi@.len() - 1] == e);
                        }
                    }
                }
                assert((i + 1) * (i + 1) <= SQRT_I128_MAX * SQRT_I128_MAX) by (nonlinear_arith)
                    requires i < SQRT_I128_MAX, i >= 1;
            }
            i = i + 1;
        }
        let mut r = lo;
        let ghost lo_seq = r@;
        let mut k = hi.len();
        while k > 0
            invariant
                k <= hi@.len(),
                r@ == lo_seq + hi@.subrange(k as int, hi@.len() as int).reverse(),
            decreases k,
        {
            k = k - 1;
            r.push(hi[k]);
            proof {
                assert(r@ =~= lo_seq + hi@.subrange(k as int, hi@.len() as int).reverse());
            }
        }
        proof {
            let h = hi@;
            let l = lo_seq;
            assert(r@ =~= l + h.reverse());
            assert(i * i > n);
            let s = r@.map_values(|x: i128| x as int);
            assert forall|a: int| 0 <= a < l.len() implies #[trigger] l[a] * l[a] <= n by {
                assert(l[a] <= i - 1);
                assert(l[a] * l[a] <= (i - 1) * (i - 1)) by (nonlinear_arith)
                    requires 1 <= l[a] <= i - 1;
            }
            assert forall|a: int, b: int| 0 <= a < b < s.len() implies s[a] < s[b] by {
                let ll = l.len() as int;
                if b < ll {
                } else if a >= ll {
                    assert(r@[a] == h[h.len() - 1 - (a - ll)]);
                    assert(r@[b] == h[h.len() - 1 - (b - ll)]);
                } else {
                    let d = l[a];
                    let e = h[h.len() - 1 - (b - ll)];
                    assert(r@[b] == e);
                    assert(d * d <= n);
                    assert(e * e > n);
                    assert(d < e) by (nonlinear_arith)
                        requires d * d < e * e, d >= 1, e >= 1;
                }
            }
            assert forall|d: int| s.contains(d) <==> (n as int >= 1 && 1 <= d && #[trigger] ((n as int) % d) == 0) by {
                if s.contains(d) {
                    let k = choose|k: int| 0 <= k < s.len() && s[k] == d;
                    if k < l.len() {
                        assert(l[k] == r@[k]);
                    } else {
                        let t = h.len() - 1 - (k - l.len());
                        assert(r@[k] == h[t]);
                    }
                }
                if n >= 1 && 1 <= d && (n as int) % d == 0 {
                    lemma_cofactor(n as int, d);
                    assert(d <= n) by (nonlinear_arith)
                        requires d * ((n as int) / d) == n as int, (n as int) / d >= 1, d >= 1;
                    let x = d as i128;
                    if d < i {
                        assert(lo_seq.contains(x));
                        let k = choose|k: int| 0 <= k < l.len() && l[k] == x;
                        assert(s[k] == d);
                    } else {
                        let c = (n as int) / d;
                        assert(d * d > n) by (nonlinear_arith)
                            requires d >= i as int, i * i > n as int, i >= 1;
                        assert(c < d) by (nonlinear_arith)
                            requires d * c == n as int, d * d > n as int, c >= 1, d >= 1;
                        assert(c * c < n as int) by (nonlinear_arith)
                            requires c < d, d * c == n as int, c >= 1;
                        assert(c < i) by (nonlinear_arith)
                            requires c * c < i * i, c >= 1, i >= 1;
                        assert(h.contains(x));
                        let k = choose|k: int| 0 <= k < h.len() && h[k] == x;
                        let j = l.len() + (h.len() - 1 - k);
                        assert(r@[j] == h[k]);
                        assert(s[j] == d);
                    }
                }
            }
        }
        r
    }
}

} // verus!
