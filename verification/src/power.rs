//! Exponentiation by repeated squaring.
use vstd::prelude::*;
use vstd::arithmetic::div_mod::*;
use vstd::arithmetic::mul::*;
use vstd::arithmetic::power::*;
use crate::arith::pow_chain_fits;
use crate::modint::{ModInt, modulus_ok};

verus! {

/// Raise a value to an `i32` power by square-and-multiply; a power that is
/// not positive gives one.
pub trait RepeatedSquaring: Sized {
    /// Whether `power` can compute `self^p` without overflow.
    spec fn power_ok(self, p: i32) -> bool;

    /// The value of `self^p` (one when `p <= 0`).
    spec fn power_spec(self, p: i32) -> Self;

    fn power(self, p: i32) -> (r: Self)
        requires
            self.power_ok(p),
        ensures
            r == self.power_spec(p),
    ;
}

/// The number of binary digits of `q` (zero for zero).
pub open spec fn bit_length(q: nat) -> nat
    decreases q,
{
    if q == 0 {
        0
    } else {
        1 + bit_length(q / 2)
    }
}

/// `q < 2^bit_length(q)`.
pub proof fn lemma_bit_length_bound(q: nat)
    ensures
        q < pow(2, bit_length(q)),
        q > 0 ==> bit_length(q) >= 1,
    decreases q,
{
    lemma_pow0(2);
    if q > 0 {
        lemma_bit_length_bound(q / 2);
        lemma_pow_adds(2, 1, bit_length(q / 2));
        lemma_pow1(2);
    }
}

impl RepeatedSquaring for usize {
    /// The last square formed, `self^(2^bit_length(p))`, fits in `usize`.
    open spec fn power_ok(self, p: i32) -> bool {
        p > 0 ==> pow(self as int, pow(2, bit_length(p as nat)) as nat) <= usize::MAX
    }

    open spec fn power_spec(self, p: i32) -> usize {
        if p <= 0 {
            1
        } else {
            pow(self as int, p as nat) as usize
        }
    }

    fn power(self, p: i32) -> (r: usize)
        ensures
            p > 0 ==> r == pow(self as int, p as nat),
    {
        let mut ret: usize = 1;
        let mut mul: usize = self;
        let mut q: i32 = p;
        let ghost x = self as int;
        let ghost p0 = p as nat;
        let ghost big = pow(x, pow(2, bit_length(p0)) as nat);
        proof {
            lemma_pow0(mul as int);
            if p > 0 {
                lemma_bit_length_bound(p0);
                lemma_pow_positive(2, bit_length(p0));
                if x > 0 {
                    lemma_pow_increases(x as nat, p0, pow(2, bit_length(p0)) as nat);
                } else {
                    lemma0_pow(p0);
                    lemma0_pow(pow(2, bit_length(p0)) as nat);
                }
            }
        }
        while q > 0
            invariant
                p <= 0 ==> q == p && ret == 1,
                p > 0 ==> 0 <= q <= p,
                p > 0 ==> ret * pow(mul as int, q as nat) == pow(x, p0),
                p > 0 ==> pow(mul as int, pow(2, bit_length(q as nat)) as nat) == big,
                p > 0 ==> big <= usize::MAX,
                p > 0 ==> pow(x, p0) <= usize::MAX,
                p0 == p as nat,
                x == self as int,
            decreases q,
        {
            let ghost qn = q as nat;
            let ghost m = mul as int;
            proof {
                assert(q & 1 != 0 <==> q % 2 == 1) by (bit_vector)
                    requires q > 0;
                assert(q >> 1 == q / 2) by (bit_vector)
                    requires q > 0;
                lemma_bit_length_bound(qn);
                lemma_pow_positive(2, bit_length(qn / 2));
                let h = pow(2, bit_length(qn / 2)) as nat;
                lemma_pow_adds(2, 1, bit_length(qn / 2));
                lemma_pow1(2);
                assert(pow(2, bit_length(qn)) == 2 * h);
                // (m^2)^h == m^(2h)
                lemma_square_is_pow2(m);
                lemma_pow_multiplies(m, 2, h);
                // m * m <= m^(2h) = big
                if m >= 1 {
                    lemma_pow_increases(m as nat, 2, 2 * h);
                    lemma_pow_increases(m as nat, 1, qn);
                    lemma_pow1(m);
                    lemma_pow_positive(m, qn);
                    lemma_mul_inequality(m, pow(m, qn), ret as int);
                    lemma_mul_is_commutative(m, ret as int);
                    lemma_mul_is_commutative(pow(m, qn), ret as int);
                } else {
                    assert(m * m == 0);
                    assert(ret * m == 0) by (nonlinear_arith) requires m == 0;
                }
                // ret * m^q == ret' * (m*m)^(q/2)
                lemma_pow_multiplies(m, 2, qn / 2);
                if qn % 2 == 1 {
                    lemma_pow1(m);
                    lemma_pow_adds(m, 1, 2 * (qn / 2));
                    lemma_mul_is_associative(ret as int, m, pow(m, 2 * (qn / 2)));
                } else {
                    assert(qn == 2 * (qn / 2));
                }
                lemma_mul_nonnegative(ret as int, m);
            }
            if q & 1 != 0 {
                ret = ret * mul;
            }
            q = q >> 1;
            mul = mul * mul;
        }
        proof {
            if p > 0 {
                lemma_pow0(mul as int);
            }
        }
        ret
    }
}

impl<const M: u64> RepeatedSquaring for ModInt<M> {
    /// A valid modulus, and square-and-multiply stays within `i64`.
    open spec fn power_ok(self, p: i32) -> bool {
        &&& modulus_ok(M)
        &&& p > 0 ==> pow_chain_fits(1int % (M as int), self@, p as nat, M as int)
    }

    closed spec fn power_spec(self, p: i32) -> ModInt<M> {
        ModInt::spec_from(if p <= 0 {
            1int % (M as int)
        } else {
            pow(self@, p as nat) % (M as int)
        })
    }

    fn power(self, p: i32) -> (r: ModInt<M>)
        ensures
            r@ == (if p <= 0 {
                1int % (M as int)
            } else {
                pow(self@, p as nat) % (M as int)
            }),
    {
        let one = ModInt::<M>::new(1);
        let r = ModInt::square_and_multiply(one, self, p as i64);
        proof {
            if M == 1 {
                lemma_mod_self_0(1);
            } else {
                lemma_small_mod(1, M as nat);
            }
            if p > 0 {
                lemma_mul_basics(pow(self@, p as nat));
            }
            ModInt::lemma_spec_from(r);
        }
        r
    }
}

} // verus!
