//! Arithmetic facts shared by the modular and plain-integer code.
use vstd::prelude::*;
use vstd::arithmetic::div_mod::*;
use vstd::arithmetic::mul::*;
use vstd::arithmetic::power::*;

verus! {

/// Whether square-and-multiply from accumulator `r` and base `s` with
/// exponent `p`, reducing modulo `m` after each product, keeps every product
/// it forms within `i64`.
pub open spec fn pow_chain_fits(r: int, s: int, p: nat, m: int) -> bool
    decreases p,
{
    if p == 0 {
        true
    } else {
        &&& (p % 2 == 1 ==> r * s <= i64::MAX)
        &&& s * s <= i64::MAX
        &&& pow_chain_fits(
            if p % 2 == 1 { (r * s) % m } else { r },
            (s * s) % m,
            p / 2,
            m,
        )
    }
}

/// A modulus whose square fits in `i64` never overflows square-and-multiply.
pub proof fn lemma_pow_chain_fits_small_modulus(r: int, s: int, p: nat, m: int)
    requires
        m > 0,
        0 <= r <= m,
        0 <= s <= m,
        m * m <= i64::MAX,
    ensures
        pow_chain_fits(r, s, p, m),
    decreases p,
{
    if p > 0 {
        lemma_mul_upper_bound(r, m, s, m);
        lemma_mul_upper_bound(s, m, s, m);
        let r2 = if p % 2 == 1 { (r * s) % m } else { r };
        lemma_mul_nonnegative(r, s);
        lemma_mul_nonnegative(s, s);
        lemma_mod_bound(r * s, m);
        lemma_mod_bound(s * s, m);
        lemma_pow_chain_fits_small_modulus(r2, (s * s) % m, p / 2, m);
    }
}

/// One step of square-and-multiply preserves `r * s^p` modulo `m`.
pub proof fn lemma_pow_step(r: int, s: int, p: nat, m: int)
    requires
        m > 0,
        p > 0,
    ensures
        ((if p % 2 == 1 { (r * s) % m } else { r }) * pow((s * s) % m, p / 2)) % m
            == (r * pow(s, p)) % m,
{
    let h = p / 2;
    let r2 = if p % 2 == 1 { (r * s) % m } else { r };
    // pow((s*s) % m, h) ≡ pow(s, 2h)
    lemma_pow_mod_noop(s * s, h, m);
    lemma_square_is_pow2(s);
    lemma_pow_multiplies(s, 2, h);
    assert(pow(s * s, h) == pow(s, 2 * h));
    lemma_mul_mod_noop_right(r2, pow((s * s) % m, h), m);
    lemma_mul_mod_noop_right(r2, pow(s, 2 * h), m);
    if p % 2 == 1 {
        assert(p == 2 * h + 1);
        lemma_pow_adds(s, 2 * h, 1);
        lemma_pow1(s);
        lemma_mul_mod_noop_left(r * s, pow(s, 2 * h), m);
        lemma_mul_is_associative(r, s, pow(s, 2 * h));
        lemma_mul_is_commutative(pow(s, 2 * h), s);
    } else {
        assert(p == 2 * h);
    }
}

} // verus!
