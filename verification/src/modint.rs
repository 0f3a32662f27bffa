//! Integers modulo a fixed modulus `M`.
//!
//! A `ModInt<M>` stores a representative in `0..=M`: `new` reduces its
//! argument by the truncating remainder and lifts a negative remainder by
//! `M`, so a negative multiple of `M` is stored as `M` itself.  Every
//! operation goes back through `new`.
use vstd::prelude::*;
use vstd::arithmetic::div_mod::*;
use vstd::arithmetic::power::*;
use vstd::std_specs::ops::{AddSpecImpl, SubSpecImpl, MulSpecImpl, DivSpecImpl};
use core::ops::{Add, Sub, Mul, Div};
use crate::arith::{pow_chain_fits, lemma_pow_step};
use crate::fermat::{is_prime, lemma_fermat_little};

verus! {

/// The representative that `ModInt::new` stores for `sig`: the remainder of
/// `sig` by `m`, except that a negative multiple of `m` is stored as `m`.
pub open spec fn normalize(sig: int, m: int) -> int {
    if sig < 0 && sig % m == 0 {
        m
    } else {
        sig % m
    }
}

/// Whether `m` can serve as a modulus: positive and representable as `i64`.
pub open spec fn modulus_ok(m: u64) -> bool {
    1 <= m <= i64::MAX
}

/// Whether a value lies in the range of `i64`.
pub open spec fn fits_i64(v: int) -> bool {
    i64::MIN <= v <= i64::MAX
}

/// What `inverse` returns for the representative `a` modulo `m`:
/// `a^(m-2) mod m`, or `1` when `m - 2` is not positive.
pub open spec fn inverse_value(a: int, m: int) -> int {
    if m - 2 <= 0 {
        1
    } else {
        pow(a, (m - 2) as nat) % m
    }
}

/// Whether computing `inverse` of the representative `a` modulo `m` keeps
/// every intermediate product within `i64`.
pub open spec fn inverse_fits(a: int, m: int) -> bool {
    m - 2 <= 0 || pow_chain_fits(1, a, (m - 2) as nat, m)
}

/// An integer modulo `M`.
#[derive(Clone, Copy)]
pub struct ModInt<const M: u64> {
    x: i64,
}

impl<const M: u64> View for ModInt<M> {
    type V = int;

    closed spec fn view(&self) -> int {
        self.x as int
    }
}

impl<const M: u64> ModInt<M> {
    #[verifier::type_invariant]
    closed spec fn inv(self) -> bool {
        0 <= self.x <= M
    }

    /// The value storing the representative `v`.
    pub closed spec fn spec_from(v: int) -> Self {
        ModInt { x: v as i64 }
    }

    /// A value is the one built from its own representative.
    pub proof fn lemma_spec_from(a: Self)
        ensures
            a == Self::spec_from(a@),
    {
    }

    /// The value built from a representative `v` (an `i64` value that is
    /// not negative) holds `v`.
    pub proof fn lemma_view_spec_from(v: int)
        requires
            0 <= v <= i64::MAX,
        ensures
            Self::spec_from(v)@ == v,
    {
    }

    /// The residue of `sig` (see `normalize`).
    pub fn new(sig: i64) -> (r: Self)
        requires
            modulus_ok(M),
        ensures
            r@ == normalize(sig as int, M as int),
    {
        let m = M as i64;
        if sig < 0 {
            let r = sig % m;
            proof {
                assert(r == -((-(sig as int)) % (m as int)));
                lemma_neg_mod(-(sig as int), m as int);
            }
            Self { x: r + m }
        } else {
            Self { x: sig % m }
        }
    }

    /// The stored representative.
    pub fn get(&self) -> (r: i64)
        ensures
            r == self@,
            0 <= r <= M,
    {
        proof { use_type_invariant(self); }
        self.x
    }

    /// The modulus `M`.
    pub fn modulus() -> (r: i64)
        requires
            modulus_ok(M),
        ensures
            r == M,
    {
        M as i64
    }

    /// Square-and-multiply: `acc * base^p`, reduced after every product.
    pub(crate) fn square_and_multiply(acc: Self, base: Self, p: i64) -> (r: Self)
        requires
            modulus_ok(M),
            M >= 2 ==> acc@ < M,
            p > 0 ==> pow_chain_fits(acc@, base@, p as nat, M as int),
        ensures
            p <= 0 ==> r == acc,
            p > 0 ==> r@ == (acc@ * pow(base@, p as nat)) % (M as int),
    {
        proof {
            use_type_invariant(&acc);
            use_type_invariant(&base);
        }
        let mut ret = acc;
        let mut mul = base;
        let mut q = p;
        let ghost mut multiplied = false;
        while q > 0
            invariant
                modulus_ok(M),
                p > 0 ==> 0 <= q <= p,
                p <= 0 ==> q == p && ret == acc,
                0 <= ret@ <= M,
                0 <= mul@ <= M,
                M >= 2 ==> ret@ < M,
                q > 0 ==> pow_chain_fits(ret@, mul@, q as nat, M as int),
                p > 0 ==> (ret@ * pow(mul@, q as nat)) % (M as int)
                    == (acc@ * pow(base@, p as nat)) % (M as int),
                multiplied ==> 0 <= ret@ < M,
                p > 0 && q == 0 ==> multiplied,
            decreases q,
        {
            proof {
                lemma_pow_step(ret@, mul@, q as nat, M as int);
                assert(q & 1 != 0 <==> q % 2 == 1) by (bit_vector)
                    requires q > 0;
                assert(q >> 1 == q / 2) by (bit_vector)
                    requires q > 0;
                vstd::arithmetic::mul::lemma_mul_nonnegative(ret@, mul@);
                vstd::arithmetic::mul::lemma_mul_nonnegative(mul@, mul@);
            }
            if q & 1 != 0 {
                ret = ModInt::new(ret.x * mul.x);
                proof { multiplied = true; }
            }
            q = q >> 1;
            mul = ModInt::new(mul.x * mul.x);
        }
        proof {
            if p > 0 {
                lemma_pow0(mul@);
                lemma_small_mod(ret@ as nat, M as nat);
            }
        }
        ret
    }

    /// `self^(M-2)` by square-and-multiply: the multiplicative inverse when
    /// `M` is prime (Fermat's little theorem).
    pub fn inverse(&self) -> (r: Self)
        requires
            modulus_ok(M),
            inverse_fits(self@, M as int),
        ensures
            r@ == inverse_value(self@, M as int),
    {
        let one = Self { x: 1 };
        let p = M as i64 - 2;
        let r = Self::square_and_multiply(one, *self, p);
        proof {
            if p > 0 {
                vstd::arithmetic::mul::lemma_mul_basics(pow(self@, p as nat));
            }
        }
        r
    }

    /// `*self = *self + rhs`.
    pub fn add_assign(&mut self, rhs: Self)
        requires
            modulus_ok(M),
            fits_i64(old(self)@ + rhs@),
        ensures
            final(self)@ == normalize(old(self)@ + rhs@, M as int),
    {
        *self = *self + rhs;
    }

    /// `*self = *self + rhs`.
    pub fn add_assign_i64(&mut self, rhs: i64)
        requires
            modulus_ok(M),
            fits_i64(old(self)@ + rhs as int),
        ensures
            final(self)@ == normalize(old(self)@ + rhs as int, M as int),
    {
        *self = *self + rhs;
    }

    /// `*self = *self - rhs`.
    pub fn sub_assign(&mut self, rhs: Self)
        requires
            modulus_ok(M),
            fits_i64(old(self)@ - rhs@),
        ensures
            final(self)@ == normalize(old(self)@ - rhs@, M as int),
    {
        *self = *self - rhs;
    }

    /// `*self = *self - rhs`.
    pub fn sub_assign_i64(&mut self, rhs: i64)
        requires
            modulus_ok(M),
            fits_i64(old(self)@ - rhs as int),
        ensures
            final(self)@ == normalize(old(self)@ - rhs as int, M as int),
    {
        *self = *self - rhs;
    }

    /// `*self = *self * rhs`.
    pub fn mul_assign(&mut self, rhs: Self)
        requires
            modulus_ok(M),
            fits_i64(old(self)@ * rhs@),
        ensures
            final(self)@ == normalize(old(self)@ * rhs@, M as int),
    {
        *self = *self * rhs;
    }

    /// `*self = *self * rhs`.
    pub fn mul_assign_i64(&mut self, rhs: i64)
        requires
            modulus_ok(M),
            fits_i64(old(self)@ * rhs as int),
        ensures
            final(self)@ == normalize(old(self)@ * rhs as int, M as int),
    {
        *self = *self * rhs;
    }

    /// `*self = *self / rhs`.
    pub fn div_assign(&mut self, rhs: Self)
        requires
            modulus_ok(M),
            inverse_fits(rhs@, M as int),
            fits_i64(old(self)@ * inverse_value(rhs@, M as int)),
        ensures
            final(self)@ == normalize(old(self)@ * inverse_value(rhs@, M as int), M as int),
    {
        *self = *self / rhs;
    }

    /// `*self = *self / rhs`, the divisor first reduced by `new`.
    pub fn div_assign_i64(&mut self, rhs: i64)
        requires
            modulus_ok(M),
            inverse_fits(normalize(rhs as int, M as int), M as int),
            fits_i64(old(self)@ * inverse_value(normalize(rhs as int, M as int), M as int)),
        ensures
            final(self)@ == normalize(
                old(self)@ * inverse_value(normalize(rhs as int, M as int), M as int),
                M as int,
            ),
    {
        *self = *self / ModInt::new(rhs);
    }

    /// The residue of `x` read as `i64` (with wrap-around, as `as` casts).
    pub fn from_usize(x: usize) -> (r: Self)
        requires
            modulus_ok(M),
        ensures
            r@ == normalize((x as i64) as int, M as int),
    {
        Self::new(x as i64)
    }

    /// The decimal text of the stored representative: what the value
    /// displays as.
    pub fn to_string(&self) -> (s: String)
        ensures
            vstd::string::to_string_from_display_ensures::<i64>(&(self@ as i64), s),
    {
        self.x.to_string()
    }

    /// The stored representative cast to `usize` (exact where it fits).
    pub fn to_usize(self) -> (r: usize)
        ensures
            r == self@ as usize,
            self@ <= usize::MAX ==> r == self@,
    {
        proof { use_type_invariant(&self); }
        self.x as usize
    }
}

impl<const M: u64> Add<ModInt<M>> for ModInt<M> {
    type Output = ModInt<M>;

    fn add(self, rhs: ModInt<M>) -> (r: ModInt<M>)
        ensures
            r@ == normalize(self@ + rhs@, M as int),
    {
        proof { use_type_invariant(&self); use_type_invariant(&rhs); }
        ModInt::new(self.x + rhs.x)
    }
}

impl<const M: u64> AddSpecImpl<ModInt<M>> for ModInt<M> {
    open spec fn obeys_add_spec() -> bool {
        true
    }

    open spec fn add_req(self, rhs: ModInt<M>) -> bool {
        modulus_ok(M) && fits_i64(self@ + rhs@)
    }

    closed spec fn add_spec(self, rhs: ModInt<M>) -> ModInt<M> {
        ModInt { x: normalize(self@ + rhs@, M as int) as i64 }
    }
}

impl<const M: u64> Add<i64> for ModInt<M> {
    type Output = ModInt<M>;

    fn add(self, rhs: i64) -> (r: ModInt<M>)
        ensures
            r@ == normalize(self@ + rhs as int, M as int),
    {
        proof { use_type_invariant(&self); }
        ModInt::new(self.x + rhs)
    }
}

impl<const M: u64> AddSpecImpl<i64> for ModInt<M> {
    open spec fn obeys_add_spec() -> bool {
        true
    }

    open spec fn add_req(self, rhs: i64) -> bool {
        modulus_ok(M) && fits_i64(self@ + rhs as int)
    }

    closed spec fn add_spec(self, rhs: i64) -> ModInt<M> {
        ModInt { x: normalize(self@ + rhs as int, M as int) as i64 }
    }
}

impl<const M: u64> Add<ModInt<M>> for i64 {
    type Output = ModInt<M>;

    fn add(self, rhs: ModInt<M>) -> (r: ModInt<M>)
        ensures
            r@ == normalize(self as int + rhs@, M as int),
    {
        proof { use_type_invariant(&rhs); }
        ModInt::new(self + rhs.x)
    }
}

impl<const M: u64> AddSpecImpl<ModInt<M>> for i64 {
    open spec fn obeys_add_spec() -> bool {
        true
    }

    open spec fn add_req(self, rhs: ModInt<M>) -> bool {
        modulus_ok(M) && fits_i64(self as int + rhs@)
    }

    closed spec fn add_spec(self, rhs: ModInt<M>) -> ModInt<M> {
        ModInt { x: normalize(self as int + rhs@, M as int) as i64 }
    }
}

impl<const M: u64> Sub<ModInt<M>> for ModInt<M> {
    type Output = ModInt<M>;

    fn sub(self, rhs: ModInt<M>) -> (r: ModInt<M>)
        ensures
            r@ == normalize(self@ - rhs@, M as int),
    {
        proof { use_type_invariant(&self); use_type_invariant(&rhs); }
        ModInt::new(self.x - rhs.x)
    }
}

impl<const M: u64> SubSpecImpl<ModInt<M>> for ModInt<M> {
    open spec fn obeys_sub_spec() -> bool {
        true
    }

    open spec fn sub_req(self, rhs: ModInt<M>) -> bool {
        modulus_ok(M) && fits_i64(self@ - rhs@)
    }

    closed spec fn sub_spec(self, rhs: ModInt<M>) -> ModInt<M> {
        ModInt { x: normalize(self@ - rhs@, M as int) as i64 }
    }
}

impl<const M: u64> Sub<i64> for ModInt<M> {
    type Output = ModInt<M>;

    fn sub(self, rhs: i64) -> (r: ModInt<M>)
        ensures
            r@ == normalize(self@ - rhs as int, M as int),
    {
        proof { use_type_invariant(&self); }
        ModInt::new(self.x - rhs)
    }
}

impl<const M: u64> SubSpecImpl<i64> for ModInt<M> {
    open spec fn obeys_sub_spec() -> bool {
        true
    }

    open spec fn sub_req(self, rhs: i64) -> bool {
        modulus_ok(M) && fits_i64(self@ - rhs as int)
    }

    closed spec fn sub_spec(self, rhs: i64) -> ModInt<M> {
        ModInt { x: normalize(self@ - rhs as int, M as int) as i64 }
    }
}

impl<const M: u64> Sub<ModInt<M>> for i64 {
    type Output = ModInt<M>;

    fn sub(self, rhs: ModInt<M>) -> (r: ModInt<M>)
        ensures
            r@ == normalize(self as int - rhs@, M as int),
    {
        proof { use_type_invariant(&rhs); }
        ModInt::new(self - rhs.x)
    }
}

impl<const M: u64> SubSpecImpl<ModInt<M>> for i64 {
    open spec fn obeys_sub_spec() -> bool {
        true
    }

    open spec fn sub_req(self, rhs: ModInt<M>) -> bool {
        modulus_ok(M) && fits_i64(self as int - rhs@)
    }

    closed spec fn sub_spec(self, rhs: ModInt<M>) -> ModInt<M> {
        ModInt { x: normalize(self as int - rhs@, M as int) as i64 }
    }
}

impl<const M: u64> Mul<ModInt<M>> for ModInt<M> {
    type Output = ModInt<M>;

    fn mul(self, rhs: ModInt<M>) -> (r: ModInt<M>)
        ensures
            r@ == normalize(self@ * rhs@, M as int),
    {
        proof { use_type_invariant(&self); use_type_invariant(&rhs); }
        ModInt::new(self.x * rhs.x)
    }
}

impl<const M: u64> MulSpecImpl<ModInt<M>> for ModInt<M> {
    open spec fn obeys_mul_spec() -> bool {
        true
    }

    open spec fn mul_req(self, rhs: ModInt<M>) -> bool {
        modulus_ok(M) && fits_i64(self@ * rhs@)
    }

    closed spec fn mul_spec(self, rhs: ModInt<M>) -> ModInt<M> {
        ModInt { x: normalize(self@ * rhs@, M as int) as i64 }
    }
}

impl<const M: u64> Mul<i64> for ModInt<M> {
    type Output = ModInt<M>;

    fn mul(self, rhs: i64) -> (r: ModInt<M>)
        ensures
            r@ == normalize(self@ * rhs as int, M as int),
    {
        proof { use_type_invariant(&self); }
        ModInt::new(self.x * rhs)
    }
}

impl<const M: u64> MulSpecImpl<i64> for ModInt<M> {
    open spec fn obeys_mul_spec() -> bool {
        true
    }

    open spec fn mul_req(self, rhs: i64) -> bool {
        modulus_ok(M) && fits_i64(self@ * rhs as int)
    }

    closed spec fn mul_spec(self, rhs: i64) -> ModInt<M> {
        ModInt { x: normalize(self@ * rhs as int, M as int) as i64 }
    }
}

impl<const M: u64> Mul<ModInt<M>> for i64 {
    type Output = ModInt<M>;

    fn mul(self, rhs: ModInt<M>) -> (r: ModInt<M>)
        ensures
            r@ == normalize(self as int * rhs@, M as int),
    {
        proof { use_type_invariant(&rhs); }
        ModInt::new(self * rhs.x)
    }
}

impl<const M: u64> MulSpecImpl<ModInt<M>> for i64 {
    open spec fn obeys_mul_spec() -> bool {
        true
    }

    open spec fn mul_req(self, rhs: ModInt<M>) -> bool {
        modulus_ok(M) && fits_i64(self as int * rhs@)
    }

    closed spec fn mul_spec(self, rhs: ModInt<M>) -> ModInt<M> {
        ModInt { x: normalize(self as int * rhs@, M as int) as i64 }
    }
}

impl<const M: u64> Div<ModInt<M>> for ModInt<M> {
    type Output = ModInt<M>;

    /// Multiplication by `inverse` of the divisor.
    fn div(self, rhs: ModInt<M>) -> (r: ModInt<M>)
        ensures
            r@ == normalize(self@ * inverse_value(rhs@, M as int), M as int),
    {
        proof { use_type_invariant(&self); }
        ModInt::new(self.x * rhs.inverse().get())
    }
}

impl<const M: u64> DivSpecImpl<ModInt<M>> for ModInt<M> {
    open spec fn obeys_div_spec() -> bool {
        true
    }

    open spec fn div_req(self, rhs: ModInt<M>) -> bool {
        &&& modulus_ok(M)
        &&& inverse_fits(rhs@, M as int)
        &&& fits_i64(self@ * inverse_value(rhs@, M as int))
    }

    closed spec fn div_spec(self, rhs: ModInt<M>) -> ModInt<M> {
        ModInt { x: normalize(self@ * inverse_value(rhs@, M as int), M as int) as i64 }
    }
}

impl<const M: u64> Div<i64> for ModInt<M> {
    type Output = ModInt<M>;

    /// Multiplication by `inverse` of the divisor.
    fn div(self, rhs: i64) -> (r: ModInt<M>)
        ensures
            r@ == normalize(self@ * inverse_value(normalize(rhs as int, M as int), M as int), M as int),
    {
        proof { use_type_invariant(&self); }
        ModInt::new(self.x * ModInt::<M>::new(rhs).inverse().get())
    }
}

impl<const M: u64> DivSpecImpl<i64> for ModInt<M> {
    open spec fn obeys_div_spec() -> bool {
        true
    }

    open spec fn div_req(self, rhs: i64) -> bool {
        &&& modulus_ok(M)
        &&& inverse_fits(normalize(rhs as int, M as int), M as int)
        &&& fits_i64(self@ * inverse_value(normalize(rhs as int, M as int), M as int))
    }

    closed spec fn div_spec(self, rhs: i64) -> ModInt<M> {
        ModInt { x: normalize(self@ * inverse_value(normalize(rhs as int, M as int), M as int), M as int) as i64 }
    }
}

impl<const M: u64> Div<ModInt<M>> for i64 {
    type Output = ModInt<M>;

    /// Multiplication by `inverse` of the divisor.
    fn div(self, rhs: ModInt<M>) -> (r: ModInt<M>)
        ensures
            r@ == normalize(self as int * inverse_value(rhs@, M as int), M as int),
    {
        proof {  }
        ModInt::new(self * rhs.inverse().get())
    }
}

impl<const M: u64> DivSpecImpl<ModInt<M>> for i64 {
    open spec fn obeys_div_spec() -> bool {
        true
    }

    open spec fn div_req(self, rhs: ModInt<M>) -> bool {
        &&& modulus_ok(M)
        &&& inverse_fits(rhs@, M as int)
        &&& fits_i64(self as int * inverse_value(rhs@, M as int))
    }

    closed spec fn div_spec(self, rhs: ModInt<M>) -> ModInt<M> {
        ModInt { x: normalize(self as int * inverse_value(rhs@, M as int), M as int) as i64 }
    }
}

/// Modulo a prime `m`, `inverse` returns a multiplicative inverse of every
/// value that `m` does not divide (Fermat's little theorem).
pub proof fn lemma_inverse_law(a: int, m: int)
    requires
        is_prime(m),
        a % m != 0,
    ensures
        (a * inverse_value(a, m)) % m == 1,
{
    if m == 2 {
        lemma_mod_bound(a, 2);
        vstd::arithmetic::mul::lemma_mul_basics(a);
    } else {
        let e = (m - 2) as nat;
        lemma_mul_mod_noop_right(a, pow(a, e), m);
        lemma_pow_adds(a, 1, e);
        lemma_pow1(a);
        lemma_fermat_little(a, m);
        assert(1 + e == (m - 1) as nat);
    }
}

/// Modulo a prime `m`, dividing by `b` (not a multiple of `m`) and
/// multiplying back by `b` gives the starting residue.
pub proof fn lemma_div_mul_law(x: int, b: int, m: int)
    requires
        is_prime(m),
        b % m != 0,
    ensures
        normalize(normalize(x * inverse_value(b, m), m) * b, m) % m == x % m,
{
    let i = inverse_value(b, m);
    lemma_inverse_law(b, m);
    lemma_normalize(x * i, m);
    let q = normalize(x * i, m);
    lemma_normalize(q * b, m);
    lemma_mul_mod_noop_left(q, b, m);
    lemma_mul_mod_noop_left(x * i, b, m);
    vstd::arithmetic::mul::lemma_mul_is_associative(x, i, b);
    vstd::arithmetic::mul::lemma_mul_is_commutative(i, b);
    lemma_mul_mod_noop_right(x, b * i, m);
    vstd::arithmetic::mul::lemma_mul_basics(x);
}

/// `normalize` lands in `0..=m`, in the residue class of `sig`.
pub proof fn lemma_normalize(sig: int, m: int)
    requires
        m > 0,
    ensures
        0 <= normalize(sig, m) <= m,
        normalize(sig, m) % m == sig % m,
        sig >= 0 ==> normalize(sig, m) < m,
{
    lemma_mod_bound(sig, m);
    lemma_mod_self_0(m);
    lemma_small_mod((sig % m) as nat, m as nat);
}

/// How the remainder of `-s` relates to the remainder of `s`.
pub proof fn lemma_neg_mod(s: int, m: int)
    requires
        m > 0,
    ensures
        (-s) % m == (if s % m == 0 { 0 } else { m - s % m }),
{
    let q = s / m;
    let r = s % m;
    lemma_fundamental_div_mod(s, m);
    lemma_mod_bound(s, m);
    if r == 0 {
        assert(-s == (-q) * m + 0) by (nonlinear_arith)
            requires s == m * q + r, r == 0;
        lemma_fundamental_div_mod_converse(-s, m, -q, 0);
    } else {
        assert(-s == (-q - 1) * m + (m - r)) by (nonlinear_arith)
            requires s == m * q + r;
        lemma_fundamental_div_mod_converse(-s, m, -q - 1, m - r);
    }
}

} // verus!
